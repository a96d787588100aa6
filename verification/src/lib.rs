//! The engine of an HEVC encoder: bitstream syntax, entropy coding, transforms, rate
//! control and picture reconstruction, each function verified against a mathematical
//! statement of what it computes.

pub mod bits;
pub mod bins;
pub mod bitreader;
pub mod bitwriter;
pub mod cabac;
pub mod cabac_decoder;
pub mod cabac_encoder;
pub mod cabac_laws;
pub mod forks;
pub mod nal;
pub mod hvcc;
pub mod hvcc_laws;
pub mod hrd;
pub mod hrd_laws;
pub mod ratecontrol;
pub mod arith;
pub mod matrix;
pub mod quant_simd;
pub mod transform;
pub mod transform_laws;
pub mod quant_laws;
pub mod orthogonality;
pub mod round_trip_laws;
pub mod inverse;
pub mod quant;
pub mod quantizer_laws;
pub mod scan;
pub mod residual;
pub mod residual_laws;
pub mod bin_source;
pub mod residual_decoder;
pub mod fields;
pub mod parameter_sets;
pub mod parameter_reader;
pub mod stream_info;
pub mod pcm;
pub mod pcm_laws;
pub mod option_laws;
pub mod simd;
pub mod host_laws;
pub mod colorconv;
pub mod recon_simd;
pub mod rdcost;
pub mod distortion_laws;
pub mod rdo;
pub mod rdo_laws;
pub mod intra;
pub mod intra_laws;
pub mod deblock;
pub mod sao;
pub mod picture;
pub mod sao_search;
pub mod sao_laws;
pub mod coded_block;
pub mod partition;
pub mod recon;
pub mod recon_laws;
pub mod filter_laws;
pub mod modes;
pub mod slice;
pub mod slice_laws;
pub mod sao_pricing;
pub mod slice_decoder;
pub mod pcm_decoder;
pub mod decision;
pub mod decision_laws;
pub mod rebuild;
pub mod lossy;
pub mod lossy_laws;
pub mod picture_laws;
pub mod picture_decoder;
pub mod segment_decoder;
pub mod tile_decoder;
pub mod pcm_stream;
