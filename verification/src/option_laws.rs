//! Laws of the options of the PCM writer: what it accepts, and how its shorter forms and its
//! splits relate.
use vstd::prelude::*;
use vstd::arithmetic::div_mod::lemma_fundamental_div_mod;
use crate::lossy::{encode_idr_residual_au, picture_fits, SaoQuestion};
use crate::pcm::{
    au_fits, encode_idr_pcm_au, encode_idr_pcm_au_opts, encode_idr_pcm_au_segmented, plan_of, result_view,
    run_length, segment_end, PcmAuOptions, PcmEncodeError, Shape,
};
use crate::picture::ReconstructedPicture;

verus! {

/// What may be asked for together: a picture of whole 16x16 blocks; at least one segment and no
/// more than there are blocks, or slices of its own that begin with the first block and rise;
/// one kind of offsets at most; and tiles only where there are two or more, each with a block,
/// in one segment without offsets.
pub open spec fn coherent(o: Shape, width: int, height: int) -> bool {
    let (columns, rows) = (width / 16, height / 16);
    let slices = o.independent_slices;
    &&& width >= 16 && height >= 16 && 16 * columns == width && 16 * rows == height
    &&& slices.len() == 0 ==> 1 <= o.segments <= columns * rows
    &&& slices.len() >= 1 ==> slices[0].0 == 0 && slices.last().0 < columns * rows
    &&& forall|i: int| 0 < i < slices.len() ==> slices[i - 1].0 < (#[trigger] slices[i]).0
    &&& !(o.sao_luma_band && o.sao_luma_eo_vertical)
    &&& o.tiles matches Some((c, r)) ==> {
        &&& 1 <= c <= columns
        &&& 1 <= r <= rows
        &&& c > 1 || r > 1
        &&& o.segments == 1 && slices.len() == 0
        &&& !o.sao_luma_band && !o.sao_luma_eo_vertical
    }
}

proof fn lemma_rising(s: Seq<(usize, bool)>, i: int, j: int)
    requires
        forall|i: int| 0 < i < s.len() ==> s[i - 1].0 < (#[trigger] s[i]).0,
        0 <= i < j < s.len(),
    ensures
        s[i].0 < s[j].0,
    decreases j - i,
{
    assert(s[j - 1].0 < s[j].0);
    if i < j - 1 {
        lemma_rising(s, i, j - 1);
    }
}

/// A picture is refused for its dimensions exactly where it does not go together with its
/// options, and else for the first plane that does not have a sample for each luma sample, or
/// one for each four; every other picture is coded.
pub proof fn law_incoherent_options_are_refused(
    y: &[u8],
    cb: &[u8],
    cr: &[u8],
    width: usize,
    height: usize,
    opts: PcmAuOptions,
    r: Result<Vec<u8>, PcmEncodeError>,
)
    requires
        au_fits(opts@, width, height, y@.len(), cb@.len(), cr@.len()),
        call_ensures(encode_idr_pcm_au_opts, (y, cb, cr, width, height, opts), r),
    ensures
        !coherent(opts@, width as int, height as int) <==> r == Err::<Vec<u8>, PcmEncodeError>(
            PcmEncodeError::BadDimensions { width, height },
        ),
        coherent(opts@, width as int, height as int) ==> {
            let (luma, chroma) = (width * height, (width as int / 2) * (height as int / 2));
            &&& r is Ok <==> y@.len() == luma && cb@.len() == chroma && cr@.len() == chroma
            &&& y@.len() != luma ==> (r matches Err(PcmEncodeError::PlaneSize { plane, expected, got }) && plane == "y"
                && expected == luma && got == y@.len())
            &&& y@.len() == luma && cb@.len() != chroma ==> (r matches Err(
                PcmEncodeError::PlaneSize { plane, expected, got },
            ) && plane == "cb" && expected == chroma && got == cb@.len())
            &&& y@.len() == luma && cb@.len() == chroma && cr@.len() != chroma ==> (r matches Err(
                PcmEncodeError::PlaneSize { plane, expected, got },
            ) && plane == "cr" && expected == chroma && got == cr@.len())
        },
{
    let o = opts@;
    assert(y.len() == y@.len() && cb.len() == cb@.len() && cr.len() == cr@.len());
    let s = o.independent_slices;
    let (columns, rows) = (width as int / 16, height as int / 16);
    let total = columns * rows;
    if coherent(o, width as int, height as int) {
        assert forall|i: int, j: int| 0 <= i < j < s.len() implies (#[trigger] s[i]).0 < (#[trigger] s[j]).0 by {
            lemma_rising(s, i, j);
        }
        assert forall|i: int| 0 <= i < s.len() implies (#[trigger] s[i]).0 < total by {
            if i < s.len() - 1 {
                assert(s[i].0 < s[s.len() - 1].0);
            }
        }
        let (w, h) = (8 * columns, 8 * rows);
        assert(width as int / 2 == w && height as int / 2 == h);
        assert(w * h == 64 * total) by (nonlinear_arith)
            requires
                w == 8 * columns,
                h == 8 * rows,
                total == columns * rows,
        ;
        assert(width * height == 256 * total) by (nonlinear_arith)
            requires
                width == 16 * columns,
                height == 16 * rows,
                total == columns * rows,
        ;
        assert((width as int / 2) * (height as int / 2) == (width * height) / 4);
        assert(crate::pcm::dimensions_ok(width as int, height as int));
    }
    if let Some((c, r)) = o.tiles {
        if c > 0 && r > 0 {
            assert(c * r >= 2 <==> (c > 1 || r > 1)) by (nonlinear_arith)
                requires
                    c > 0,
                    r > 0,
            ;
        }
    }
}

/// The shorter forms are the full one at its defaults: one segment or as many as are asked for,
/// no slices of their own, no filters, PCM samples kept from the filters, and no tiles.
pub proof fn law_shorter_forms_are_defaults(
    y: &[u8],
    cb: &[u8],
    cr: &[u8],
    width: usize,
    height: usize,
    segments: usize,
    opts: PcmAuOptions,
    plain: Result<Vec<u8>, PcmEncodeError>,
    split: Result<Vec<u8>, PcmEncodeError>,
    full: Result<Vec<u8>, PcmEncodeError>,
)
    requires
        opts.segments == segments,
        opts.independent_slices@.len() == 0,
        !opts.deblocking && !opts.sao_luma_band && !opts.sao_luma_eo_vertical && opts.pcm_loop_filter_disabled,
        opts.tiles is None,
        au_fits(opts@, width, height, y@.len(), cb@.len(), cr@.len()),
        call_ensures(encode_idr_pcm_au, (y, cb, cr, width, height), plain),
        call_ensures(encode_idr_pcm_au_segmented, (y, cb, cr, width, height, segments), split),
        call_ensures(encode_idr_pcm_au_opts, (y, cb, cr, width, height, opts), full),
    ensures
        result_view(split) == result_view(full),
        segments == 1 ==> result_view(plain) == result_view(full),
{
    assert(opts@ =~= crate::pcm::even_shape(segments));
}

/// How many blocks segment `k` of a plan has.
pub open spec fn segment_size(plan: Seq<(int, Option<bool>)>, k: int, total: int) -> int {
    segment_end(plan, k, total) - plan[k].0
}

/// A picture that is split evenly has as many segments as are asked for, the first one
/// independent and the others not. All but the last are of one size, the smallest that so many
/// segments cover the picture with, wherever that leaves a block for the last one; elsewhere no
/// two differ by more than a block.
pub proof fn law_even_splits(opts: Shape, total: int, k: int)
    requires
        opts.independent_slices.len() == 0,
        1 <= opts.segments <= total,
        0 <= k < opts.segments,
    ensures
        ({
            let plan = plan_of(opts, total);
            let n = opts.segments as int;
            let size = run_length(total, n);
            &&& plan.len() == n
            &&& plan[k].1 == (if k == 0 {
                Some(true)
            } else {
                None::<bool>
            })
            &&& n * size >= total > n * (size - 1)
            &&& (n - 1) * size < total && k < n - 1 ==> segment_size(plan, k, total) == size
            &&& (n - 1) * size < total && k == n - 1 ==> 1 <= segment_size(plan, k, total) <= size
            &&& (n - 1) * size >= total ==> total - n < n * segment_size(plan, k, total) < total + n
        }),
{
    let plan = plan_of(opts, total);
    let n = opts.segments as int;
    let size = run_length(total, n);
    lemma_fundamental_div_mod(total, n);
    let (q, r) = (total / n, total % n);
    assert(n * size >= total > n * (size - 1)) by (nonlinear_arith)
        requires
            total == n * q + r,
            0 <= r < n,
            size == q + (if r != 0 {
                1int
            } else {
                0int
            }),
    ;
    if (n - 1) * size < total {
        assert((k + 1) * size == k * size + size) by (nonlinear_arith);
        assert((n - 1) * size + size == n * size) by (nonlinear_arith);
        assert(plan[k].0 == k * size);
        if k < n - 1 {
            assert(plan[k + 1].0 == (k + 1) * size);
        }
    } else {
        let (a, b) = (k * total, (k + 1) * total);
        assert(b == a + total) by (nonlinear_arith)
            requires
                a == k * total,
                b == (k + 1) * total,
        ;
        lemma_fundamental_div_mod(a, n);
        lemma_fundamental_div_mod(b, n);
        let (x, y) = (a / n, b / n);
        assert(total - n < n * (y - x) < total + n) by (nonlinear_arith)
            requires
                a == n * x + a % n,
                b == n * y + b % n,
                0 <= a % n < n,
                0 <= b % n < n,
                b == a + total,
        ;
        assert(plan[k].0 == x);
        if k < n - 1 {
            assert(plan[k + 1].0 == y);
        } else {
            assert(y == total) by (nonlinear_arith)
                requires
                    b == n * y + b % n,
                    0 <= b % n < n,
                    b == n * total,
                    n > 0,
            ;
        }
    }
}

/// Both writers refuse alike: at a QP of 0 to 51 the residual writer refuses a picture exactly
/// where the PCM writer does, with the same error; at any other it refuses every picture.
pub proof fn law_writers_refuse_alike<A: Fn(SaoQuestion) -> bool>(
    y: &[u8],
    cb: &[u8],
    cr: &[u8],
    width: usize,
    height: usize,
    qp: i32,
    accepts: A,
    lossy: Result<(Vec<u8>, ReconstructedPicture), PcmEncodeError>,
    pcm: Result<Vec<u8>, PcmEncodeError>,
)
    requires
        picture_fits(width, height, qp, y@.len(), cb@.len(), cr@.len()),
        width * height <= usize::MAX,
        call_ensures(encode_idr_residual_au::<A>, (y, cb, cr, width, height, qp, accepts), lossy),
        call_ensures(encode_idr_pcm_au, (y, cb, cr, width, height), pcm),
    ensures
        0 <= qp <= 51 ==> (lossy is Err <==> pcm is Err),
        0 <= qp <= 51 && lossy is Err ==> lossy->Err_0 == pcm->Err_0,
        qp < 0 || qp > 51 ==> lossy == Err::<(Vec<u8>, ReconstructedPicture), PcmEncodeError>(
            PcmEncodeError::BadDimensions { width, height },
        ),
{
    if width > 0 && height > 0 && width % 16 == 0 && height % 16 == 0 {
        assert((width as int / 16) * (height as int / 16) >= 1) by (nonlinear_arith)
            requires
                width as int / 16 >= 1,
                height as int / 16 >= 1,
        ;
    }
}

/// The default options: one segment, no slices of their own, no filters, PCM samples kept from
/// the filters, and no tiles.
pub proof fn law_default_options(o: PcmAuOptions)
    requires
        call_ensures(<PcmAuOptions as Default>::default, (), o),
    ensures
        o.segments == 1 && o.independent_slices@.len() == 0,
        !o.deblocking && !o.sao_luma_band && !o.sao_luma_eo_vertical,
        o.pcm_loop_filter_disabled && o.tiles is None,
{
    assert(o@ == crate::pcm::even_shape(1));
}

} // verus!
