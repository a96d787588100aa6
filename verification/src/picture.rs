//! Pictures in planar 4:2:0 form, of whole 16x16 coding tree blocks.
use vstd::prelude::*;
use crate::intra::is_samples;

verus! {

/// The largest side of a picture.
pub const MAX_SIDE: usize = 0x2000_0000;

/// The mathematical value of an 8-bit picture.
pub struct Frame {
    pub y: Seq<u8>,
    pub cb: Seq<u8>,
    pub cr: Seq<u8>,
    pub width: int,
    pub height: int,
}

/// The mathematical value of a picture under reconstruction.
pub struct Samples {
    pub y: Seq<i32>,
    pub cb: Seq<i32>,
    pub cr: Seq<i32>,
    pub width: int,
    pub height: int,
}

/// The sides of a picture are whole coding tree blocks.
pub open spec fn whole_blocks(width: int, height: int) -> bool {
    &&& 0 < width <= MAX_SIDE
    &&& 0 < height <= MAX_SIDE
    &&& width % 16 == 0
    &&& height % 16 == 0
}

impl Frame {
    /// The planes fill a picture of whole coding tree blocks.
    pub open spec fn wf(self) -> bool {
        &&& whole_blocks(self.width, self.height)
        &&& self.y.len() == self.width * self.height
        &&& self.cb.len() == (self.width / 2) * (self.height / 2)
        &&& self.cr.len() == (self.width / 2) * (self.height / 2)
    }

    /// Plane `c`: luma, Cb or Cr.
    pub open spec fn plane(self, c: int) -> Seq<u8> {
        if c == 0 {
            self.y
        } else if c == 1 {
            self.cb
        } else {
            self.cr
        }
    }
}

impl Samples {
    /// The planes fill a picture of whole coding tree blocks with 8-bit samples.
    pub open spec fn wf(self) -> bool {
        &&& whole_blocks(self.width, self.height)
        &&& self.y.len() == self.width * self.height
        &&& self.cb.len() == (self.width / 2) * (self.height / 2)
        &&& self.cr.len() == (self.width / 2) * (self.height / 2)
        &&& is_samples(self.y)
        &&& is_samples(self.cb)
        &&& is_samples(self.cr)
    }

    /// Plane `c`: luma, Cb or Cr.
    pub open spec fn plane(self, c: int) -> Seq<i32> {
        if c == 0 {
            self.y
        } else if c == 1 {
            self.cb
        } else {
            self.cr
        }
    }
}

/// The sides of plane `c` of a picture.
pub open spec fn plane_side(side: int, c: int) -> int {
    if c == 0 {
        side
    } else {
        side / 2
    }
}

/// The source picture a frame is coded from.
#[derive(Clone, Copy, Debug)]
pub struct SourcePlanes<'a> {
    /// Source luma.
    pub y: &'a [u8],
    /// Source Cb.
    pub cb: &'a [u8],
    /// Source Cr.
    pub cr: &'a [u8],
    /// Luma width, which is also the luma stride.
    pub width: usize,
    /// Luma height.
    pub height: usize,
}

impl<'a> View for SourcePlanes<'a> {
    type V = Frame;

    open spec fn view(&self) -> Frame {
        Frame { y: self.y@, cb: self.cb@, cr: self.cr@, width: self.width as int, height: self.height as int }
    }
}

/// One reconstructed picture in planar 4:2:0 8-bit form.
#[derive(Clone, Debug, PartialEq, Eq)]
pub struct ReconstructedPicture {
    /// Reconstructed luma, `width * height`.
    pub y: Vec<u8>,
    /// Reconstructed Cb, `(width / 2) * (height / 2)`.
    pub cb: Vec<u8>,
    /// Reconstructed Cr.
    pub cr: Vec<u8>,
    /// Luma width.
    pub width: usize,
    /// Luma height.
    pub height: usize,
}

impl View for ReconstructedPicture {
    type V = Frame;

    open spec fn view(&self) -> Frame {
        Frame { y: self.y@, cb: self.cb@, cr: self.cr@, width: self.width as int, height: self.height as int }
    }
}

/// A picture under reconstruction.
#[derive(Clone, Debug, PartialEq, Eq)]
pub struct Picture {
    pub y: Vec<i32>,
    pub cb: Vec<i32>,
    pub cr: Vec<i32>,
    pub width: usize,
    pub height: usize,
}

impl View for Picture {
    type V = Samples;

    open spec fn view(&self) -> Samples {
        Samples { y: self.y@, cb: self.cb@, cr: self.cr@, width: self.width as int, height: self.height as int }
    }
}

/// A plane of 8-bit samples, widened.
pub open spec fn widened(p: Seq<u8>) -> Seq<i32> {
    Seq::new(p.len(), |i: int| p[i] as i32)
}

/// A plane of 8-bit samples, narrowed.
pub open spec fn narrowed(p: Seq<i32>) -> Seq<u8> {
    Seq::new(p.len(), |i: int| p[i] as u8)
}

/// A frame as a picture under reconstruction.
pub open spec fn widened_frame(f: Frame) -> Samples {
    Samples { y: widened(f.y), cb: widened(f.cb), cr: widened(f.cr), width: f.width, height: f.height }
}

/// A picture under reconstruction as a frame.
pub open spec fn narrowed_frame(s: Samples) -> Frame {
    Frame { y: narrowed(s.y), cb: narrowed(s.cb), cr: narrowed(s.cr), width: s.width, height: s.height }
}

/// Widens a plane.
pub fn widen(p: &Vec<u8>) -> (out: Vec<i32>)
    ensures
        out@ == widened(p@),
        is_samples(out@),
{
    let n: usize = p.len();
    let mut out: Vec<i32> = Vec::new();
    let mut i: usize = 0;
    while i < n
        invariant
            i <= n,
            n == p@.len(),
            out@.len() == i,
            forall|j: int| 0 <= j < i ==> #[trigger] out@[j] == p@[j],
        decreases n - i,
    {
        out.push(p[i] as i32);
        i = i + 1;
    }
    assert(out@ =~= widened(p@));
    out
}

/// Narrows a plane of 8-bit samples.
pub fn narrow(p: &Vec<i32>) -> (out: Vec<u8>)
    requires
        is_samples(p@),
    ensures
        out@ == narrowed(p@),
        forall|i: int| 0 <= i < p@.len() ==> #[trigger] out@[i] == p@[i],
{
    let n: usize = p.len();
    let mut out: Vec<u8> = Vec::new();
    let mut i: usize = 0;
    while i < n
        invariant
            i <= n,
            n == p@.len(),
            is_samples(p@),
            out@.len() == i,
            forall|j: int| 0 <= j < i ==> #[trigger] out@[j] == p@[j],
        decreases n - i,
    {
        assert(0 <= p@[i as int] <= 255);
        out.push(p[i] as u8);
        i = i + 1;
    }
    assert(out@ =~= narrowed(p@));
    out
}

impl Picture {
    /// A picture under reconstruction with the samples of a finished one.
    pub fn from_frame(f: &ReconstructedPicture) -> (p: Self)
        requires
            f@.wf(),
        ensures
            p@ == widened_frame(f@),
            p@.wf(),
    {
        Picture { y: widen(&f.y), cb: widen(&f.cb), cr: widen(&f.cr), width: f.width, height: f.height }
    }

    /// The finished picture.
    pub fn to_frame(&self) -> (f: ReconstructedPicture)
        requires
            self@.wf(),
        ensures
            f@ == narrowed_frame(self@),
            f@.wf(),
    {
        ReconstructedPicture {
            y: narrow(&self.y),
            cb: narrow(&self.cb),
            cr: narrow(&self.cr),
            width: self.width,
            height: self.height,
        }
    }
}

} // verus!
