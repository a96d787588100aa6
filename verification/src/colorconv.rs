//! RGBA8 to YUV 4:2:0 input conversion.
//!
//! Every frame arrives as interleaved 8-bit RGBA and is converted to planar 8-bit
//! YUV in BT.601 studio swing: luma per pixel, chroma over the 2x2 block of
//! pixels that each sample subsamples.
use vstd::prelude::*;
use crate::arith::abs;
use crate::cabac::clip3;

verus! {

/// The luma of a pixel before it is confined to studio swing.
pub open spec fn raw_luma(r: int, g: int, b: int) -> int {
    (66 * r + 129 * g + 25 * b + 128) / 256 + 16
}

/// The luma of a pixel.
pub open spec fn luma_of(r: int, g: int, b: int) -> int {
    clip3(16, 235, raw_luma(r, g, b))
}

/// Cb of a 2x2 block, from the sums of its channels, before it is confined to
/// studio swing.
pub open spec fn raw_cb(r: int, g: int, b: int) -> int {
    (112 * b - 38 * r - 74 * g + 131_584) / 1024
}

/// Cr of a 2x2 block, from the sums of its channels, before it is confined to
/// studio swing.
pub open spec fn raw_cr(r: int, g: int, b: int) -> int {
    (112 * r - 94 * g - 18 * b + 131_584) / 1024
}

/// The sum of channel `c` over the 2x2 block of pixels that chroma sample `x`
/// subsamples.
pub open spec fn block_sum(top: Seq<u8>, bottom: Seq<u8>, x: int, c: int) -> int {
    top[8 * x + c] + top[8 * x + 4 + c] + bottom[8 * x + c] + bottom[8 * x + 4 + c]
}

/// Cb of chroma sample `x`.
pub open spec fn cb_of(top: Seq<u8>, bottom: Seq<u8>, x: int) -> int {
    clip3(
        16,
        240,
        raw_cb(block_sum(top, bottom, x, 0), block_sum(top, bottom, x, 1), block_sum(top, bottom, x, 2)),
    )
}

/// Cr of chroma sample `x`.
pub open spec fn cr_of(top: Seq<u8>, bottom: Seq<u8>, x: int) -> int {
    clip3(
        16,
        240,
        raw_cr(block_sum(top, bottom, x, 0), block_sum(top, bottom, x, 1), block_sum(top, bottom, x, 2)),
    )
}

/// Converts one row of interleaved RGBA8 pixels to `out.len()` luma samples.
pub fn luma_row(rgba: &[u8], out: &mut [u8])
    requires
        rgba@.len() >= 4 * old(out)@.len(),
    ensures
        final(out)@.len() == old(out)@.len(),
        forall|x: int|
            0 <= x < final(out)@.len() ==> #[trigger] final(out)@[x] == luma_of(
                rgba@[4 * x] as int,
                rgba@[4 * x + 1] as int,
                rgba@[4 * x + 2] as int,
            ),
{
    luma_row_scalar(rgba, out);
}

/// The portable luma conversion.
pub fn luma_row_scalar(rgba: &[u8], out: &mut [u8])
    requires
        rgba@.len() >= 4 * old(out)@.len(),
    ensures
        final(out)@.len() == old(out)@.len(),
        forall|x: int|
            0 <= x < final(out)@.len() ==> #[trigger] final(out)@[x] == luma_of(
                rgba@[4 * x] as int,
                rgba@[4 * x + 1] as int,
                rgba@[4 * x + 2] as int,
            ),
{
    let n: usize = out.len();
    let mut x: usize = 0;
    while x < n
        invariant
            x <= n,
            n == out@.len(),
            n == old(out)@.len(),
            rgba.len() >= 4 * n,
            forall|j: int|
                0 <= j < x ==> #[trigger] out@[j] == luma_of(
                    rgba@[4 * j] as int,
                    rgba@[4 * j + 1] as int,
                    rgba@[4 * j + 2] as int,
                ),
        decreases n - x,
    {
        let r: u32 = rgba[4 * x] as u32;
        let g: u32 = rgba[4 * x + 1] as u32;
        let b: u32 = rgba[4 * x + 2] as u32;
        let v: u32 = (66 * r + 129 * g + 25 * b + 128) / 256 + 16;
        out[x] = if v < 16 {
            16
        } else if v > 235 {
            235
        } else {
            v as u8
        };
        x = x + 1;
    }
}

/// Converts two rows of interleaved RGBA8 pixels to `cb.len()` Cb and Cr samples.
pub fn chroma_row_pair(top: &[u8], bottom: &[u8], cb: &mut [u8], cr: &mut [u8])
    requires
        old(cb)@.len() == old(cr)@.len(),
        top@.len() >= 8 * old(cb)@.len(),
        bottom@.len() >= 8 * old(cb)@.len(),
    ensures
        final(cb)@.len() == old(cb)@.len(),
        final(cr)@.len() == old(cr)@.len(),
        forall|x: int| 0 <= x < final(cb)@.len() ==> #[trigger] final(cb)@[x] == cb_of(top@, bottom@, x),
        forall|x: int| 0 <= x < final(cr)@.len() ==> #[trigger] final(cr)@[x] == cr_of(top@, bottom@, x),
{
    chroma_row_pair_scalar(top, bottom, cb, cr);
}

/// The portable chroma conversion.
pub fn chroma_row_pair_scalar(top: &[u8], bottom: &[u8], cb: &mut [u8], cr: &mut [u8])
    requires
        old(cb)@.len() == old(cr)@.len(),
        top@.len() >= 8 * old(cb)@.len(),
        bottom@.len() >= 8 * old(cb)@.len(),
    ensures
        final(cb)@.len() == old(cb)@.len(),
        final(cr)@.len() == old(cr)@.len(),
        forall|x: int| 0 <= x < final(cb)@.len() ==> #[trigger] final(cb)@[x] == cb_of(top@, bottom@, x),
        forall|x: int| 0 <= x < final(cr)@.len() ==> #[trigger] final(cr)@[x] == cr_of(top@, bottom@, x),
{
    let n: usize = cb.len();
    let mut x: usize = 0;
    while x < n
        invariant
            x <= n,
            n == cb@.len(),
            n == cr@.len(),
            n == old(cb)@.len(),
            n == old(cr)@.len(),
            top.len() >= 8 * n,
            bottom.len() >= 8 * n,
            forall|j: int| 0 <= j < x ==> #[trigger] cb@[j] == cb_of(top@, bottom@, j),
            forall|j: int| 0 <= j < x ==> #[trigger] cr@[j] == cr_of(top@, bottom@, j),
        decreases n - x,
    {
        let r: i32 = channel_sum(top, bottom, x, 0);
        let g: i32 = channel_sum(top, bottom, x, 1);
        let b: i32 = channel_sum(top, bottom, x, 2);
        // The offset keeps both numerators positive.
        let u: i32 = (112 * b - 38 * r - 74 * g + 131_584) / 1024;
        let v: i32 = (112 * r - 94 * g - 18 * b + 131_584) / 1024;
        cb[x] = studio_chroma(u);
        cr[x] = studio_chroma(v);
        x = x + 1;
    }
}

fn channel_sum(top: &[u8], bottom: &[u8], x: usize, c: usize) -> (s: i32)
    requires
        c < 3,
        top.len() >= 8 * (x + 1),
        bottom.len() >= 8 * (x + 1),
    ensures
        s == block_sum(top@, bottom@, x as int, c as int),
        0 <= s <= 1020,
{
    let at: usize = 8 * x + c;
    top[at] as i32 + top[at + 4] as i32 + bottom[at] as i32 + bottom[at + 4] as i32
}

fn studio_chroma(v: i32) -> (r: u8)
    ensures
        r == clip3(16, 240, v as int),
{
    if v < 16 {
        16
    } else if v > 240 {
        240
    } else {
        v as u8
    }
}

/// The limits of studio swing are never needed: luma spans 16 to 235 and chroma
/// 16 to 240 over the whole RGB cube.
pub proof fn law_clamps_never_fire(r: int, g: int, b: int)
    requires
        0 <= r <= 255,
        0 <= g <= 255,
        0 <= b <= 255,
    ensures
        16 <= raw_luma(r, g, b) <= 235,
        16 <= raw_cb(4 * r, 4 * g, 4 * b) <= 240,
        16 <= raw_cr(4 * r, 4 * g, 4 * b) <= 240,
{
}

/// The same over the sums of any four pixels.
pub proof fn law_block_clamps_never_fire(r: int, g: int, b: int)
    requires
        0 <= r <= 1020,
        0 <= g <= 1020,
        0 <= b <= 1020,
    ensures
        16 <= raw_cb(r, g, b) <= 240,
        16 <= raw_cr(r, g, b) <= 240,
{
}

/// Luma is the nearest integer to the weighted sum of the channels of a pixel, in 256ths
/// red by 66, green by 129 and blue by 25, above a black of 16; and it lies less than one
/// level from what BT.601 defines, 219/255 of `0.299 R + 0.587 G + 0.114 B` above black.
pub proof fn law_luma_is_bt601(rgba: &[u8], out: &mut [u8], x: int)
    requires
        rgba@.len() >= 4 * old(out)@.len(),
        call_ensures(luma_row, (rgba, out), ()) || call_ensures(luma_row_scalar, (rgba, out), ()),
        0 <= x < old(out)@.len(),
    ensures
        ({
            let (r, g, b) = (rgba@[4 * x] as int, rgba@[4 * x + 1] as int, rgba@[4 * x + 2] as int);
            let above: int = final(out)@[x] - 16;
            &&& 256 * above - 128 <= 66 * r + 129 * g + 25 * b < 256 * above + 128
            &&& abs(255_000 * above - 219 * (299 * r + 587 * g + 114 * b)) < 255_000
        }),
        final(out)@.len() == old(out)@.len(),
{
}

/// A channel that rises raises the luma by its share: green by more than red, red by more
/// than blue, and a grey that rises to white takes the luma from 16 to 235.
pub proof fn law_luma_rises_with_each_channel(r: int, g: int, b: int, d: int)
    requires
        0 <= r <= 255,
        0 <= g <= 255,
        0 <= b <= 255,
        0 <= d,
    ensures
        r + d <= 255 ==> abs(256 * (luma_of(r + d, g, b) - luma_of(r, g, b)) - 66 * d) < 256,
        g + d <= 255 ==> abs(256 * (luma_of(r, g + d, b) - luma_of(r, g, b)) - 129 * d) < 256,
        b + d <= 255 ==> abs(256 * (luma_of(r, g, b + d) - luma_of(r, g, b)) - 25 * d) < 256,
        d <= 255 ==> luma_of(0, 0, d) <= luma_of(d, 0, 0) <= luma_of(0, d, 0),
        d <= 255 ==> abs(255 * (luma_of(d, d, d) - 16) - 219 * d) < 255,
        luma_of(0, 0, 0) == 16,
        luma_of(255, 255, 255) == 235,
{
}

/// The sum of channel `c` over the two pixels of a row above chroma sample `x`.
pub open spec fn pair_sum(row: Seq<u8>, x: int, c: int) -> int {
    row[4 * (2 * x) + c] + row[4 * (2 * x + 1) + c]
}

proof fn lemma_chroma(r: int, g: int, b: int)
    requires
        0 <= r <= 1020,
        0 <= g <= 1020,
        0 <= b <= 1020,
    ensures
        ({
            let u = clip3(16, 240, raw_cb(r, g, b)) - 128;
            let v = clip3(16, 240, raw_cr(r, g, b)) - 128;
            &&& 1024 * u - 512 <= 112 * b - 38 * r - 74 * g < 1024 * u + 512
            &&& 1024 * v - 512 <= 112 * r - 94 * g - 18 * b < 1024 * v + 512
            &&& abs(4 * 225_930 * u - 112 * (886 * b - 299 * r - 587 * g)) < 4 * 225_930
            &&& abs(4 * 178_755 * v - 112 * (701 * r - 587 * g - 114 * b)) < 4 * 178_755
        }),
{
    law_block_clamps_never_fire(r, g, b);
    let u = raw_cb(r, g, b) - 128;
    let v = raw_cr(r, g, b) - 128;
    assert(1024 * u - 512 <= 112 * b - 38 * r - 74 * g < 1024 * u + 512);
    assert(1024 * v - 512 <= 112 * r - 94 * g - 18 * b < 1024 * v + 512);
    assert(903_720 * u - 112 * (886 * b - 299 * r - 587 * g) < 903_720);
    assert(903_720 * u - 112 * (886 * b - 299 * r - 587 * g) > -903_720);
    assert(715_020 * v - 112 * (701 * r - 587 * g - 114 * b) < 715_020);
    assert(715_020 * v - 112 * (701 * r - 587 * g - 114 * b) > -715_020);
}

/// Each chroma sample is the nearest integer to the weighted mean of the two pixels above
/// it and the two below it, in 256ths: Cb takes blue by 112, red by -38 and green by -74,
/// Cr takes red by 112, green by -94 and blue by -18, round a neutral 128. Both lie less
/// than one level from what BT.601 defines, the differences of blue and of red from luma,
/// scaled to 112 either way.
pub proof fn law_chroma_is_bt601(top: &[u8], bottom: &[u8], cb: &mut [u8], cr: &mut [u8], x: int)
    requires
        old(cb)@.len() == old(cr)@.len(),
        top@.len() >= 8 * old(cb)@.len(),
        bottom@.len() >= 8 * old(cb)@.len(),
        call_ensures(chroma_row_pair, (top, bottom, cb, cr), ()) || call_ensures(
            chroma_row_pair_scalar,
            (top, bottom, cb, cr),
            (),
        ),
        0 <= x < old(cb)@.len(),
    ensures
        ({
            let r = pair_sum(top@, x, 0) + pair_sum(bottom@, x, 0);
            let g = pair_sum(top@, x, 1) + pair_sum(bottom@, x, 1);
            let b = pair_sum(top@, x, 2) + pair_sum(bottom@, x, 2);
            let u: int = final(cb)@[x] - 128;
            let v: int = final(cr)@[x] - 128;
            &&& 1024 * u - 512 <= 112 * b - 38 * r - 74 * g < 1024 * u + 512
            &&& 1024 * v - 512 <= 112 * r - 94 * g - 18 * b < 1024 * v + 512
            &&& abs(4 * 225_930 * u - 112 * (886 * b - 299 * r - 587 * g)) < 4 * 225_930
            &&& abs(4 * 178_755 * v - 112 * (701 * r - 587 * g - 114 * b)) < 4 * 178_755
        }),
        final(cb)@.len() == old(cb)@.len(),
        final(cr)@.len() == old(cr)@.len(),
{
    lemma_chroma(
        block_sum(top@, bottom@, x, 0),
        block_sum(top@, bottom@, x, 1),
        block_sum(top@, bottom@, x, 2),
    );
    assert(forall|c: int| #[trigger]
        block_sum(top@, bottom@, x, c) == pair_sum(top@, x, c) + pair_sum(bottom@, x, c));
    assert(final(cb)@[x] == cb_of(top@, bottom@, x));
    assert(final(cr)@[x] == cr_of(top@, bottom@, x));
}

/// Grey has no colour: a block whose channels have equal sums gets neutral chroma.
pub proof fn law_grey_is_neutral(top: Seq<u8>, bottom: Seq<u8>, x: int)
    requires
        pair_sum(top, x, 0) + pair_sum(bottom, x, 0) == pair_sum(top, x, 1) + pair_sum(bottom, x, 1),
        pair_sum(top, x, 1) + pair_sum(bottom, x, 1) == pair_sum(top, x, 2) + pair_sum(bottom, x, 2),
    ensures
        cb_of(top, bottom, x) == 128,
        cr_of(top, bottom, x) == 128,
{
}

} // verus!
