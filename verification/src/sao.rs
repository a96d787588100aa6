//! The sample-adaptive offset: its parameters and the filter itself.
use vstd::prelude::*;
use crate::cabac::clip3;
use crate::intra::is_samples;
use crate::recon_simd::edge_category;

verus! {

/// The largest magnitude of an offset at 8-bit depth.
pub const SAO_OFFSET_MAX: i32 = 7;

/// The offsets of one component of one coding tree block.
#[derive(Clone, Copy, Debug, PartialEq, Eq)]
pub struct ResolvedSaoComponent {
    /// 0: none, 1: by band, 2: by edge.
    pub sao_type_idx: u8,
    /// The offset of each edge category, or of each of the four bands, from 1 on.
    pub offset_val: [i32; 5],
    /// The first of the four bands.
    pub band_position: u8,
    /// The direction of the edge: horizontal, vertical, and the two diagonals.
    pub eo_class: u8,
}

/// The offsets of one coding tree block: luma, Cb and Cr.
#[derive(Clone, Copy, Debug, PartialEq, Eq)]
pub struct ResolvedSao {
    pub components: [ResolvedSaoComponent; 3],
}

/// The mathematical value of a component.
pub struct SaoModel {
    pub kind: int,
    pub offsets: Seq<i32>,
    pub band: int,
    pub class: int,
}

/// The mathematical value of a block.
pub struct SaoCell {
    pub luma: SaoModel,
    pub cb: SaoModel,
    pub cr: SaoModel,
}

/// No offsets.
pub open spec fn sao_off() -> SaoModel {
    SaoModel { kind: 0, offsets: seq![0i32, 0, 0, 0, 0], band: 0, class: 0 }
}

impl View for ResolvedSaoComponent {
    type V = SaoModel;

    open spec fn view(&self) -> SaoModel {
        SaoModel {
            kind: self.sao_type_idx as int,
            offsets: self.offset_val@,
            band: self.band_position as int,
            class: self.eo_class as int,
        }
    }
}

impl View for ResolvedSao {
    type V = SaoCell;

    open spec fn view(&self) -> SaoCell {
        SaoCell { luma: self.components@[0]@, cb: self.components@[1]@, cr: self.components@[2]@ }
    }
}

impl SaoModel {
    /// The parameters are ones that can be signalled.
    pub open spec fn wf(self) -> bool {
        &&& 0 <= self.kind <= 2
        &&& 0 <= self.band < 32
        &&& 0 <= self.class < 4
        &&& self.offsets.len() == 5
        &&& self.offsets[0] == 0
        &&& forall|i: int| 0 <= i < 5 ==> -SAO_OFFSET_MAX <= #[trigger] self.offsets[i] <= SAO_OFFSET_MAX
    }
}

impl SaoCell {
    /// All three components can be signalled, and the two chroma components share
    /// their type and their edge class.
    pub open spec fn wf(self) -> bool {
        &&& self.luma.wf()
        &&& self.cb.wf()
        &&& self.cr.wf()
        &&& self.cb.kind == self.cr.kind
        &&& self.cb.class == self.cr.class
    }

    /// Component `c`.
    pub open spec fn component(self, c: int) -> SaoModel {
        if c == 0 {
            self.luma
        } else if c == 1 {
            self.cb
        } else {
            self.cr
        }
    }
}

/// The parameters of every block of a picture.
pub open spec fn cells(grid: Seq<ResolvedSao>) -> Seq<SaoCell> {
    Seq::new(grid.len(), |i: int| grid[i]@)
}

impl ResolvedSaoComponent {
    /// No offsets.
    pub fn off() -> (c: Self)
        ensures
            c@ == sao_off(),
    {
        let c: ResolvedSaoComponent = ResolvedSaoComponent {
            sao_type_idx: 0,
            offset_val: [0, 0, 0, 0, 0],
            band_position: 0,
            eo_class: 0,
        };
        assert(c.offset_val@ =~= seq![0i32, 0, 0, 0, 0]);
        c
    }

    /// Whether two components are the same.
    pub fn same(&self, other: &Self) -> (b: bool)
        ensures
            b == (self@ == other@),
    {
        let mut i: usize = 0;
        let mut equal: bool = true;
        while i < 5
            invariant
                i <= 5,
                equal == (forall|j: int| 0 <= j < i ==> self.offset_val@[j] == other.offset_val@[j]),
            decreases 5 - i,
        {
            if self.offset_val[i] != other.offset_val[i] {
                equal = false;
            }
            i = i + 1;
        }
        let b: bool = equal && self.sao_type_idx == other.sao_type_idx && self.band_position == other.band_position
            && self.eo_class == other.eo_class;
        proof {
            if equal {
                assert(self.offset_val@ =~= other.offset_val@);
            }
        }
        b
    }
}

impl ResolvedSao {
    /// No offsets in any component.
    pub fn off() -> (c: Self)
        ensures
            c@ == (SaoCell { luma: sao_off(), cb: sao_off(), cr: sao_off() }),
    {
        ResolvedSao {
            components: [ResolvedSaoComponent::off(), ResolvedSaoComponent::off(), ResolvedSaoComponent::off()],
        }
    }

    /// Whether two blocks have the same offsets.
    pub fn same(&self, other: &Self) -> (b: bool)
        ensures
            b == (self@ == other@),
    {
        self.components[0].same(&other.components[0]) && self.components[1].same(&other.components[1])
            && self.components[2].same(&other.components[2])
    }
}

/// The two neighbours of an edge class: the columns and rows to add.
pub open spec fn eo_offsets(class: int) -> (int, int, int, int) {
    if class == 0 {
        (-1, 0, 1, 0)
    } else if class == 1 {
        (0, -1, 0, 1)
    } else if class == 2 {
        (-1, -1, 1, 1)
    } else {
        (1, -1, -1, 1)
    }
}

/// The two neighbours of an edge class, as `(h0, v0, h1, v1)`.
pub fn eo_pos(eo_class: u8) -> (r: (i32, i32, i32, i32))
    ensures
        (r.0 as int, r.1 as int, r.2 as int, r.3 as int) == eo_offsets(eo_class as int),
{
    if eo_class == 0 {
        (-1, 0, 1, 0)
    } else if eo_class == 1 {
        (0, -1, 0, 1)
    } else if eo_class == 2 {
        (-1, -1, 1, 1)
    } else {
        (1, -1, -1, 1)
    }
}

/// A position lies inside a plane.
pub open spec fn inside(w: int, h: int, x: int, y: int) -> bool {
    0 <= x < w && 0 <= y < h
}

/// The edge category of a sample under a class; 0 where a neighbour lies outside.
pub open spec fn category_at(s: Seq<i32>, w: int, h: int, class: int, x: int, y: int) -> int {
    let o = eo_offsets(class);
    if inside(w, h, x + o.0, y + o.1) && inside(w, h, x + o.2, y + o.3) {
        edge_category(
            s[y * w + x] as int,
            s[(y + o.1) * w + (x + o.0)] as int,
            s[(y + o.3) * w + (x + o.2)] as int,
        )
    } else {
        0
    }
}

/// Which of the four offset bands a sample lies in, from 1 on; 0 for none.
pub open spec fn band_index(sample: int, first: int) -> int {
    let k = (sample / 8 - first) % 32;
    if k < 4 {
        k + 1
    } else {
        0
    }
}

/// A sample after the offsets of its block have been added.
pub open spec fn sao_sample(s: Seq<i32>, w: int, h: int, m: SaoModel, x: int, y: int) -> int {
    let here = s[y * w + x] as int;
    if m.kind == 2 {
        clip3(0, 255, here + m.offsets[category_at(s, w, h, m.class, x, y)])
    } else if m.kind == 1 {
        clip3(0, 255, here + m.offsets[band_index(here, m.band)])
    } else {
        here
    }
}

/// A plane after the offsets of component `c` have been added. `unit` is the side of
/// a block in the plane, `columns` the number of blocks in a row.
pub open spec fn sao_plane(s: Seq<i32>, w: int, h: int, c: int, unit: int, columns: int, grid: Seq<SaoCell>) -> Seq<i32> {
    Seq::new(
        (w * h) as nat,
        |i: int|
            sao_sample(s, w, h, grid[(i / w / unit) * columns + (i % w) / unit].component(c), i % w, i / w) as i32,
    )
}

fn sample_at(s: &Vec<i32>, w: usize, h: usize, x: usize, y: usize) -> (v: i32)
    requires
        s@.len() == w * h,
        is_samples(s@),
        x < w,
        y < h,
    ensures
        v == s@[y * w + x],
        0 <= v <= 255,
{
    let len: usize = s.len();
    proof {
        crate::arith::lemma_grid(y as int, x as int, w as int, h as int);
        assert(0 <= y * w) by (nonlinear_arith)
            requires
                y >= 0,
                w >= 0,
        ;
    }
    assert(y * w + x < len);
    assert(0 <= s@[y * w + x] <= 255);
    s[y * w + x]
}

fn edge_category_of(here: i32, a: i32, b: i32) -> (c: usize)
    ensures
        c == edge_category(here as int, a as int, b as int),
        c <= 4,
{
    let up: i32 = if here < a {
        -1
    } else if here > a {
        1
    } else {
        0
    };
    let down: i32 = if here < b {
        -1
    } else if here > b {
        1
    } else {
        0
    };
    let e: i32 = up + down;
    if e == -2 {
        1
    } else if e == -1 {
        2
    } else if e == 1 {
        3
    } else if e == 2 {
        4
    } else {
        0
    }
}

/// Adds the offsets of a block to one sample.
fn offset_sample(s: &Vec<i32>, w: usize, h: usize, c: &ResolvedSaoComponent, x: usize, y: usize) -> (v: i32)
    requires
        s@.len() == w * h,
        is_samples(s@),
        x < w,
        y < h,
        w <= 0x4000_0000,
        h <= 0x4000_0000,
        c@.wf(),
    ensures
        v == sao_sample(s@, w as int, h as int, c@, x as int, y as int),
        0 <= v <= 255,
{
    let here: i32 = sample_at(s, w, h, x, y);
    let index: usize = if c.sao_type_idx == 2 {
        let (h0, v0, h1, v1): (i32, i32, i32, i32) = eo_pos(c.eo_class);
        let ax: i32 = x as i32 + h0;
        let ay: i32 = y as i32 + v0;
        let bx: i32 = x as i32 + h1;
        let by: i32 = y as i32 + v1;
        if ax >= 0 && ay >= 0 && bx >= 0 && by >= 0 && (ax as usize) < w && (bx as usize) < w && (ay as usize) < h && (
        by as usize) < h {
            let a: i32 = sample_at(s, w, h, ax as usize, ay as usize);
            let b: i32 = sample_at(s, w, h, bx as usize, by as usize);
            edge_category_of(here, a, b)
        } else {
            0
        }
    } else if c.sao_type_idx == 1 {
        let k: usize = ((here / 8) as usize + 32 - c.band_position as usize) % 32;
        assert(k == (here as int / 8 - c.band_position as int) % 32);
        if k < 4 {
            k + 1
        } else {
            0
        }
    } else {
        return here;
    };
    let offset: i32 = c.offset_val[index];
    assert(-7 <= c@.offsets[index as int] <= 7);
    let moved: i32 = here + offset;
    if moved < 0 {
        0
    } else if moved > 255 {
        255
    } else {
        moved
    }
}

/// Adds the offsets of every block to one plane.
pub fn apply_sao_plane(
    s: &Vec<i32>,
    w: usize,
    h: usize,
    c: usize,
    unit: usize,
    columns: usize,
    grid: &Vec<ResolvedSao>,
) -> (out: Vec<i32>)
    requires
        s@.len() == w * h,
        is_samples(s@),
        0 < w <= 0x4000_0000,
        0 < h <= 0x4000_0000,
        c < 3,
        unit == 8 || unit == 16,
        columns * unit >= w,
        grid@.len() >= columns * ((h + unit - 1) / (unit as int)),
        forall|i: int| 0 <= i < grid@.len() ==> (#[trigger] grid@[i])@.wf(),
    ensures
        out@ == sao_plane(s@, w as int, h as int, c as int, unit as int, columns as int, cells(grid@)),
        out@.len() == s@.len(),
        is_samples(out@),
{
    let ghost goal = sao_plane(s@, w as int, h as int, c as int, unit as int, columns as int, cells(grid@));
    let cells_len: usize = grid.len();
    let mut out: Vec<i32> = Vec::new();
    let mut y: usize = 0;
    while y < h
        invariant
            y <= h,
            s@.len() == w * h,
            is_samples(s@),
            0 < w <= 0x4000_0000,
            0 < h <= 0x4000_0000,
            c < 3,
            unit == 8 || unit == 16,
            columns * unit >= w,
            cells_len == grid@.len(),
            grid@.len() >= columns * ((h + unit - 1) / (unit as int)),
            forall|i: int| 0 <= i < grid@.len() ==> (#[trigger] grid@[i])@.wf(),
            goal == sao_plane(s@, w as int, h as int, c as int, unit as int, columns as int, cells(grid@)),
            out@.len() == y * w,
            is_samples(out@),
            forall|i: int| 0 <= i < out@.len() ==> #[trigger] out@[i] == goal[i],
        decreases h - y,
    {
        let mut x: usize = 0;
        while x < w
            invariant
                x <= w,
                y < h,
                s@.len() == w * h,
                is_samples(s@),
                0 < w <= 0x4000_0000,
                0 < h <= 0x4000_0000,
                c < 3,
                unit == 8 || unit == 16,
                columns * unit >= w,
                cells_len == grid@.len(),
                grid@.len() >= columns * ((h + unit - 1) / (unit as int)),
                forall|i: int| 0 <= i < grid@.len() ==> (#[trigger] grid@[i])@.wf(),
                goal == sao_plane(s@, w as int, h as int, c as int, unit as int, columns as int, cells(grid@)),
                out@.len() == y * w + x,
                is_samples(out@),
                forall|i: int| 0 <= i < out@.len() ==> #[trigger] out@[i] == goal[i],
            decreases w - x,
        {
            let row: usize = y / unit;
            let column: usize = x / unit;
            proof {
                crate::arith::lemma_grid(y as int, x as int, w as int, h as int);
                let rows = (h + unit - 1) / (unit as int);
                if unit == 8 {
                    assert(columns * unit == columns * 8);
                    assert(rows == (h + 7) / 8 && column == x as int / 8 && row == y as int / 8);
                    assert(column < columns && row < rows);
                } else {
                    assert(columns * unit == columns * 16);
                    assert(rows == (h + 15) / 16 && column == x as int / 16 && row == y as int / 16);
                    assert(column < columns && row < rows);
                }
                crate::arith::lemma_grid(row as int, column as int, columns as int, rows);
                assert(0 <= row * columns) by (nonlinear_arith)
                    requires
                        row >= 0,
                        columns >= 0,
                ;
            }
            assert(row * columns + column < cells_len);
            let component: ResolvedSaoComponent = grid[row * columns + column].components[c];
            assert(grid@[row * columns + column]@.wf());
            assert(component@ == cells(grid@)[row * columns + column].component(c as int));
            let v: i32 = offset_sample(s, w, h, &component, x, y);
            assert(goal[y * w + x] == v);
            out.push(v);
            x = x + 1;
        }
        proof {
            assert((y + 1) * w == y * w + w) by (nonlinear_arith);
        }
        y = y + 1;
    }
    proof {
        assert(h * w == w * h) by (nonlinear_arith);
        assert(out@ =~= goal);
    }
    out
}

} // verus!
