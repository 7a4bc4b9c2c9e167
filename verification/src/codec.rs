//! The codec: the precomputed XY lookup table — for each voxel column
//! `(x, y)` the records saying at which rotation angle the column is
//! struck, at which quantised height, and which LED lights up — together
//! with the encoder that routes a voxel surface through the table into
//! per-angle scan lines and the decoder that walks an angle map back into
//! lit slots.
//!
//! The geometric computation that produces the lookup records works on
//! floating point coordinates and therefore lives with the host; this
//! module builds and owns the table and guarantees its ordering invariants.
use vstd::prelude::*;

verus! {

use crate::{TOTAL_ANGLES, W_PIXELS};
use vstd::pervasive::VecAdditionalExecFns;

/// Location of one lit LED: panel index, scan-line address on the panel,
/// and horizontal pixel slot within the scan line.
#[derive(Debug, Copy, Clone, PartialEq, Eq)]
pub struct ScreenPixel {
    /// Which of the three panels, `0..3`.
    pub idx: usize,
    /// Scan-line address on the panel, `0..64`.
    pub addr: u32,
    /// Horizontal pixel slot within the scan line, `0..64`.
    pub pixel: u32,
}

/// Precomputed record for one voxel column: at rotation angle `angle` the
/// column is struck at quantised height index `pixel`, lighting the LED
/// described by `screen_pixel`.
#[derive(Debug, Copy, Clone, PartialEq, Eq)]
pub struct PixelZInfo {
    /// Rotation angle index, `0..TOTAL_ANGLES`.
    pub angle: u32,
    /// Quantised height index of the struck point, `0..64`.
    pub pixel: u32,
    /// The LED lit when the slice passes the panel.
    pub screen_pixel: ScreenPixel,
}

/// Number of voxel columns in the 64 x 64 grid.
pub const GRID_CELLS: usize = 4096;

/// Validity of a single lookup record: every index lies on the grid the
/// hardware can address.
pub open spec fn z_info_wf(z: PixelZInfo) -> bool {
    &&& (z.angle as int) < TOTAL_ANGLES as int
    &&& (z.pixel as int) < W_PIXELS as int
    &&& (z.screen_pixel.idx as int) < 3
    &&& (z.screen_pixel.addr as int) < W_PIXELS as int
    &&& (z.screen_pixel.pixel as int) < W_PIXELS as int
}

/// Validity of one input entry handed to [`Codec::new`]: the column lies on
/// the grid and the record is valid.
pub open spec fn entry_wf(e: ((u32, u32), PixelZInfo)) -> bool {
    &&& (e.0.0 as int) < W_PIXELS as int
    &&& (e.0.1 as int) < W_PIXELS as int
    &&& z_info_wf(e.1)
}

/// Index of column `(x, y)` in the dense column table.
pub open spec fn col_idx(x: int, y: int) -> int {
    x * 64 + y
}

/// A column's records sorted ascending by quantised height index, all valid.
pub open spec fn col_wf(col: Seq<PixelZInfo>) -> bool {
    &&& forall|i: int, j: int|
        0 <= i <= j < col.len() ==> (#[trigger] col[i]).pixel <= (#[trigger] col[j]).pixel
    &&& forall|i: int| 0 <= i < col.len() ==> z_info_wf(#[trigger] col[i])
}

/// Well-formedness of the whole lookup table.
pub open spec fn map_wf(cv: Seq<Seq<PixelZInfo>>) -> bool {
    &&& cv.len() == GRID_CELLS as int
    &&& forall|c: int| 0 <= c < cv.len() ==> col_wf(#[trigger] cv[c])
}

/// Insert a record into a column already sorted by `pixel`, keeping the sort
/// and placing the record after every record with the same key (so records
/// keep their insertion order among equal heights).
pub open spec fn insert_by_pixel(col: Seq<PixelZInfo>, z: PixelZInfo) -> Seq<PixelZInfo>
    decreases col.len(),
{
    if col.len() == 0 {
        seq![z]
    } else if z.pixel < col.last().pixel {
        insert_by_pixel(col.drop_last(), z).push(col.last())
    } else {
        col.push(z)
    }
}

/// The lookup table that a sequence of entries builds: each entry is placed
/// into its column by [`insert_by_pixel`], in input order.
pub open spec fn build_map(entries: Seq<((u32, u32), PixelZInfo)>) -> Seq<Seq<PixelZInfo>>
    decreases entries.len(),
{
    if entries.len() == 0 {
        Seq::new(GRID_CELLS as nat, |i: int| Seq::<PixelZInfo>::empty())
    } else {
        let prev = build_map(entries.drop_last());
        let e = entries.last();
        let c = col_idx(e.0.0 as int, e.0.1 as int);
        prev.update(c, insert_by_pixel(prev[c], e.1))
    }
}

/// The codec: owns the immutable XY lookup table built at construction.
pub struct Codec {
    pub(crate) xy_map: Vec<Vec<PixelZInfo>>,
}

impl View for Codec {
    type V = Seq<Seq<PixelZInfo>>;

    /// The table as a sequence of 4096 columns (index `x * 64 + y`), each a
    /// sequence of records sorted by quantised height.
    closed spec fn view(&self) -> Seq<Seq<PixelZInfo>> {
        Seq::new(self.xy_map@.len(), |i: int| self.xy_map@[i]@)
    }
}

/// `insert_by_pixel` places the new record exactly at position `j` when
/// everything from `j` on is strictly taller and everything before `j` is
/// not.
proof fn lemma_insert_by_pixel_at(col: Seq<PixelZInfo>, z: PixelZInfo, j: int)
    requires
        0 <= j <= col.len(),
        forall|k: int| j <= k < col.len() ==> (#[trigger] col[k]).pixel > z.pixel,
        j > 0 ==> col[j - 1].pixel <= z.pixel,
    ensures
        insert_by_pixel(col, z) == col.insert(j, z),
    decreases col.len(),
{
    if col.len() == 0 {
        assert(insert_by_pixel(col, z) =~= col.insert(0, z));
    } else if z.pixel < col.last().pixel {
        assert(j < col.len());
        lemma_insert_by_pixel_at(col.drop_last(), z, j);
        assert(insert_by_pixel(col.drop_last(), z).push(col.last()) =~= col.insert(j, z));
    } else {
        assert(j == col.len()) by {
            if j < col.len() {
                assert(col[col.len() - 1].pixel > z.pixel);
            }
        }
        assert(col.push(z) =~= col.insert(j, z));
    }
}

/// Inserting a valid record into a well-formed column keeps it well-formed,
/// grows it by one, and adds no record other than the inserted one.
proof fn lemma_insert_by_pixel_wf(col: Seq<PixelZInfo>, z: PixelZInfo)
    requires
        col_wf(col),
        z_info_wf(z),
    ensures
        col_wf(insert_by_pixel(col, z)),
        insert_by_pixel(col, z).len() == col.len() + 1,
        forall|i: int|
            0 <= i < insert_by_pixel(col, z).len() ==> (#[trigger] insert_by_pixel(col, z)[i] == z
                || col.contains(insert_by_pixel(col, z)[i])),
    decreases col.len(),
{
    let res = insert_by_pixel(col, z);
    if col.len() == 0 {
    } else if z.pixel < col.last().pixel {
        let sub = col.drop_last();
        assert(col_wf(sub));
        lemma_insert_by_pixel_wf(sub, z);
        let ins = insert_by_pixel(sub, z);
        assert forall|i: int, j: int| 0 <= i <= j < res.len() implies (#[trigger] res[i]).pixel <= (
        #[trigger] res[j]).pixel by {
            if j == res.len() - 1 && i < j {
                if ins[i] == z {
                } else {
                    assert(sub.contains(ins[i]));
                    let k = choose|k: int| 0 <= k < sub.len() && sub[k] == ins[i];
                    assert(col[k].pixel <= col[col.len() - 1].pixel);
                }
            }
        }
        assert forall|i: int| 0 <= i < res.len() implies (#[trigger] res[i] == z || col.contains(
            res[i],
        )) by {
            if i == res.len() - 1 {
                assert(res[i] == col[col.len() - 1]);
            } else if ins[i] != z {
                assert(sub.contains(ins[i]));
                let k = choose|k: int| 0 <= k < sub.len() && sub[k] == ins[i];
                assert(col[k] == res[i]);
            }
        }
    } else {
        assert forall|i: int, j: int| 0 <= i <= j < res.len() implies (#[trigger] res[i]).pixel <= (
        #[trigger] res[j]).pixel by {
            if j == res.len() - 1 && i < j {
                assert(col[i].pixel <= col[col.len() - 1].pixel);
            }
        }
        assert forall|i: int| 0 <= i < res.len() implies (#[trigger] res[i] == z || col.contains(
            res[i],
        )) by {
            if i < res.len() - 1 {
                assert(col[i] == res[i]);
            }
        }
    }
}

impl Codec {
    /// The table is well formed: 4096 columns, each sorted ascending by
    /// quantised height with every index on the hardware grid.
    pub open spec fn wf(&self) -> bool {
        map_wf(self@)
    }

    /// Builds the codec's lookup table from precomputed records.
    ///
    /// Each entry `((x, y), info)` is inserted into column `(x, y)`, kept
    /// sorted ascending by the quantised height index `info.pixel`; entries
    /// of equal height stay in input order.
    pub fn new(entries: &Vec<((u32, u32), PixelZInfo)>) -> (codec: Codec)
        requires
            forall|i: int| 0 <= i < entries@.len() ==> entry_wf(#[trigger] entries@[i]),
        ensures
            codec@ == build_map(entries@),
            codec.wf(),
    {
        let mut xy_map: Vec<Vec<PixelZInfo>> = Vec::new();
        let mut c: usize = 0;
        while c < GRID_CELLS
            invariant
                c <= GRID_CELLS,
                xy_map@.len() == c as int,
                forall|k: int| 0 <= k < c as int ==> (#[trigger] xy_map@[k])@.len() == 0,
            decreases GRID_CELLS - c,
        {
            xy_map.push(Vec::new());
            c += 1;
        }
        let ghost empty_map = build_map(Seq::<((u32, u32), PixelZInfo)>::empty());
        proof {
            assert(Seq::new(xy_map@.len(), |i: int| xy_map@[i]@) =~~= empty_map);
        }
        let mut i: usize = 0;
        while i < entries.len()
            invariant
                i <= entries@.len(),
                forall|k: int| 0 <= k < entries@.len() ==> entry_wf(#[trigger] entries@[k]),
                xy_map@.len() == GRID_CELLS as int,
                Seq::new(xy_map@.len(), |n: int| xy_map@[n]@) == build_map(
                    entries@.take(i as int),
                ),
                map_wf(Seq::new(xy_map@.len(), |n: int| xy_map@[n]@)),
            decreases entries@.len() - i,
        {
            let ghost pre = Seq::new(xy_map@.len(), |n: int| xy_map@[n]@);
            let (xy, z) = entries[i];
            let cell: usize = (xy.0 as usize) * 64 + (xy.1 as usize);
            assert(entry_wf(entries@[i as int]));
            let mut col: Vec<PixelZInfo> = Vec::new();
            xy_map.set_and_swap(cell, &mut col);
            assert(col@ == pre[cell as int]);
            assert(col_wf(col@));
            let mut j: usize = col.len();
            while j > 0 && col[j - 1].pixel > z.pixel
                invariant
                    j <= col@.len(),
                    col_wf(col@),
                    forall|k: int| j as int <= k < col@.len() ==> (#[trigger] col@[k]).pixel
                        > z.pixel,
                decreases j,
            {
                j -= 1;
            }
            proof {
                lemma_insert_by_pixel_at(col@, z, j as int);
                lemma_insert_by_pixel_wf(col@, z);
            }
            col.insert(j, z);
            xy_map.set_and_swap(cell, &mut col);
            proof {
                let post = Seq::new(xy_map@.len(), |n: int| xy_map@[n]@);
                assert(entries@.take(i as int + 1).drop_last() =~= entries@.take(i as int));
                assert(entries@.take(i as int + 1).last() == entries@[i as int]);
                assert(post =~= pre.update(cell as int, insert_by_pixel(pre[cell as int], z)));
                assert(post == build_map(entries@.take(i as int + 1)));
            }
            i += 1;
        }
        proof {
            assert(entries@.take(entries@.len() as int) =~= entries@);
        }
        Codec { xy_map }
    }
}

use crate::angle_map::{
    AngleMap,
    ScreenLine,
    ScreenLineV,
    angle_map_wf,
    apply_offset,
    apply_offset_exec,
    line_v_wf,
};
use crate::PixelSurface;

/// Binary search over the half-open index range `[left, right)` of a column
/// sorted by height index: the index of a record with height `z` when one
/// exists (the one the bisection probes first), and the insertion index of
/// `z` otherwise.
pub open spec fn bin_search(col: Seq<PixelZInfo>, z: u32, left: int, right: int) -> int
    decreases right - left,
{
    if left >= right {
        left
    } else {
        let mid = left + (right - left) / 2;
        if col[mid].pixel < z {
            bin_search(col, z, mid + 1, right)
        } else if col[mid].pixel > z {
            bin_search(col, z, left, mid)
        } else {
            mid
        }
    }
}

/// On a sorted column, the search lands between its bracketing neighbours:
/// everything before the result is at most `z` and everything from the
/// result on is at least `z`.
proof fn lemma_bin_search_char(col: Seq<PixelZInfo>, z: u32, left: int, right: int)
    requires
        col_wf(col),
        0 <= left <= right <= col.len(),
        forall|k: int| 0 <= k < left ==> (#[trigger] col[k]).pixel < z,
        forall|k: int| right <= k < col.len() ==> (#[trigger] col[k]).pixel > z,
    ensures
        left <= bin_search(col, z, left, right) <= right,
        bin_search(col, z, left, right) < col.len() ==> col[bin_search(col, z, left, right)].pixel
            >= z,
        bin_search(col, z, left, right) > 0 ==> col[bin_search(col, z, left, right) - 1].pixel
            <= z,
    decreases right - left,
{
    if left < right {
        let mid = left + (right - left) / 2;
        if col[mid].pixel < z {
            assert forall|k: int| 0 <= k < mid + 1 implies (#[trigger] col[k]).pixel < z by {
                if k >= left {
                    assert(col[k].pixel <= col[mid].pixel);
                }
            }
            lemma_bin_search_char(col, z, mid + 1, right);
        } else if col[mid].pixel > z {
            assert forall|k: int| mid <= k < col.len() implies (#[trigger] col[k]).pixel > z by {
                if k < right {
                    assert(col[mid].pixel <= col[k].pixel);
                }
            }
            lemma_bin_search_char(col, z, left, mid);
        }
    }
}

/// The column entry the encoder picks for a requested height index `z`: an
/// exact match when one exists, else the nearer of the two records around
/// the insertion index, ties going to the taller one.
pub open spec fn chosen_idx(col: Seq<PixelZInfo>, z: u32) -> int {
    let i = bin_search(col, z, 0, col.len() as int);
    if i < col.len() && col[i].pixel == z {
        i
    } else if i == 0 {
        0
    } else if i == col.len() {
        i - 1
    } else if 2 * (z as int) < col[i - 1].pixel + col[i].pixel {
        i - 1
    } else {
        i
    }
}

/// The record the encoder picks for height index `z` in a column.
pub open spec fn chosen(col: Seq<PixelZInfo>, z: u32) -> PixelZInfo {
    col[chosen_idx(col, z)]
}

/// The lookup record that decides where a voxel is emitted.
pub open spec fn voxel_info(cv: Seq<Seq<PixelZInfo>>, v: (u32, u32, (u32, u32))) -> PixelZInfo {
    chosen(cv[col_idx(v.0 as int, v.1 as int)], v.2.0)
}

/// The voxel is emitted into scan line `(s, d)` of angle `a`.
pub open spec fn targets_line(
    cv: Seq<Seq<PixelZInfo>>,
    v: (u32, u32, (u32, u32)),
    a: int,
    s: int,
    d: int,
) -> bool {
    let e = voxel_info(cv, v);
    &&& e.angle as int == a
    &&& e.screen_pixel.idx as int == s
    &&& e.screen_pixel.addr as int == d
}

/// The voxel is emitted into pixel slot `p` of scan line `(s, d)` of angle
/// `a`.
pub open spec fn targets_slot(
    cv: Seq<Seq<PixelZInfo>>,
    v: (u32, u32, (u32, u32)),
    a: int,
    s: int,
    d: int,
    p: int,
) -> bool {
    &&& targets_line(cv, v, a, s, d)
    &&& voxel_info(cv, v).screen_pixel.pixel as int == p
}

/// The colour of the last voxel in the surface that writes pixel slot `p` of
/// scan line `(s, d)` at angle `a`, or `None` when no voxel writes it
/// (last write wins).
pub open spec fn last_write(
    cv: Seq<Seq<PixelZInfo>>,
    surf: Seq<(u32, u32, (u32, u32))>,
    a: int,
    s: int,
    d: int,
    p: int,
) -> Option<u32>
    decreases surf.len(),
{
    if surf.len() == 0 {
        None
    } else if targets_slot(cv, surf.last(), a, s, d, p) {
        Some(surf.last().2.1)
    } else {
        last_write(cv, surf.drop_last(), a, s, d, p)
    }
}

/// Some voxel of the surface is emitted into scan line `(s, d)` at angle
/// `a`, so the encoder emits a record for that line.
pub open spec fn line_present(
    cv: Seq<Seq<PixelZInfo>>,
    surf: Seq<(u32, u32, (u32, u32))>,
    a: int,
    s: int,
    d: int,
) -> bool
    decreases surf.len(),
{
    if surf.len() == 0 {
        false
    } else {
        targets_line(cv, surf.last(), a, s, d) || line_present(cv, surf.drop_last(), a, s, d)
    }
}

/// A scan line that no voxel writes has every slot dark.
proof fn lemma_no_line_no_write(
    cv: Seq<Seq<PixelZInfo>>,
    surf: Seq<(u32, u32, (u32, u32))>,
    a: int,
    s: int,
    d: int,
    p: int,
)
    requires
        !line_present(cv, surf, a, s, d),
    ensures
        last_write(cv, surf, a, s, d, p) is None,
    decreases surf.len(),
{
    if surf.len() > 0 {
        lemma_no_line_no_write(cv, surf.drop_last(), a, s, d, p);
    }
}

/// The 64 pixel slots accumulated for scan line `(s, d)` at angle `a`,
/// before the pixel offset is applied.
pub open spec fn raw_pixels(
    cv: Seq<Seq<PixelZInfo>>,
    surf: Seq<(u32, u32, (u32, u32))>,
    a: int,
    s: int,
    d: int,
) -> Seq<Option<u32>> {
    Seq::new(W_PIXELS as nat, |p: int| last_write(cv, surf, a, s, d, p))
}

/// The scan lines emitted for angle `a`, restricted to the line positions
/// below `k` (a position is `s * 64 + d`): the present lines in ascending
/// `(screen_idx, addr)` order, each with the pixel offset applied.
pub open spec fn emit_lines(
    cv: Seq<Seq<PixelZInfo>>,
    surf: Seq<(u32, u32, (u32, u32))>,
    off: int,
    a: int,
    k: int,
) -> Seq<ScreenLineV>
    decreases k,
{
    if k <= 0 {
        Seq::empty()
    } else {
        let prev = emit_lines(cv, surf, off, a, k - 1);
        let s = (k - 1) / 64;
        let d = (k - 1) % 64;
        if line_present(cv, surf, a, s, d) {
            prev.push(
                ScreenLineV {
                    screen_idx: s,
                    addr: d,
                    pixels: apply_offset(raw_pixels(cv, surf, a, s, d), off),
                },
            )
        } else {
            prev
        }
    }
}

/// Every line emitted for an angle is valid.
proof fn lemma_emit_lines_wf(
    cv: Seq<Seq<PixelZInfo>>,
    surf: Seq<(u32, u32, (u32, u32))>,
    off: int,
    a: int,
    k: int,
)
    requires
        0 <= k <= 192,
    ensures
        forall|j: int|
            0 <= j < emit_lines(cv, surf, off, a, k).len() ==> line_v_wf(
                #[trigger] emit_lines(cv, surf, off, a, k)[j],
            ),
    decreases k,
{
    if k > 0 {
        lemma_emit_lines_wf(cv, surf, off, a, k - 1);
        let s = (k - 1) / 64;
        let d = (k - 1) % 64;
        vstd::arithmetic::div_mod::lemma_fundamental_div_mod(k - 1, 64);
        vstd::arithmetic::div_mod::lemma_mod_bound(k - 1, 64);
        assert(0 <= s < 3 && 0 <= d < 64);
        let cur = emit_lines(cv, surf, off, a, k);
        let prev = emit_lines(cv, surf, off, a, k - 1);
        assert forall|j: int| 0 <= j < cur.len() implies line_v_wf(#[trigger] cur[j]) by {
            if line_present(cv, surf, a, s, d) {
                let l = ScreenLineV {
                    screen_idx: s,
                    addr: d,
                    pixels: apply_offset(raw_pixels(cv, surf, a, s, d), off),
                };
                assert(cur == prev.push(l));
                if j < prev.len() {
                    assert(cur[j] == prev[j]);
                    assert(line_v_wf(prev[j]));
                } else {
                    assert(cur[j] == l);
                    assert(line_v_wf(l));
                }
            } else {
                assert(cur == prev);
                assert(line_v_wf(prev[j]));
            }
        }
    }
}

/// What [`Codec::encode`] produces: for each angle the present scan lines in
/// ascending `(screen_idx, addr)` order, each slot holding the colour of the
/// last voxel that wrote it, shifted by the pixel offset.
pub open spec fn encode_spec(
    cv: Seq<Seq<PixelZInfo>>,
    surf: Seq<(u32, u32, (u32, u32))>,
    off: int,
) -> Seq<Seq<ScreenLineV>> {
    Seq::new(TOTAL_ANGLES as nat, |a: int| emit_lines(cv, surf, off, a, 192))
}

/// A surface the encoder accepts: every voxel on the 64 x 64 grid, with a
/// non-empty lookup column (a voxel whose column is empty would be a bug in
/// the table the codec was built from).
pub open spec fn surface_ok(cv: Seq<Seq<PixelZInfo>>, surf: Seq<(u32, u32, (u32, u32))>) -> bool {
    forall|i: int|
        0 <= i < surf.len() ==> {
            let v = #[trigger] surf[i];
            &&& (v.0 as int) < W_PIXELS as int
            &&& (v.1 as int) < W_PIXELS as int
            &&& cv[col_idx(v.0 as int, v.1 as int)].len() > 0
        }
}

/// Flat index of scan line `(s, d)` of angle `a` in the accumulator.
spec fn acc_idx_of(a: int, s: int, d: int) -> int {
    a * 192 + s * 64 + d
}

/// One accumulator cell is faithful to the surface processed so far:
/// allocated exactly when some voxel wrote the line, and then holding the
/// last written colour of every slot.
spec fn acc_line_ok(
    cv: Seq<Seq<PixelZInfo>>,
    surf: Seq<(u32, u32, (u32, u32))>,
    cell: Option<Vec<Option<u32>>>,
    a: int,
    s: int,
    d: int,
) -> bool {
    match cell {
        Some(l) => {
            &&& line_present(cv, surf, a, s, d)
            &&& l@.len() == W_PIXELS as int
            &&& forall|p: int|
                0 <= p < W_PIXELS as int ==> l@[p] == last_write(cv, surf, a, s, d, p)
        },
        None => !line_present(cv, surf, a, s, d),
    }
}

/// A scan line with all 64 slots dark.
fn empty_line() -> (r: Vec<Option<u32>>)
    ensures
        r@.len() == W_PIXELS as int,
        forall|p: int| 0 <= p < W_PIXELS as int ==> r@[p] is None,
{
    let mut r: Vec<Option<u32>> = Vec::new();
    let mut p: usize = 0;
    while p < W_PIXELS
        invariant
            p <= W_PIXELS,
            r@.len() == p as int,
            forall|q: int| 0 <= q < p as int ==> r@[q] is None,
        decreases W_PIXELS - p,
    {
        r.push(None);
        p += 1;
    }
    r
}

/// Binary search over `[left, right)` of a sorted column, mirroring
/// [`bin_search`].
fn bin_search_idx(col: &Vec<PixelZInfo>, z: u32, left: usize, right: usize) -> (r: usize)
    requires
        left <= right <= col@.len(),
    ensures
        r as int == bin_search(col@, z, left as int, right as int),
    decreases right - left,
{
    if left >= right {
        left
    } else {
        let mid = left + (right - left) / 2;
        let p = col[mid].pixel;
        if p < z {
            bin_search_idx(col, z, mid + 1, right)
        } else if p > z {
            bin_search_idx(col, z, left, mid)
        } else {
            mid
        }
    }
}

/// Finds [`chosen_idx`] in a sorted non-empty column: the entry nearest to
/// the requested height, ties to the higher index.
fn chosen_index(col: &Vec<PixelZInfo>, z: u32) -> (r: usize)
    requires
        col_wf(col@),
        col@.len() > 0,
    ensures
        r as int == chosen_idx(col@, z),
        r < col@.len(),
{
    let lb = bin_search_idx(col, z, 0, col.len());
    proof {
        lemma_bin_search_char(col@, z, 0, col@.len() as int);
    }
    if lb < col.len() && col[lb].pixel == z {
        lb
    } else if lb == 0 {
        0
    } else if lb == col.len() {
        lb - 1
    } else {
        let left = col[lb - 1].pixel;
        let right = col[lb].pixel;
        if (z as u64) * 2 < left as u64 + right as u64 {
            lb - 1
        } else {
            lb
        }
    }
}

impl Codec {
    /// Encodes a voxel surface: every voxel is routed through the lookup
    /// table to the nearest achievable height at some angle, accumulated
    /// into per-angle scan lines (last write to a slot wins), and every
    /// emitted line is shifted horizontally by `pixel_offset`.
    ///
    /// The output is fully determined by the lookup table, the surface and
    /// the offset; lines of an angle come sorted ascending by
    /// `(screen_idx, addr)`.
    pub fn encode(&self, pixel_surface: &PixelSurface, pixel_offset: i32) -> (am: AngleMap)
        requires
            self.wf(),
            surface_ok(self@, pixel_surface@),
            -63 <= pixel_offset <= 63,
        ensures
            am@ == encode_spec(self@, pixel_surface@, pixel_offset as int),
            angle_map_wf(am@),
    {
        let ghost cv = self@;
        let ghost surfv = pixel_surface@;
        let acc_len: usize = TOTAL_ANGLES * 192;
        let mut acc: Vec<Option<Vec<Option<u32>>>> = Vec::new();
        let mut n: usize = 0;
        while n < acc_len
            invariant
                n <= acc_len,
                acc@.len() == n as int,
                forall|k: int| 0 <= k < n as int ==> (#[trigger] acc@[k]) is None,
            decreases acc_len - n,
        {
            acc.push(None);
            n += 1;
        }
        proof {
            assert(surfv.take(0) =~= Seq::<(u32, u32, (u32, u32))>::empty());
        }
        let mut i: usize = 0;
        while i < pixel_surface.len()
            invariant
                self.wf(),
                cv == self@,
                surfv == pixel_surface@,
                surface_ok(cv, surfv),
                i <= surfv.len(),
                acc@.len() == TOTAL_ANGLES as int * 192,
                forall|a: int, s: int, d: int|
                    0 <= a < TOTAL_ANGLES as int && 0 <= s < 3 && 0 <= d < W_PIXELS as int
                        ==> #[trigger] acc_line_ok(
                        cv,
                        surfv.take(i as int),
                        acc@[acc_idx_of(a, s, d)],
                        a,
                        s,
                        d,
                    ),
            decreases surfv.len() - i,
        {
            let (x, y, zc) = pixel_surface[i];
            let (z, color) = zc;
            let cell: usize = (x as usize) * 64 + (y as usize);
            let col: &Vec<PixelZInfo> = &self.xy_map[cell];
            proof {
                assert(cv[cell as int] == col@);
                assert(col_wf(col@));
            }
            let ci = chosen_index(col, z);
            let e = col[ci];
            proof {
                assert(z_info_wf(e));
                assert(e == voxel_info(cv, surfv[i as int]));
            }
            let a_t: usize = e.angle as usize;
            let s_t: usize = e.screen_pixel.idx;
            let d_t: usize = e.screen_pixel.addr as usize;
            let p_t: usize = e.screen_pixel.pixel as usize;
            let acc_i: usize = a_t * 192 + s_t * 64 + d_t;
            let ghost pre_acc = acc@;
            let mut cell_opt: Option<Vec<Option<u32>>> = None;
            acc.set_and_swap(acc_i, &mut cell_opt);
            let ghost old_cell = pre_acc[acc_i as int];
            proof {
                assert(acc_i as int == acc_idx_of(a_t as int, s_t as int, d_t as int));
                assert(acc_line_ok(
                    cv,
                    surfv.take(i as int),
                    old_cell,
                    a_t as int,
                    s_t as int,
                    d_t as int,
                ));
            }
            let mut line: Vec<Option<u32>> = match cell_opt {
                Some(l) => l,
                None => empty_line(),
            };
            assert(line@.len() == W_PIXELS as int);
            line.set(p_t, Some(color));
            let mut put_back: Option<Vec<Option<u32>>> = Some(line);
            acc.set_and_swap(acc_i, &mut put_back);
            proof {
                let pre = surfv.take(i as int);
                let post = surfv.take(i as int + 1);
                assert(post.drop_last() =~= pre);
                assert(post.last() == surfv[i as int]);
                assert(targets_slot(cv, surfv[i as int], a_t as int, s_t as int, d_t as int,
                    p_t as int));
                assert forall|a2: int, s2: int, d2: int|
                    0 <= a2 < TOTAL_ANGLES as int && 0 <= s2 < 3 && 0 <= d2 < W_PIXELS as int
                        implies #[trigger] acc_line_ok(
                    cv,
                    post,
                    acc@[acc_idx_of(a2, s2, d2)],
                    a2,
                    s2,
                    d2,
                ) by {
                    assert(acc_line_ok(cv, pre, pre_acc[acc_idx_of(a2, s2, d2)], a2, s2, d2));
                    if acc_idx_of(a2, s2, d2) == acc_i as int {
                        assert(a2 == a_t as int && s2 == s_t as int && d2 == d_t as int);
                        assert forall|p: int| 0 <= p < W_PIXELS as int implies line@[p]
                            == last_write(cv, post, a2, s2, d2, p) by {
                            if p == p_t as int {
                            } else {
                                assert(!targets_slot(cv, surfv[i as int], a2, s2, d2, p));
                                if old_cell is None {
                                    lemma_no_line_no_write(cv, pre, a2, s2, d2, p);
                                }
                            }
                        }
                    } else {
                        assert(acc@[acc_idx_of(a2, s2, d2)] == pre_acc[acc_idx_of(a2, s2, d2)]);
                        assert(!targets_line(cv, surfv[i as int], a2, s2, d2));
                    }
                }
            }
            i += 1;
        }
        proof {
            assert(surfv.take(surfv.len() as int) =~= surfv);
        }
        let offi = pixel_offset;
        let mut angles: Vec<Vec<ScreenLine>> = Vec::new();
        let mut a: usize = 0;
        while a < TOTAL_ANGLES
            invariant
                a <= TOTAL_ANGLES,
                angles@.len() == a as int,
                acc@.len() == TOTAL_ANGLES as int * 192,
                offi == pixel_offset,
                cv == self@,
                surfv == pixel_surface@,
                forall|a2: int, s2: int, d2: int|
                    0 <= a2 < TOTAL_ANGLES as int && 0 <= s2 < 3 && 0 <= d2 < W_PIXELS as int
                        ==> #[trigger] acc_line_ok(cv, surfv, acc@[acc_idx_of(a2, s2, d2)], a2, s2,
                    d2),
                forall|b: int|
                    0 <= b < a as int ==> (#[trigger] angles@[b]).deep_view() == emit_lines(
                        cv,
                        surfv,
                        offi as int,
                        b,
                        192,
                    ),
            decreases TOTAL_ANGLES - a,
        {
            let mut lines: Vec<ScreenLine> = Vec::new();
            let mut k: usize = 0;
            while k < 192
                invariant
                    k <= 192,
                    a < TOTAL_ANGLES,
                    acc@.len() == TOTAL_ANGLES as int * 192,
                    offi == pixel_offset,
                    cv == self@,
                    surfv == pixel_surface@,
                    forall|a2: int, s2: int, d2: int|
                        0 <= a2 < TOTAL_ANGLES as int && 0 <= s2 < 3 && 0 <= d2 < W_PIXELS as int
                            ==> #[trigger] acc_line_ok(cv, surfv, acc@[acc_idx_of(a2, s2, d2)], a2,
                        s2, d2),
                    lines.deep_view() == emit_lines(cv, surfv, offi as int, a as int, k as int),
                decreases 192 - k,
            {
                let idx: usize = a * 192 + k;
                let ghost s2 = k as int / 64;
                let ghost d2 = k as int % 64;
                proof {
                    assert(k as int == s2 * 64 + d2 && 0 <= s2 < 3 && 0 <= d2 < 64) by {
                        vstd::arithmetic::div_mod::lemma_fundamental_div_mod(k as int, 64);
                        vstd::arithmetic::div_mod::lemma_mod_bound(k as int, 64);
                    }
                    assert(idx as int == acc_idx_of(a as int, s2, d2));
                    assert(acc_line_ok(cv, surfv, acc@[acc_idx_of(a as int, s2, d2)], a as int,
                        s2, d2));
                }
                match &acc[idx] {
                    Some(line) => {
                        let pixels = apply_offset_exec(line, offi);
                        let sl = ScreenLine { screen_idx: k / 64, addr: (k % 64) as u32, pixels };
                        let ghost pre_lines = lines.deep_view();
                        lines.push(sl);
                        proof {
                            assert(line@ =~= raw_pixels(cv, surfv, a as int, s2, d2));
                            assert(sl@ == ScreenLineV {
                                screen_idx: s2,
                                addr: d2,
                                pixels: apply_offset(
                                    raw_pixels(cv, surfv, a as int, s2, d2),
                                    offi as int,
                                ),
                            });
                            assert(lines.deep_view() =~= pre_lines.push(sl@));
                            assert(lines.deep_view() =~= emit_lines(
                                cv,
                                surfv,
                                offi as int,
                                a as int,
                                k as int + 1,
                            ));
                        }
                    },
                    None => {
                        proof {
                            assert(!line_present(cv, surfv, a as int, s2, d2));
                            assert(lines.deep_view() =~= emit_lines(
                                cv,
                                surfv,
                                offi as int,
                                a as int,
                                k as int + 1,
                            ));
                        }
                    },
                }
                k += 1;
            }
            let ghost pre_angles = angles@;
            angles.push(lines);
            a += 1;
        }
        let am = AngleMap { angles };
        proof {
            assert(am@ =~= encode_spec(cv, surfv, pixel_offset as int));
            assert forall|a2: int, j: int|
                0 <= a2 < am@.len() && 0 <= j < am@[a2].len() implies line_v_wf(
                #[trigger] am@[a2][j],
            ) by {
                lemma_emit_lines_wf(cv, surfv, pixel_offset as int, a2, 192);
            }
        }
        am
    }
}

/// Column of the table an input entry belongs to.
pub open spec fn entry_col(e: ((u32, u32), PixelZInfo)) -> int {
    col_idx(e.0.0 as int, e.0.1 as int)
}

/// The entries of one column carry at most one record per angle.
pub open spec fn col_angles_distinct(col: Seq<PixelZInfo>) -> bool {
    forall|i: int, j: int|
        0 <= i < j < col.len() ==> (#[trigger] col[i]).angle != (#[trigger] col[j]).angle
}

/// The input entries destined for column `c` carry at most one record per
/// angle.
pub open spec fn entries_angles_distinct(entries: Seq<((u32, u32), PixelZInfo)>, c: int) -> bool {
    forall|i: int, j: int|
        0 <= i < j < entries.len() && entry_col(#[trigger] entries[i]) == c && entry_col(
            #[trigger] entries[j],
        ) == c ==> entries[i].1.angle != entries[j].1.angle
}

/// The built table always has one column per grid cell.
proof fn lemma_build_map_len(entries: Seq<((u32, u32), PixelZInfo)>)
    requires
        forall|i: int| 0 <= i < entries.len() ==> entry_wf(#[trigger] entries[i]),
    ensures
        build_map(entries).len() == GRID_CELLS as int,
    decreases entries.len(),
{
    if entries.len() > 0 {
        assert(forall|i: int|
            0 <= i < entries.drop_last().len() ==> entry_wf(#[trigger] entries.drop_last()[i]));
        lemma_build_map_len(entries.drop_last());
        assert(entry_wf(entries.last()));
        assert(0 <= entry_col(entries.last()) < GRID_CELLS as int);
    }
}

/// Inserting a record grows the column by one and adds no record other than
/// the inserted one.
proof fn lemma_insert_by_pixel_membership(col: Seq<PixelZInfo>, z: PixelZInfo)
    ensures
        insert_by_pixel(col, z).len() == col.len() + 1,
        forall|i: int|
            0 <= i < insert_by_pixel(col, z).len() ==> (#[trigger] insert_by_pixel(col, z)[i] == z
                || col.contains(insert_by_pixel(col, z)[i])),
    decreases col.len(),
{
    let res = insert_by_pixel(col, z);
    if col.len() == 0 {
    } else if z.pixel < col.last().pixel {
        let sub = col.drop_last();
        lemma_insert_by_pixel_membership(sub, z);
        let ins = insert_by_pixel(sub, z);
        assert forall|i: int| 0 <= i < res.len() implies (#[trigger] res[i] == z || col.contains(
            res[i],
        )) by {
            if i == res.len() - 1 {
                assert(res[i] == col[col.len() - 1]);
            } else if ins[i] != z {
                assert(sub.contains(ins[i]));
                let k = choose|k: int| 0 <= k < sub.len() && sub[k] == ins[i];
                assert(col[k] == res[i]);
            }
        }
    } else {
        assert forall|i: int| 0 <= i < res.len() implies (#[trigger] res[i] == z || col.contains(
            res[i],
        )) by {
            if i < res.len() - 1 {
                assert(col[i] == res[i]);
            }
        }
    }
}

/// Inserting a record whose angle is new to the column keeps the column's
/// angles distinct.
proof fn lemma_insert_by_pixel_distinct(col: Seq<PixelZInfo>, z: PixelZInfo)
    requires
        col_angles_distinct(col),
        forall|k: int| 0 <= k < col.len() ==> (#[trigger] col[k]).angle != z.angle,
    ensures
        col_angles_distinct(insert_by_pixel(col, z)),
    decreases col.len(),
{
    let res = insert_by_pixel(col, z);
    if col.len() == 0 {
    } else if z.pixel < col.last().pixel {
        let sub = col.drop_last();
        let last = col.last();
        lemma_insert_by_pixel_distinct(sub, z);
        lemma_insert_by_pixel_membership(sub, z);
        let ins = insert_by_pixel(sub, z);
        assert forall|i: int, j: int| 0 <= i < j < res.len() implies (#[trigger] res[i]).angle != (
        #[trigger] res[j]).angle by {
            if j == res.len() - 1 {
                assert(res[j] == last);
                assert(res[i] == ins[i]);
                if ins[i] == z {
                    assert(col[col.len() - 1].angle != z.angle);
                } else {
                    assert(sub.contains(ins[i]));
                    let k = choose|k: int| 0 <= k < sub.len() && sub[k] == ins[i];
                    assert(col[k].angle != col[col.len() - 1].angle);
                }
            }
        }
    } else {
        assert forall|i: int, j: int| 0 <= i < j < res.len() implies (#[trigger] res[i]).angle != (
        #[trigger] res[j]).angle by {
            if j == res.len() - 1 {
                assert(res[j] == z);
                assert(col[i].angle != z.angle);
            }
        }
    }
}

/// Record `k` of column `c` of the built table came from one of the input
/// entries destined for that column.
spec fn col_record_from_entries(entries: Seq<((u32, u32), PixelZInfo)>, c: int, k: int) -> bool {
    exists|m: int|
        0 <= m < entries.len() && entry_col(#[trigger] entries[m]) == c && entries[m].1
            == build_map(entries)[c][k]
}

/// Every record of a built column came from an input entry of that column,
/// and a column whose input entries carry distinct angles is itself
/// angle-distinct.
proof fn lemma_build_map_distinct_rec(entries: Seq<((u32, u32), PixelZInfo)>, c: int)
    requires
        0 <= c < GRID_CELLS as int,
        forall|i: int| 0 <= i < entries.len() ==> entry_wf(#[trigger] entries[i]),
        entries_angles_distinct(entries, c),
    ensures
        col_angles_distinct(build_map(entries)[c]),
        forall|k: int|
            0 <= k < build_map(entries)[c].len() ==> #[trigger] col_record_from_entries(
                entries,
                c,
                k,
            ),
    decreases entries.len(),
{
    let col = build_map(entries)[c];
    if entries.len() == 0 {
        assert(col =~= Seq::<PixelZInfo>::empty());
    } else {
        let sub = entries.drop_last();
        let e = entries.last();
        let prev = build_map(sub)[c];
        assert(forall|i: int| 0 <= i < sub.len() ==> #[trigger] sub[i] == entries[i]);
        assert(entries_angles_distinct(sub, c));
        lemma_build_map_distinct_rec(sub, c);
        lemma_build_map_len(sub);
        assert(entry_wf(e));
        assert(0 <= entry_col(e) < GRID_CELLS as int);
        if entry_col(e) == c {
            assert(col == insert_by_pixel(prev, e.1));
            assert forall|k: int| 0 <= k < prev.len() implies (#[trigger] prev[k]).angle
                != e.1.angle by {
                assert(col_record_from_entries(sub, c, k));
                let m = choose|m: int|
                    0 <= m < sub.len() && entry_col(#[trigger] sub[m]) == c && sub[m].1
                        == build_map(sub)[c][k];
                assert(entries[m] == sub[m]);
                assert(entries[m].1.angle != entries[entries.len() - 1].1.angle);
            }
            lemma_insert_by_pixel_distinct(prev, e.1);
            lemma_insert_by_pixel_membership(prev, e.1);
        } else {
            assert(col == prev);
        }
        assert forall|k: int| 0 <= k < build_map(entries)[c].len() implies
            #[trigger] col_record_from_entries(entries, c, k) by {
            assert(build_map(entries)[c] == col);
            if entry_col(e) == c && col[k] == e.1 {
                assert(0 <= entries.len() - 1 < entries.len() && entry_col(
                    #[trigger] entries[entries.len() - 1],
                ) == c && entries[entries.len() - 1].1 == build_map(entries)[c][k]);
            } else {
                if entry_col(e) == c {
                    assert(col[k] != e.1);
                    assert(prev.contains(col[k]));
                    let k2 = choose|k2: int| 0 <= k2 < prev.len() && prev[k2] == col[k];
                    assert(col_record_from_entries(sub, c, k2));
                    let m = choose|m: int|
                        0 <= m < sub.len() && entry_col(#[trigger] sub[m]) == c && sub[m].1
                            == build_map(sub)[c][k2];
                    assert(entries[m] == sub[m]);
                    assert(0 <= m < entries.len() && entry_col(entries[m]) == c && entries[m].1
                        == build_map(entries)[c][k]);
                } else {
                    assert(col_record_from_entries(sub, c, k));
                    let m = choose|m: int|
                        0 <= m < sub.len() && entry_col(#[trigger] sub[m]) == c && sub[m].1
                            == build_map(sub)[c][k];
                    assert(entries[m] == sub[m]);
                    assert(0 <= m < entries.len() && entry_col(entries[m]) == c && entries[m].1
                        == build_map(entries)[c][k]);
                }
            }
        }
    }
}

/// Columns hold at most one record per angle: when the entries handed to
/// [`Codec::new`] carry at most one record per angle for a column, so does
/// the built column. Together with [`Codec::wf`] — which says every column
/// is sorted ascending by quantised height with every index on the hardware
/// grid — this is the lookup table's full invariant.
pub proof fn lemma_column_angles_distinct(entries: Seq<((u32, u32), PixelZInfo)>, c: int)
    requires
        0 <= c < GRID_CELLS as int,
        forall|i: int| 0 <= i < entries.len() ==> entry_wf(#[trigger] entries[i]),
        entries_angles_distinct(entries, c),
    ensures
        col_angles_distinct(build_map(entries)[c]),
{
    lemma_build_map_distinct_rec(entries, c);
}

/// The target slot of a voxel: the angle, panel, scan-line address and
/// pixel slot its chosen lookup record points at.
pub open spec fn voxel_slot(cv: Seq<Seq<PixelZInfo>>, v: (u32, u32, (u32, u32))) -> (
    int,
    int,
    int,
    int,
) {
    let e = voxel_info(cv, v);
    (e.angle as int, e.screen_pixel.idx as int, e.screen_pixel.addr as int,
    e.screen_pixel.pixel as int)
}

/// The encoder's chosen index always lies inside a non-empty column.
proof fn lemma_chosen_idx_in_range(col: Seq<PixelZInfo>, z: u32)
    requires
        col_wf(col),
        col.len() > 0,
    ensures
        0 <= chosen_idx(col, z) < col.len(),
{
    lemma_bin_search_char(col, z, 0, col.len() as int);
}

/// A voxel that targets a line makes that line present.
proof fn lemma_target_present(
    cv: Seq<Seq<PixelZInfo>>,
    surf: Seq<(u32, u32, (u32, u32))>,
    i: int,
    a: int,
    s: int,
    d: int,
)
    requires
        0 <= i < surf.len(),
        targets_line(cv, surf[i], a, s, d),
    ensures
        line_present(cv, surf, a, s, d),
    decreases surf.len(),
{
    if i < surf.len() - 1 {
        assert(surf.drop_last()[i] == surf[i]);
        lemma_target_present(cv, surf.drop_last(), i, a, s, d);
    }
}

/// The last voxel to write a slot decides its colour.
proof fn lemma_last_writer(
    cv: Seq<Seq<PixelZInfo>>,
    surf: Seq<(u32, u32, (u32, u32))>,
    i: int,
    a: int,
    s: int,
    d: int,
    p: int,
)
    requires
        0 <= i < surf.len(),
        targets_slot(cv, surf[i], a, s, d, p),
        forall|j: int| i < j < surf.len() ==> !targets_slot(cv, #[trigger] surf[j], a, s, d, p),
    ensures
        last_write(cv, surf, a, s, d, p) == Some(surf[i].2.1),
    decreases surf.len(),
{
    if i < surf.len() - 1 {
        assert(!targets_slot(cv, surf[surf.len() - 1], a, s, d, p));
        assert(forall|j: int|
            i < j < surf.drop_last().len() ==> !targets_slot(
                cv,
                #[trigger] surf.drop_last()[j],
                a,
                s,
                d,
                p,
            ));
        lemma_last_writer(cv, surf.drop_last(), i, a, s, d, p);
    }
}

/// A present line appears among the emitted lines of its angle.
proof fn lemma_emit_contains(
    cv: Seq<Seq<PixelZInfo>>,
    surf: Seq<(u32, u32, (u32, u32))>,
    off: int,
    a: int,
    k: int,
    s: int,
    d: int,
)
    requires
        0 <= s < 3,
        0 <= d < 64,
        s * 64 + d < k <= 192,
        line_present(cv, surf, a, s, d),
    ensures
        (exists|j: int|
            0 <= j < emit_lines(cv, surf, off, a, k).len() && #[trigger] emit_lines(
                cv,
                surf,
                off,
                a,
                k,
            )[j] == (ScreenLineV {
                screen_idx: s,
                addr: d,
                pixels: apply_offset(raw_pixels(cv, surf, a, s, d), off),
            })),
    decreases k,
{
    let cur = emit_lines(cv, surf, off, a, k);
    let prev = emit_lines(cv, surf, off, a, k - 1);
    if k - 1 == s * 64 + d {
        vstd::arithmetic::div_mod::lemma_fundamental_div_mod_converse(k - 1, 64, s, d);
        assert(cur == prev.push(
            ScreenLineV {
                screen_idx: s,
                addr: d,
                pixels: apply_offset(raw_pixels(cv, surf, a, s, d), off),
            },
        ));
        assert(cur[cur.len() - 1] == ScreenLineV {
            screen_idx: s,
            addr: d,
            pixels: apply_offset(raw_pixels(cv, surf, a, s, d), off),
        });
    } else {
        lemma_emit_contains(cv, surf, off, a, k - 1, s, d);
        let j = choose|j: int|
            0 <= j < prev.len() && #[trigger] prev[j] == ScreenLineV {
                screen_idx: s,
                addr: d,
                pixels: apply_offset(raw_pixels(cv, surf, a, s, d), off),
            };
        assert(cur[j] == prev[j]);
    }
}

/// The emitted lines of an angle come in strictly ascending
/// `(screen_idx, addr)` order; in particular no line position repeats.
pub proof fn lemma_emit_lines_sorted(
    cv: Seq<Seq<PixelZInfo>>,
    surf: Seq<(u32, u32, (u32, u32))>,
    off: int,
    a: int,
    k: int,
)
    requires
        0 <= k <= 192,
    ensures
        forall|j: int|
            0 <= j < emit_lines(cv, surf, off, a, k).len() ==> (#[trigger] emit_lines(
                cv,
                surf,
                off,
                a,
                k,
            )[j]).screen_idx * 64 + emit_lines(cv, surf, off, a, k)[j].addr < k,
        forall|j1: int, j2: int|
            0 <= j1 < j2 < emit_lines(cv, surf, off, a, k).len() ==> (#[trigger] emit_lines(
                cv,
                surf,
                off,
                a,
                k,
            )[j1]).screen_idx * 64 + emit_lines(cv, surf, off, a, k)[j1].addr < (
            #[trigger] emit_lines(cv, surf, off, a, k)[j2]).screen_idx * 64 + emit_lines(
                cv,
                surf,
                off,
                a,
                k,
            )[j2].addr,
    decreases k,
{
    if k > 0 {
        lemma_emit_lines_sorted(cv, surf, off, a, k - 1);
        let s = (k - 1) / 64;
        let d = (k - 1) % 64;
        vstd::arithmetic::div_mod::lemma_fundamental_div_mod(k - 1, 64);
        vstd::arithmetic::div_mod::lemma_mod_bound(k - 1, 64);
        let cur = emit_lines(cv, surf, off, a, k);
        let prev = emit_lines(cv, surf, off, a, k - 1);
        if line_present(cv, surf, a, s, d) {
            assert(forall|j: int| 0 <= j < prev.len() ==> cur[j] == prev[j]);
            assert(cur[cur.len() - 1].screen_idx * 64 + cur[cur.len() - 1].addr == k - 1);
        }
    }
}

/// Every voxel of the surface is visible in the encoder's output when
/// nothing later overwrites its slot: with a zero pixel offset, the angle
/// map emitted for the voxel's angle holds a line for the voxel's panel and
/// scan-line address whose target slot carries the voxel's colour.
/// Together with [`lemma_emit_lines_sorted`] that line is the only one for
/// its `(screen_idx, addr)` position.
pub proof fn lemma_encode_writes_voxel(
    cv: Seq<Seq<PixelZInfo>>,
    surf: Seq<(u32, u32, (u32, u32))>,
    i: int,
)
    requires
        map_wf(cv),
        surface_ok(cv, surf),
        0 <= i < surf.len(),
        forall|j: int| i < j < surf.len() ==> voxel_slot(cv, #[trigger] surf[j]) != voxel_slot(
            cv,
            surf[i],
        ),
    ensures
        ({
            let (a, s, d, p) = voxel_slot(cv, surf[i]);
            exists|j: int|
                0 <= j < encode_spec(cv, surf, 0)[a].len() && {
                    let l = #[trigger] encode_spec(cv, surf, 0)[a][j];
                    &&& l.screen_idx == s
                    &&& l.addr == d
                    &&& l.pixels[p] == Some(surf[i].2.1)
                }
        }),
{
    let v = surf[i];
    let col = cv[col_idx(v.0 as int, v.1 as int)];
    lemma_chosen_idx_in_range(col, v.2.0);
    let e = voxel_info(cv, v);
    assert(z_info_wf(e));
    let (a, s, d, p) = voxel_slot(cv, v);
    assert(targets_slot(cv, v, a, s, d, p));
    assert forall|j: int| i < j < surf.len() implies !targets_slot(
        cv,
        #[trigger] surf[j],
        a,
        s,
        d,
        p,
    ) by {
        if targets_slot(cv, surf[j], a, s, d, p) {
            assert(voxel_slot(cv, surf[j]) == voxel_slot(cv, surf[i]));
        }
    }
    lemma_target_present(cv, surf, i, a, s, d);
    lemma_last_writer(cv, surf, i, a, s, d, p);
    lemma_emit_contains(cv, surf, 0, a, 192, s, d);
    crate::angle_map::lemma_offset_zero(raw_pixels(cv, surf, a, s, d));
    assert(encode_spec(cv, surf, 0)[a] == emit_lines(cv, surf, 0, a, 192));
    let lines = encode_spec(cv, surf, 0)[a];
    let j = choose|j: int|
        0 <= j < emit_lines(cv, surf, 0, a, 192).len() && #[trigger] emit_lines(cv, surf, 0, a, 192)[j]
            == ScreenLineV {
            screen_idx: s,
            addr: d,
            pixels: apply_offset(raw_pixels(cv, surf, a, s, d), 0),
        };
    assert(lines[j].pixels == raw_pixels(cv, surf, a, s, d));
    assert(lines[j].pixels[p] == last_write(cv, surf, a, s, d, p));
}

/// Encoding is deterministic: two codecs built from the same entries encode
/// any surface, at any offset, to the same angle map.
pub proof fn lemma_encode_deterministic(
    entries: Seq<((u32, u32), PixelZInfo)>,
    c1: &Codec,
    c2: &Codec,
    surf: Seq<(u32, u32, (u32, u32))>,
    off: int,
)
    requires
        c1@ == build_map(entries),
        c2@ == build_map(entries),
    ensures
        encode_spec(c1@, surf, off) == encode_spec(c2@, surf, off),
{
}

/// One lit pixel slot recovered from an angle map: the rotation angle, the
/// panel, the scan-line address and the slot index. The host turns each into
/// a floating-point 3D point by re-running the angle's geometry.
#[derive(Debug, Copy, Clone, PartialEq, Eq)]
pub struct DecodedPixel {
    /// Rotation angle index, `0..TOTAL_ANGLES`.
    pub angle: u32,
    /// Which of the three panels, `0..3`.
    pub screen_idx: usize,
    /// Scan-line address on the panel, `0..64`.
    pub addr: u32,
    /// Pixel slot index along the scan line, `0..64`.
    pub pixel_z: u32,
}

/// The lit slots of one scan line, restricted to slot indices below `k`, in
/// ascending slot order.
pub open spec fn slots_of_line(a: int, l: ScreenLineV, k: int) -> Seq<DecodedPixel>
    decreases k,
{
    if k <= 0 {
        Seq::empty()
    } else {
        let prev = slots_of_line(a, l, k - 1);
        if l.pixels[k - 1] is Some {
            prev.push(
                DecodedPixel {
                    angle: a as u32,
                    screen_idx: l.screen_idx as usize,
                    addr: l.addr as u32,
                    pixel_z: (k - 1) as u32,
                },
            )
        } else {
            prev
        }
    }
}

/// The lit slots of a sequence of scan lines, in line order.
pub open spec fn slots_of_lines(a: int, ls: Seq<ScreenLineV>) -> Seq<DecodedPixel>
    decreases ls.len(),
{
    if ls.len() == 0 {
        Seq::empty()
    } else {
        slots_of_lines(a, ls.drop_last()) + slots_of_line(a, ls.last(), W_PIXELS as int)
    }
}

/// The lit slots of the first `a` angles of an angle map, in angle order.
pub open spec fn decode_spec_upto(amv: Seq<Seq<ScreenLineV>>, a: int) -> Seq<DecodedPixel>
    decreases a,
{
    if a <= 0 {
        Seq::empty()
    } else {
        decode_spec_upto(amv, a - 1) + slots_of_lines(a - 1, amv[a - 1])
    }
}

/// What [`Codec::decode`] produces: every lit slot of the angle map, in
/// ascending angle, line and slot order.
pub open spec fn decode_spec(amv: Seq<Seq<ScreenLineV>>) -> Seq<DecodedPixel> {
    decode_spec_upto(amv, TOTAL_ANGLES as int)
}

impl Codec {
    /// Walks an angle map and returns every lit pixel slot, in ascending
    /// angle, line and slot order. Reconstructing the floating-point points
    /// from these slots is the host's geometric step.
    pub fn decode(&self, angle_map: &AngleMap) -> (pts: Vec<DecodedPixel>)
        requires
            angle_map_wf(angle_map@),
        ensures
            pts@ == decode_spec(angle_map@),
    {
        let ghost amv = angle_map@;
        let mut pts: Vec<DecodedPixel> = Vec::new();
        let mut a: usize = 0;
        while a < TOTAL_ANGLES
            invariant
                a <= TOTAL_ANGLES,
                amv == angle_map@,
                angle_map_wf(amv),
                pts@ == decode_spec_upto(amv, a as int),
            decreases TOTAL_ANGLES - a,
        {
            let lines: &Vec<ScreenLine> = &angle_map.angles[a];
            proof {
                assert(lines.deep_view() == amv[a as int]);
            }
            let ghost lsv = lines.deep_view();
            let mut j: usize = 0;
            while j < lines.len()
                invariant
                    j <= lsv.len(),
                    a < TOTAL_ANGLES,
                    amv == angle_map@,
                    angle_map_wf(amv),
                    lsv == lines.deep_view(),
                    lsv == amv[a as int],
                    lsv.len() == lines@.len(),
                    pts@ == decode_spec_upto(amv, a as int) + slots_of_lines(
                        a as int,
                        lsv.take(j as int),
                    ),
                decreases lsv.len() - j,
            {
                let sl: &ScreenLine = &lines[j];
                proof {
                    assert(sl@ == lsv[j as int]);
                    assert(line_v_wf(lsv[j as int]));
                }
                let mut k: usize = 0;
                while k < W_PIXELS
                    invariant
                        k <= W_PIXELS,
                        j < lsv.len(),
                        a < TOTAL_ANGLES,
                        sl@ == lsv[j as int],
                        sl.pixels@.len() == W_PIXELS as int,
                        amv == angle_map@,
                        pts@ == decode_spec_upto(amv, a as int) + slots_of_lines(
                            a as int,
                            lsv.take(j as int),
                        ) + slots_of_line(a as int, lsv[j as int], k as int),
                    decreases W_PIXELS - k,
                {
                    if sl.pixels[k].is_some() {
                        pts.push(
                            DecodedPixel {
                                angle: a as u32,
                                screen_idx: sl.screen_idx,
                                addr: sl.addr,
                                pixel_z: k as u32,
                            },
                        );
                    }
                    k += 1;
                }
                proof {
                    assert(lsv.take(j as int + 1).drop_last() =~= lsv.take(j as int));
                    assert(lsv.take(j as int + 1).last() == lsv[j as int]);
                    assert(pts@ =~= decode_spec_upto(amv, a as int) + slots_of_lines(
                        a as int,
                        lsv.take(j as int + 1),
                    ));
                }
                j += 1;
            }
            proof {
                assert(lsv.take(lsv.len() as int) =~= lsv);
                assert(pts@ =~= decode_spec_upto(amv, a as int + 1));
            }
            a += 1;
        }
        pts
    }
}

} // verus!
