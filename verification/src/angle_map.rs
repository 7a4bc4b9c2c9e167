//! The encoder's output type: for every rotation angle, the scan lines to
//! light while the slice passes a panel, and the horizontal pixel-offset
//! transform that is applied to every emitted line.
use vstd::prelude::*;

verus! {

use crate::TOTAL_ANGLES;
use crate::W_PIXELS;
use vstd::pervasive::VecAdditionalExecFns;

/// One emitted scan-line record: which panel, which scan line on it, and one
/// optional 3-bit colour per horizontal pixel slot.
#[derive(Debug, Clone, PartialEq)]
pub struct ScreenLine {
    /// Which of the three panels, `0..3`.
    pub screen_idx: usize,
    /// Scan-line address on the panel, `0..64`.
    pub addr: u32,
    /// The 64 pixel slots along the line; `None` is dark.
    pub pixels: Vec<Option<u32>>,
}

/// Mathematical model of a [`ScreenLine`].
pub struct ScreenLineV {
    pub screen_idx: int,
    pub addr: int,
    pub pixels: Seq<Option<u32>>,
}

impl View for ScreenLine {
    type V = ScreenLineV;

    open spec fn view(&self) -> ScreenLineV {
        ScreenLineV {
            screen_idx: self.screen_idx as int,
            addr: self.addr as int,
            pixels: self.pixels@,
        }
    }
}

impl DeepView for ScreenLine {
    type V = ScreenLineV;

    open spec fn deep_view(&self) -> ScreenLineV {
        self.view()
    }
}

/// A valid scan-line record: indices on the hardware grid, 64 pixel slots.
pub open spec fn line_v_wf(l: ScreenLineV) -> bool {
    &&& 0 <= l.screen_idx < 3
    &&& 0 <= l.addr < W_PIXELS as int
    &&& l.pixels.len() == W_PIXELS as int
}

/// The encoder's output: for each rotation angle `0..TOTAL_ANGLES`, the scan
/// lines that light while the slice passes a panel at that angle. An angle
/// with no lit voxel has an empty line vector.
#[derive(Debug, Clone, PartialEq)]
pub struct AngleMap {
    /// Indexed by angle; always `TOTAL_ANGLES` entries.
    pub angles: Vec<Vec<ScreenLine>>,
}

impl View for AngleMap {
    type V = Seq<Seq<ScreenLineV>>;

    open spec fn view(&self) -> Seq<Seq<ScreenLineV>> {
        self.angles.deep_view()
    }
}

/// A well-formed angle map: one entry per rotation angle, each line valid.
pub open spec fn angle_map_wf(amv: Seq<Seq<ScreenLineV>>) -> bool {
    &&& amv.len() == TOTAL_ANGLES as int
    &&& forall|a: int, j: int|
        0 <= a < amv.len() && 0 <= j < amv[a].len() ==> line_v_wf(#[trigger] amv[a][j])
}

/// The horizontal pixel-offset transform on one scan line: every slot moves
/// `off` places towards higher indices (lower indices when `off` is
/// negative) and the vacated slots go dark.
pub open spec fn apply_offset(pixels: Seq<Option<u32>>, off: int) -> Seq<Option<u32>> {
    Seq::new(
        pixels.len(),
        |i: int|
            if 0 <= i - off < pixels.len() {
                pixels[i - off]
            } else {
                None
            },
    )
}

/// A zero offset leaves a line unchanged.
pub proof fn lemma_offset_zero(pixels: Seq<Option<u32>>)
    ensures
        apply_offset(pixels, 0) == pixels,
{
    assert(apply_offset(pixels, 0) =~= pixels);
}

/// A positive offset leaves the first `off` slots dark and moves every other
/// slot up by `off`.
pub proof fn lemma_offset_positive(pixels: Seq<Option<u32>>, off: int)
    requires
        0 < off,
    ensures
        apply_offset(pixels, off).len() == pixels.len(),
        forall|i: int| 0 <= i < off && i < pixels.len() ==> apply_offset(pixels, off)[i] is None,
        forall|i: int| off <= i < pixels.len() ==> apply_offset(pixels, off)[i] == pixels[i - off],
{
}

/// A negative offset leaves the last `-off` slots dark and moves every other
/// slot down by `-off`.
pub proof fn lemma_offset_negative(pixels: Seq<Option<u32>>, off: int)
    requires
        off < 0,
    ensures
        apply_offset(pixels, off).len() == pixels.len(),
        forall|i: int|
            pixels.len() + off <= i < pixels.len() && 0 <= i ==> apply_offset(pixels, off)[i]
                is None,
        forall|i: int|
            0 <= i < pixels.len() + off ==> apply_offset(pixels, off)[i] == pixels[i - off],
{
}

/// Applies [`apply_offset`] to one line's pixel slots.
pub(crate) fn apply_offset_exec(pixels: &Vec<Option<u32>>, off: i32) -> (r: Vec<Option<u32>>)
    requires
        pixels@.len() == W_PIXELS as int,
    ensures
        r@ == apply_offset(pixels@, off as int),
{
    let mut r: Vec<Option<u32>> = Vec::new();
    let mut i: usize = 0;
    while i < pixels.len()
        invariant
            pixels@.len() == W_PIXELS as int,
            i <= pixels@.len(),
            r@.len() == i as int,
            forall|n: int|
                0 <= n < i as int ==> r@[n] == apply_offset(pixels@, off as int)[n],
        decreases pixels@.len() - i,
    {
        let src: i64 = i as i64 - off as i64;
        if 0 <= src && src < pixels.len() as i64 {
            r.push(pixels[src as usize]);
        } else {
            r.push(None);
        }
        i += 1;
    }
    proof {
        assert(r@ =~= apply_offset(pixels@, off as int));
    }
    r
}

impl AngleMap {
    /// Rotates the whole map in angle space: the lines of angle `a` move to
    /// angle `(a + angle_offset) mod TOTAL_ANGLES`. The host applies this
    /// after encoding; the codec itself never shifts angles.
    pub fn rotated(self, angle_offset: i32) -> (r: AngleMap)
        requires
            self@.len() == TOTAL_ANGLES as int,
        ensures
            r@.len() == TOTAL_ANGLES as int,
            forall|a: int|
                0 <= a < TOTAL_ANGLES as int ==> r@[a] == self@[(a - angle_offset as int) % (
                TOTAL_ANGLES as int)],
    {
        let ghost n = TOTAL_ANGLES as int;
        let ghost off = angle_offset as int;
        let mut norm_i: i64 = angle_offset as i64;
        proof {
            vstd::arithmetic::div_mod::lemma_small_mod(0, n as nat);
        }
        while norm_i < 0
            invariant
                n == TOTAL_ANGLES as int,
                off == angle_offset as int,
                norm_i <= i64::MAX - TOTAL_ANGLES as i64,
                (off - norm_i as int) % n == 0,
            decreases i64::MAX as int - norm_i as int,
        {
            proof {
                vstd::arithmetic::div_mod::lemma_mod_sub_multiples_vanish(off - norm_i as int, n);
            }
            norm_i += TOTAL_ANGLES as i64;
        }
        while norm_i >= TOTAL_ANGLES as i64
            invariant
                n == TOTAL_ANGLES as int,
                off == angle_offset as int,
                norm_i >= 0,
                (off - norm_i as int) % n == 0,
            decreases norm_i,
        {
            proof {
                vstd::arithmetic::div_mod::lemma_mod_add_multiples_vanish(off - norm_i as int, n);
            }
            norm_i -= TOTAL_ANGLES as i64;
        }
        let norm: usize = norm_i as usize;
        let mut src = self;
        let mut rot: Vec<Vec<ScreenLine>> = Vec::new();
        let mut c: usize = 0;
        while c < TOTAL_ANGLES
            invariant
                c <= TOTAL_ANGLES,
                rot@.len() == c as int,
                forall|k: int| 0 <= k < c as int ==> (#[trigger] rot@[k])@.len() == 0,
            decreases TOTAL_ANGLES - c,
        {
            rot.push(Vec::new());
            c += 1;
        }
        let ghost orig = src@;
        proof {
            assert forall|b: int| 0 <= b < n implies (#[trigger] rot@[b]).deep_view()
                == Seq::<ScreenLineV>::empty() by {
                assert(rot@[b].deep_view() =~= Seq::<ScreenLineV>::empty());
            }
        }
        let mut a: usize = 0;
        while a < TOTAL_ANGLES
            invariant
                a <= TOTAL_ANGLES,
                norm < TOTAL_ANGLES,
                (off - norm as int) % n == 0,
                n == TOTAL_ANGLES as int,
                off == angle_offset as int,
                src.angles@.len() == TOTAL_ANGLES as int,
                rot@.len() == TOTAL_ANGLES as int,
                orig.len() == TOTAL_ANGLES as int,
                forall|k: int|
                    a as int <= k < TOTAL_ANGLES as int ==> (#[trigger] src.angles@[k]).deep_view()
                        == orig[k],
                forall|b: int|
                    0 <= b < TOTAL_ANGLES as int ==> (#[trigger] rot@[b]).deep_view() == if (b - off)
                        % n < a as int {
                        orig[(b - off) % n]
                    } else {
                        Seq::<ScreenLineV>::empty()
                    },
            decreases TOTAL_ANGLES - a,
        {
            let dst: usize = (a + norm) % TOTAL_ANGLES;
            let ghost pre_rot = rot@;
            let mut taken: Vec<ScreenLine> = Vec::new();
            src.angles.set_and_swap(a, &mut taken);
            proof {
                assert(taken.deep_view() == orig[a as int]);
            }
            rot.set_and_swap(dst, &mut taken);
            proof {
                lemma_rotation_index(a as int, off, norm as int, dst as int);
                assert forall|b: int| #![trigger (b - off) % n]
                    0 <= b < n && b != dst as int implies (b - off) % n != a as int by {
                    lemma_rotation_unique(a as int, off, norm as int, b);
                }
                assert forall|b: int| 0 <= b < n implies (#[trigger] rot@[b]).deep_view() == if (b
                    - off) % n < a as int + 1 {
                    orig[(b - off) % n]
                } else {
                    Seq::<ScreenLineV>::empty()
                } by {
                    if b == dst as int {
                        assert((b - off) % n == a as int);
                    } else {
                        assert(rot@[b] == pre_rot[b]);
                        vstd::arithmetic::div_mod::lemma_mod_bound(b - off, n);
                    }
                }
            }
            a += 1;
        }
        let r = AngleMap { angles: rot };
        proof {
            assert forall|b: int| 0 <= b < n implies r@[b] == orig[(b - off) % n] by {
                vstd::arithmetic::div_mod::lemma_mod_bound(b - off, n);
            }
        }
        r
    }
}

/// The destination angle of the rotation maps back to its source: when
/// `norm` is the offset reduced to `[0, N)` and `dst == (a + norm) mod N`
/// with `a < N`, then `(dst - offset) mod N == a`.
proof fn lemma_rotation_index(a: int, off: int, norm: int, dst: int)
    requires
        0 <= a < TOTAL_ANGLES as int,
        0 <= norm < TOTAL_ANGLES as int,
        (off - norm) % (TOTAL_ANGLES as int) == 0,
        dst == (a + norm) % (TOTAL_ANGLES as int),
    ensures
        (dst - off) % (TOTAL_ANGLES as int) == a,
{
    let n = TOTAL_ANGLES as int;
    vstd::arithmetic::div_mod::lemma_small_mod(norm as nat, n as nat);
    vstd::arithmetic::div_mod::lemma_small_mod(a as nat, n as nat);
    vstd::arithmetic::div_mod::lemma_mod_bound(a + norm, n);
    vstd::arithmetic::div_mod::lemma_small_mod(dst as nat, n as nat);
    // off and norm are congruent modulo n
    vstd::arithmetic::div_mod::lemma_mod_equivalence(off, norm, n);
    // (dst - norm) % n == (a + norm - norm) % n == a
    vstd::arithmetic::div_mod::lemma_sub_mod_noop(a + norm, norm, n);
    // (dst - off) % n == (dst - norm) % n
    vstd::arithmetic::div_mod::lemma_sub_mod_noop(dst, off, n);
    vstd::arithmetic::div_mod::lemma_sub_mod_noop(dst, norm, n);
}

/// Angles other than the rotation's target do not map back to the source.
proof fn lemma_rotation_unique(a: int, off: int, norm: int, b: int)
    requires
        0 <= a < TOTAL_ANGLES as int,
        0 <= norm < TOTAL_ANGLES as int,
        (off - norm) % (TOTAL_ANGLES as int) == 0,
        0 <= b < TOTAL_ANGLES as int,
        b != (a + norm) % (TOTAL_ANGLES as int),
    ensures
        (b - off) % (TOTAL_ANGLES as int) != a,
{
    let n = TOTAL_ANGLES as int;
    let dst = (a + norm) % n;
    if (b - off) % n == a {
        lemma_rotation_index(a, off, norm, dst);
        // (b - off) and (dst - off) have equal remainders, so b == dst
        vstd::arithmetic::div_mod::lemma_mod_equivalence(b - off, dst - off, n);
        vstd::arithmetic::div_mod::lemma_mod_equivalence(b, dst, n);
        vstd::arithmetic::div_mod::lemma_small_mod(b as nat, n as nat);
        vstd::arithmetic::div_mod::lemma_mod_bound(a + norm, n);
        vstd::arithmetic::div_mod::lemma_small_mod(dst as nat, n as nat);
    }
}

} // verus!
