//! The HUB75 frame packer: flattens an angle map into the three packed byte
//! buffers the display's microcontroller consumes — pixel bytes, delay
//! address words and the per-angle index table.
//!
//! Each scan line is folded onto a 32-row dual-bank panel: its "real
//! address" carries the active-low enable bits of the two other panels in
//! bits 5..8 and the address modulo 32 in bits 0..5; lines of the lower and
//! upper bank share one 64-byte block, the lower bank in colour bits 0..3
//! and the upper bank in bits 3..6, with pixel slots stored in reverse
//! order.
use vstd::prelude::*;

verus! {

use crate::angle_map::{AngleMap, ScreenLineV, angle_map_wf, line_v_wf};
use crate::TOTAL_ANGLES;
use crate::W_PIXELS;
use vstd::pervasive::VecAdditionalExecFns;

/// Rows of one half of a dual-bank HUB75 panel.
pub const ADDR_MAX: usize = 32;

/// Size of the real-address space (enable mask and folded address).
pub const REAL_ADDRS: usize = 256;

/// Active-low panel-enable bits for panel `s`: the complement of `1 << s`
/// in three bits, so the two *other* panels' bits are set.
pub open spec fn screen_mask(s: int) -> int {
    if s == 0 {
        6
    } else if s == 1 {
        5
    } else {
        3
    }
}

/// The hardware real address of a scan line: enable mask in bits 5..8, the
/// address folded onto the half panel in bits 0..5.
pub open spec fn line_real_addr(l: ScreenLineV) -> int {
    screen_mask(l.screen_idx) * 32 + (l.addr % 32)
}

/// The byte a lit slot contributes to index `k` of its block: slot `63 - k`
/// of the line, colour masked to 3 bits, in bits 0..3 for the lower bank and
/// bits 3..6 for the upper bank.
pub open spec fn line_byte(l: ScreenLineV, k: int) -> u8 {
    match l.pixels[63 - k] {
        Some(c) => if l.addr < 32 {
            (c % 8) as u8
        } else {
            ((c % 8) * 8) as u8
        },
        None => 0,
    }
}

/// Byte `k` of the 64-byte block at real address `r`: the OR of the
/// contributions of every line folded onto `r`.
pub open spec fn byte_val(ls: Seq<ScreenLineV>, r: int, k: int) -> u8
    decreases ls.len(),
{
    if ls.len() == 0 {
        0
    } else {
        let rest = byte_val(ls.drop_last(), r, k);
        let l = ls.last();
        if line_real_addr(l) == r && l.pixels[63 - k] is Some {
            rest | line_byte(l, k)
        } else {
            rest
        }
    }
}

/// Some line folds onto real address `r`.
pub open spec fn addr_present(ls: Seq<ScreenLineV>, r: int) -> bool
    decreases ls.len(),
{
    if ls.len() == 0 {
        false
    } else {
        line_real_addr(ls.last()) == r || addr_present(ls.drop_last(), r)
    }
}

/// Number of distinct real addresses below `r` that some line folds onto.
pub open spec fn lines_count(ls: Seq<ScreenLineV>, r: int) -> int
    decreases r,
{
    if r <= 0 {
        0
    } else {
        lines_count(ls, r - 1) + if addr_present(ls, r - 1) {
            1int
        } else {
            0int
        }
    }
}

/// The pixel bytes of one angle, restricted to real addresses below `r`: the
/// present 64-byte blocks in ascending real-address order.
pub open spec fn blocks_bytes(ls: Seq<ScreenLineV>, r: int) -> Seq<u8>
    decreases r,
{
    if r <= 0 {
        Seq::empty()
    } else {
        blocks_bytes(ls, r - 1) + if addr_present(ls, r - 1) {
            Seq::new(W_PIXELS as nat, |k: int| byte_val(ls, r - 1, k))
        } else {
            Seq::empty()
        }
    }
}

/// The delay-address word of real address `r`: a latch-delay count of 256 in
/// bits 13 and up, the real address in bits 5..13, and its low five bits
/// repeated in bits 0..5. The fields do not overlap, so the sum equals the
/// bitwise OR of the original layout.
pub open spec fn delay_addr_word(r: int) -> int {
    0x200000 + r * 32 + (r % 32)
}

/// The four little-endian bytes of a 32-bit word.
pub open spec fn le4(w: int) -> Seq<u8> {
    seq![
        (w % 256) as u8,
        ((w / 256) % 256) as u8,
        ((w / 65536) % 256) as u8,
        ((w / 16777216) % 256) as u8,
    ]
}

/// The two little-endian bytes of a 16-bit word.
pub open spec fn le2(w: int) -> Seq<u8> {
    seq![(w % 256) as u8, ((w / 256) % 256) as u8]
}

/// The delay-address bytes of one angle, restricted to real addresses below
/// `r`: one little-endian word per present block, in block order.
pub open spec fn addr_words_bytes(ls: Seq<ScreenLineV>, r: int) -> Seq<u8>
    decreases r,
{
    if r <= 0 {
        Seq::empty()
    } else {
        addr_words_bytes(ls, r - 1) + if addr_present(ls, r - 1) {
            le4(delay_addr_word(r - 1))
        } else {
            Seq::empty()
        }
    }
}

/// The lines the packer processes for angle `a`: the angle's lines when `a`
/// lies in the half-open range `[lo, hi)`, nothing otherwise.
pub open spec fn angle_lines(amv: Seq<Seq<ScreenLineV>>, lo: int, hi: int, a: int) -> Seq<
    ScreenLineV,
> {
    if lo <= a < hi {
        amv[a]
    } else {
        Seq::empty()
    }
}

/// Total number of packed blocks over the first `a` angles.
pub open spec fn total_lines(amv: Seq<Seq<ScreenLineV>>, lo: int, hi: int, a: int) -> int
    decreases a,
{
    if a <= 0 {
        0
    } else {
        total_lines(amv, lo, hi, a - 1) + lines_count(
            angle_lines(amv, lo, hi, a - 1),
            REAL_ADDRS as int,
        )
    }
}

/// The pixel buffer over the first `a` angles.
pub open spec fn pixel_buf_spec(amv: Seq<Seq<ScreenLineV>>, lo: int, hi: int, a: int) -> Seq<u8>
    decreases a,
{
    if a <= 0 {
        Seq::empty()
    } else {
        pixel_buf_spec(amv, lo, hi, a - 1) + blocks_bytes(
            angle_lines(amv, lo, hi, a - 1),
            REAL_ADDRS as int,
        )
    }
}

/// The delay-address buffer over the first `a` angles.
pub open spec fn addr_buf_spec(amv: Seq<Seq<ScreenLineV>>, lo: int, hi: int, a: int) -> Seq<u8>
    decreases a,
{
    if a <= 0 {
        Seq::empty()
    } else {
        addr_buf_spec(amv, lo, hi, a - 1) + addr_words_bytes(
            angle_lines(amv, lo, hi, a - 1),
            REAL_ADDRS as int,
        )
    }
}

/// The packed 8-byte index record of angle `a`: where the angle's pixel
/// bytes start (a byte offset, 32 bits), where its delay words start (a word
/// index, 16 bits), and how many blocks it packed (16 bits), all
/// little-endian.
pub open spec fn angle_rec_bytes(amv: Seq<Seq<ScreenLineV>>, lo: int, hi: int, a: int) -> Seq<u8> {
    le4(pixel_buf_spec(amv, lo, hi, a).len() as int) + le2(total_lines(amv, lo, hi, a)) + le2(
        lines_count(angle_lines(amv, lo, hi, a), REAL_ADDRS as int),
    )
}

/// The angle index table over the first `a` angles.
pub open spec fn angle_buf_spec(amv: Seq<Seq<ScreenLineV>>, lo: int, hi: int, a: int) -> Seq<u8>
    decreases a,
{
    if a <= 0 {
        Seq::empty()
    } else {
        angle_buf_spec(amv, lo, hi, a - 1) + angle_rec_bytes(amv, lo, hi, a - 1)
    }
}

/// A real address no line folds onto has an all-zero block.
proof fn lemma_absent_zero(ls: Seq<ScreenLineV>, r: int, k: int)
    requires
        !addr_present(ls, r),
    ensures
        byte_val(ls, r, k) == 0,
    decreases ls.len(),
{
    if ls.len() > 0 {
        lemma_absent_zero(ls.drop_last(), r, k);
    }
}

/// Lengths of one angle's buffers, and the block-count bound.
proof fn lemma_block_lens(ls: Seq<ScreenLineV>, r: int)
    requires
        0 <= r,
    ensures
        0 <= lines_count(ls, r) <= r,
        blocks_bytes(ls, r).len() == 64 * lines_count(ls, r),
        addr_words_bytes(ls, r).len() == 4 * lines_count(ls, r),
    decreases r,
{
    if r > 0 {
        lemma_block_lens(ls, r - 1);
    }
}

/// Lengths of the whole buffers and the total block-count bound.
proof fn lemma_buf_lens(amv: Seq<Seq<ScreenLineV>>, lo: int, hi: int, a: int)
    requires
        0 <= a,
    ensures
        0 <= total_lines(amv, lo, hi, a) <= 256 * a,
        pixel_buf_spec(amv, lo, hi, a).len() == 64 * total_lines(amv, lo, hi, a),
        addr_buf_spec(amv, lo, hi, a).len() == 4 * total_lines(amv, lo, hi, a),
        angle_buf_spec(amv, lo, hi, a).len() == 8 * a,
    decreases a,
{
    if a > 0 {
        lemma_buf_lens(amv, lo, hi, a - 1);
        lemma_block_lens(angle_lines(amv, lo, hi, a - 1), REAL_ADDRS as int);
    }
}

/// One block accumulator cell is faithful to the lines processed so far:
/// allocated exactly when some line folds onto its real address, and then
/// holding the OR of every line's contribution to each byte.
pub open spec fn block_ok(ls: Seq<ScreenLineV>, cell: Option<Vec<u8>>, r: int) -> bool {
    match cell {
        Some(b) => {
            &&& addr_present(ls, r)
            &&& b@.len() == W_PIXELS as int
            &&& forall|k: int| 0 <= k < W_PIXELS as int ==> b@[k] == byte_val(ls, r, k)
        },
        None => !addr_present(ls, r),
    }
}

/// A 64-byte block of zeroes.
fn zero_block() -> (r: Vec<u8>)
    ensures
        r@.len() == W_PIXELS as int,
        forall|k: int| 0 <= k < W_PIXELS as int ==> r@[k] == 0u8,
{
    let mut r: Vec<u8> = Vec::new();
    let mut k: usize = 0;
    while k < W_PIXELS
        invariant
            k <= W_PIXELS,
            r@.len() == k as int,
            forall|q: int| 0 <= q < k as int ==> r@[q] == 0u8,
        decreases W_PIXELS - k,
    {
        r.push(0);
        k += 1;
    }
    r
}

/// The three packed byte buffers of one frame.
#[derive(Debug, Clone, PartialEq)]
pub struct Hub75Buffers {
    /// `TOTAL_ANGLES` packed 8-byte records, indexed by angle.
    pub angle_buf: Vec<u8>,
    /// The concatenated 64-byte pixel blocks.
    pub pixel_buf: Vec<u8>,
    /// One 4-byte little-endian delay-address word per block.
    pub addr_buf: Vec<u8>,
}

/// Packs the angles of `angle_map` that lie in the half-open range
/// `[angle_lo, angle_hi)` into the three HUB75 buffers; angles outside the
/// range get an index record with a block count of zero and contribute no
/// bytes.
#[verifier::rlimit(100)]
pub fn pack_hub75_range(angle_map: &AngleMap, angle_lo: usize, angle_hi: usize) -> (r:
    Hub75Buffers)
    requires
        angle_map_wf(angle_map@),
    ensures
        r.angle_buf@ == angle_buf_spec(angle_map@, angle_lo as int, angle_hi as int,
            TOTAL_ANGLES as int),
        r.pixel_buf@ == pixel_buf_spec(angle_map@, angle_lo as int, angle_hi as int,
            TOTAL_ANGLES as int),
        r.addr_buf@ == addr_buf_spec(angle_map@, angle_lo as int, angle_hi as int,
            TOTAL_ANGLES as int),
        r.angle_buf@.len() == 8 * TOTAL_ANGLES as int,
        r.pixel_buf@.len() == 64 * total_lines(angle_map@, angle_lo as int, angle_hi as int,
            TOTAL_ANGLES as int),
        r.addr_buf@.len() == 4 * total_lines(angle_map@, angle_lo as int, angle_hi as int,
            TOTAL_ANGLES as int),
    {
    let ghost amv = angle_map@;
    let ghost lo = angle_lo as int;
    let ghost hi = angle_hi as int;
    let mut angle_buf: Vec<u8> = Vec::new();
    let mut pixel_buf: Vec<u8> = Vec::new();
    let mut addr_buf: Vec<u8> = Vec::new();
    let mut words: usize = 0;
    let mut a: usize = 0;
    while a < TOTAL_ANGLES
        invariant
            a <= TOTAL_ANGLES,
            amv == angle_map@,
            lo == angle_lo as int,
            hi == angle_hi as int,
            angle_map_wf(amv),
            angle_buf@ == angle_buf_spec(amv, lo, hi, a as int),
            pixel_buf@ == pixel_buf_spec(amv, lo, hi, a as int),
            addr_buf@ == addr_buf_spec(amv, lo, hi, a as int),
            words as int == total_lines(amv, lo, hi, a as int),
            words <= 256 * a,
            pixel_buf@.len() == 64 * words as int,
            addr_buf@.len() == 4 * words as int,
            angle_buf@.len() == 8 * a as int,
        decreases TOTAL_ANGLES - a,
    {
        let ghost cur_ls = angle_lines(amv, lo, hi, a as int);
        let mut blocks: Vec<Option<Vec<u8>>> = Vec::new();
        let mut n: usize = 0;
        while n < REAL_ADDRS
            invariant
                n <= REAL_ADDRS,
                blocks@.len() == n as int,
                forall|q: int| 0 <= q < n as int ==> (#[trigger] blocks@[q]) is None,
            decreases REAL_ADDRS - n,
        {
            blocks.push(None);
            n += 1;
        }
        let included = angle_lo <= a && a < angle_hi;
        proof {
            if !included {
                assert(cur_ls =~= Seq::<ScreenLineV>::empty());
            }
            assert forall|q: int| 0 <= q < REAL_ADDRS as int implies #[trigger] block_ok(
                cur_ls.take(0),
                blocks@[q],
                q,
            ) by {
                assert(cur_ls.take(0) =~= Seq::<ScreenLineV>::empty());
            }
        }
        if included {
            let lines = &angle_map.angles[a];
            let ghost lsv = lines.deep_view();
            proof {
                assert(lsv == amv[a as int]);
                assert(lsv == cur_ls);
            }
            let mut j: usize = 0;
            while j < lines.len()
                invariant
                    j <= lsv.len(),
                    a < TOTAL_ANGLES,
                    amv == angle_map@,
                    angle_map_wf(amv),
                    lsv == lines.deep_view(),
                    lsv == cur_ls,
                    cur_ls == angle_lines(amv, lo, hi, a as int),
                    lsv.len() == lines@.len(),
                    blocks@.len() == REAL_ADDRS as int,
                    forall|q: int|
                        0 <= q < REAL_ADDRS as int ==> #[trigger] block_ok(
                            lsv.take(j as int),
                            blocks@[q],
                            q,
                        ),
                decreases lsv.len() - j,
            {
                let l = &lines[j];
                proof {
                    assert(l@ == lsv[j as int]);
                    assert(line_v_wf(lsv[j as int]));
                }
                let mask: usize = if l.screen_idx == 0 {
                    6
                } else if l.screen_idx == 1 {
                    5
                } else {
                    3
                };
                let ra: usize = mask * 32 + (l.addr as usize) % 32;
                proof {
                    assert(ra as int == line_real_addr(lsv[j as int]));
                    assert(ra < REAL_ADDRS);
                    assert(block_ok(lsv.take(j as int), blocks@[ra as int], ra as int));
                }
                let ghost pre_blocks = blocks@;
                let mut cell: Option<Vec<u8>> = None;
                blocks.set_and_swap(ra, &mut cell);
                let ghost old_cell = pre_blocks[ra as int];
                let mut block: Vec<u8> = match cell {
                    Some(b) => b,
                    None => zero_block(),
                };
                proof {
                    if old_cell is None {
                        assert forall|k: int| 0 <= k < W_PIXELS as int implies block@[k]
                            == byte_val(lsv.take(j as int), ra as int, k) by {
                            lemma_absent_zero(lsv.take(j as int), ra as int, k);
                        }
                    }
                    assert(lsv.take(j as int + 1).drop_last() =~= lsv.take(j as int));
                    assert(lsv.take(j as int + 1).last() == lsv[j as int]);
                }
                let mut k: usize = 0;
                while k < W_PIXELS
                    invariant
                        k <= W_PIXELS,
                        j < lsv.len(),
                        l@ == lsv[j as int],
                        line_v_wf(lsv[j as int]),
                        l.pixels@.len() == W_PIXELS as int,
                        ra as int == line_real_addr(lsv[j as int]),
                        block@.len() == W_PIXELS as int,
                        lsv.take(j as int + 1).drop_last() == lsv.take(j as int),
                        lsv.take(j as int + 1).last() == lsv[j as int],
                        forall|q: int|
                            0 <= q < k as int ==> block@[q] == byte_val(
                                lsv.take(j as int + 1),
                                ra as int,
                                q,
                            ),
                        forall|q: int|
                            k as int <= q < W_PIXELS as int ==> block@[q] == byte_val(
                                lsv.take(j as int),
                                ra as int,
                                q,
                            ),
                    decreases W_PIXELS - k,
                {
                    let slot = l.pixels[63 - k];
                    if let Some(c) = slot {
                        let masked: u8 = (c % 8) as u8;
                        let cbyte: u8 = if l.addr < 32 {
                            masked
                        } else {
                            masked * 8
                        };
                        proof {
                            assert(cbyte == line_byte(lsv[j as int], k as int));
                        }
                        let orv = block[k] | cbyte;
                        block.set(k, orv);
                    }
                    k += 1;
                }
                let mut put_back: Option<Vec<u8>> = Some(block);
                blocks.set_and_swap(ra, &mut put_back);
                proof {
                    assert forall|q: int| 0 <= q < REAL_ADDRS as int implies #[trigger] block_ok(
                        lsv.take(j as int + 1),
                        blocks@[q],
                        q,
                    ) by {
                        assert(block_ok(lsv.take(j as int), pre_blocks[q], q));
                        if q != ra as int {
                            assert(blocks@[q] == pre_blocks[q]);
                            assert(line_real_addr(lsv.take(j as int + 1).last()) != q);
                        }
                    }
                }
                j += 1;
            }
            proof {
                assert(lsv.take(lsv.len() as int) =~= lsv);
            }
        }
        // emit the present blocks of this angle in ascending real-address
        // order, counting them
        let pix_start: usize = pixel_buf.len();
        let words_start: usize = words;
        let mut rr: usize = 0;
        while rr < REAL_ADDRS
            invariant
                rr <= REAL_ADDRS,
                blocks@.len() == REAL_ADDRS as int,
                forall|q: int|
                    0 <= q < REAL_ADDRS as int ==> #[trigger] block_ok(cur_ls, blocks@[q], q),
                pixel_buf@ == pixel_buf_spec(amv, lo, hi, a as int) + blocks_bytes(
                    cur_ls,
                    rr as int,
                ),
                addr_buf@ == addr_buf_spec(amv, lo, hi, a as int) + addr_words_bytes(
                    cur_ls,
                    rr as int,
                ),
                words as int == words_start as int + lines_count(cur_ls, rr as int),
                words_start as int == total_lines(amv, lo, hi, a as int),
                pix_start as int == pixel_buf_spec(amv, lo, hi, a as int).len(),
                words <= 256 * a + 256,
                words_start <= 256 * a,
                a < TOTAL_ANGLES,
                pixel_buf@.len() == 64 * words as int,
                addr_buf@.len() == 4 * words as int,
            decreases REAL_ADDRS - rr,
        {
            proof {
                assert(block_ok(cur_ls, blocks@[rr as int], rr as int));
            }
            match &blocks[rr] {
                Some(block) => {
                    let mut k: usize = 0;
                    let ghost pre_pix = pixel_buf@;
                    while k < W_PIXELS
                        invariant
                            k <= W_PIXELS,
                            rr < REAL_ADDRS,
                            block@.len() == W_PIXELS as int,
                            forall|q: int|
                                0 <= q < W_PIXELS as int ==> block@[q] == byte_val(
                                    cur_ls,
                                    rr as int,
                                    q,
                                ),
                            pixel_buf@ == pre_pix + block@.take(k as int),
                        decreases W_PIXELS - k,
                    {
                        pixel_buf.push(block[k]);
                        proof {
                            assert(pixel_buf@ =~= pre_pix + block@.take(k as int + 1));
                        }
                        k += 1;
                    }
                    proof {
                        assert(block@.take(64) =~= block@);
                        assert(block@ =~= Seq::new(
                            W_PIXELS as nat,
                            |q: int| byte_val(cur_ls, rr as int, q),
                        ));
                        assert(pixel_buf@ =~= pixel_buf_spec(amv, lo, hi, a as int) + blocks_bytes(
                            cur_ls,
                            rr as int + 1,
                        ));
                    }
                    let w: u32 = 0x200000u32 + (rr as u32) * 32 + (rr as u32) % 32;
                    addr_buf.push((w % 256) as u8);
                    addr_buf.push(((w / 256) % 256) as u8);
                    addr_buf.push(((w / 65536) % 256) as u8);
                    addr_buf.push(((w / 16777216) % 256) as u8);
                    proof {
                        assert(w as int == delay_addr_word(rr as int));
                        assert(addr_buf@ =~= addr_buf_spec(amv, lo, hi, a as int)
                            + addr_words_bytes(cur_ls, rr as int + 1));
                        lemma_block_lens(cur_ls, rr as int + 1);
                    }
                    words += 1;
                },
                None => {
                    proof {
                        assert(pixel_buf@ =~= pixel_buf_spec(amv, lo, hi, a as int)
                            + blocks_bytes(cur_ls, rr as int + 1));
                        assert(addr_buf@ =~= addr_buf_spec(amv, lo, hi, a as int)
                            + addr_words_bytes(cur_ls, rr as int + 1));
                    }
                },
            }
            rr += 1;
        }
        let lines_a: usize = words - words_start;
        let pix32: u32 = pix_start as u32;
        angle_buf.push((pix32 % 256) as u8);
        angle_buf.push(((pix32 / 256) % 256) as u8);
        angle_buf.push(((pix32 / 65536) % 256) as u8);
        angle_buf.push(((pix32 / 16777216) % 256) as u8);
        let ws16: u16 = words_start as u16;
        angle_buf.push((ws16 % 256) as u8);
        angle_buf.push((ws16 / 256) as u8);
        let la16: u16 = lines_a as u16;
        angle_buf.push((la16 % 256) as u8);
        angle_buf.push((la16 / 256) as u8);
        proof {
            lemma_buf_lens(amv, lo, hi, a as int);
            assert(angle_buf@ =~= angle_buf_spec(amv, lo, hi, a as int) + angle_rec_bytes(
                amv,
                lo,
                hi,
                a as int,
            ));
            assert(pixel_buf@ == pixel_buf_spec(amv, lo, hi, a as int + 1));
            assert(addr_buf@ == addr_buf_spec(amv, lo, hi, a as int + 1));
        }
        a += 1;
    }
    proof {
        lemma_buf_lens(amv, lo, hi, TOTAL_ANGLES as int);
    }
    Hub75Buffers { angle_buf, pixel_buf, addr_buf }
}

/// Packs every angle of the map: the full-range [`pack_hub75_range`].
pub fn pack_hub75(angle_map: &AngleMap) -> (r: Hub75Buffers)
    requires
        angle_map_wf(angle_map@),
    ensures
        r.angle_buf@ == angle_buf_spec(angle_map@, 0, TOTAL_ANGLES as int, TOTAL_ANGLES as int),
        r.pixel_buf@ == pixel_buf_spec(angle_map@, 0, TOTAL_ANGLES as int, TOTAL_ANGLES as int),
        r.addr_buf@ == addr_buf_spec(angle_map@, 0, TOTAL_ANGLES as int, TOTAL_ANGLES as int),
        r.angle_buf@.len() == 8 * TOTAL_ANGLES as int,
        r.pixel_buf@.len() == 64 * total_lines(angle_map@, 0, TOTAL_ANGLES as int,
            TOTAL_ANGLES as int),
        r.addr_buf@.len() == 4 * total_lines(angle_map@, 0, TOTAL_ANGLES as int,
            TOTAL_ANGLES as int),
{
    pack_hub75_range(angle_map, 0, TOTAL_ANGLES)
}

} // verus!
