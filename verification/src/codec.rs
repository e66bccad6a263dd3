//! Wire format of the 64-bit little-endian TPX3 packets: field extraction for
//! hit and TDC packets, and the rollover decision for the ToA clock.
use vstd::prelude::*;
use vstd::arithmetic::div_mod::lemma_fundamental_div_mod_converse;
use vstd::arithmetic::div_mod::lemma_div_denominator;
use vstd::arithmetic::div_mod::lemma_div_is_ordered;
use vstd::arithmetic::div_mod::lemma_div_pos_is_pos;
use vstd::arithmetic::div_mod::lemma_div_by_multiple;
use crate::hit::Hit;
use crate::hit::spec_hit_packet;
use crate::hit::spec_blob_packet;

verus! {

/// Wrap-around period of the TDC clock, in picoseconds.
pub const TDC_LIMIT: i64 = 107_374_182_400_000;

/// Wrap-around period of the ToA clock, in picoseconds.
pub const HIT_LIMIT: i64 = 26_843_545_600_000;

/// Window below which a wrapped ToA must land relative to its pulse, in ps.
pub const ROLL: i64 = 26_000_000_000_000;

/// Minimum backwards jump of the raw ToA that suggests a wrap, in ps.
pub const CHECK: i64 = 100_000_000_000;

/// Largest raw ToA value a hit packet can decode to, in ps (16-bit global
/// time times 409 600 000, plus the largest fine remainder).
pub const MAX_RAW_TOA: i64 = 27_000_000_000_000;

/// Cap on the TDC rollover counter so that absolute times stay inside `i64`.
pub const MAX_TROLLS: i64 = 85_000;

/// Cap on the ToA rollover counter so that absolute times stay inside `i64`.
pub const MAX_HROLLS: i64 = 343_000;

/// Pixel-pair selector of a hit packet: bits 44..46.
pub open spec fn hit_pix(p: u64) -> u64 {
    (p >> 44) & 0x7
}

/// Detector column encoded in a hit packet: the doubled-column field in bits
/// 53..59 plus the high bit of the selector.
pub open spec fn hit_col(p: u64) -> int {
    ((p & 0x0FE0_0000_0000_0000) >> 52) + (hit_pix(p) >> 2)
}

/// Detector row encoded in a hit packet: the quadded-row field in bits 47..52
/// plus the low two bits of the selector.
pub open spec fn hit_row(p: u64) -> int {
    ((p & 0x001F_8000_0000_0000) >> 45) + (hit_pix(p) & 0x3)
}

/// Time over threshold of a hit packet in nanoseconds: the 10-bit field in
/// bits 20..29 in 25 ns units.
pub open spec fn hit_tot(p: u64) -> int {
    ((p >> 20) & 0x3FF) * 25
}

/// Combined coarse and fine ToA counter of a hit packet: the 14-bit coarse
/// field widened by the inverted 4-bit fine field.
pub open spec fn hit_fine_counter(p: u64) -> u64 {
    (((p >> 30) & 0x3FFF) << 4) | (!(p >> 16) & 0xF)
}

/// Raw (not rollover-corrected) time of arrival of a hit packet in ps:
/// 16-bit global time in 409.6 us units plus the fine counter in units
/// of 25000/16 ps.
pub open spec fn hit_toa(p: u64) -> int {
    (p & 0xFFFF) * 409_600_000 + (hit_fine_counter(p) * 25_000) / 16
}

/// Trigger counter of a TDC packet: bits 44..55.
pub open spec fn tdc_trigger(p: u64) -> u64 {
    (p >> 44) & 0xFFF
}

/// Expansion field of a TDC packet: the 4-bit value at bits 5..8, minus one
/// with wrap-around, shifted into 512 ps units.
pub open spec fn tdc_expansion(p: u64) -> u64 {
    if (p >> 5) & 0xF == 0 {
        0xFFFF_FFFF_FFFF_FFFFu64 << 9
    } else {
        ((((p >> 5) & 0xF) - 1) as u64) << 9
    }
}

/// Sub-coarse part of a TDC packet: the high trigger-time bits taken verbatim
/// and the low bits reconstructed from the expansion field.
pub open spec fn tdc_trigtime(p: u64) -> u64 {
    (p & 0xE00) | ((tdc_expansion(p) / 12) & 0x1FF)
}

/// Rounding bit of a TDC time: zero only when the expansion divides evenly.
pub open spec fn tdc_add_bit(p: u64) -> int {
    if tdc_expansion(p) % 12 == 0 && tdc_expansion(p) < 1023 {
        0
    } else {
        1
    }
}

/// Raw (not rollover-corrected) TDC time of a TDC packet in ps: 32-bit coarse
/// counter in 25 ns units plus the trigger time scaled from 1/4096 units.
pub open spec fn tdc_time(p: u64) -> int {
    (((p >> 12) & 0xFFFF_FFFF) * 1000 + (tdc_trigtime(p) * 1000) / 4096) * 25 + tdc_add_bit(p)
}

/// Extracts `(col, row, tot_ns, raw_toa_ps)` from a hit packet.
pub fn parse_hit_packet(p: u64) -> (r: (u8, u8, u32, i64))
    ensures
        r.0 == hit_col(p),
        r.1 == hit_row(p),
        r.2 == hit_tot(p),
        r.3 == hit_toa(p),
        0 <= r.3 < MAX_RAW_TOA,
{
    let pix: u64 = (p >> 44) & 0x7;
    assert((p & 0x0FE0_0000_0000_0000) >> 52 <= 0xFE && ((p >> 44) & 0x7) >> 2 <= 1) by (bit_vector);
    let col: u64 = ((p & 0x0FE0_0000_0000_0000) >> 52) + (pix >> 2);
    assert((p & 0x001F_8000_0000_0000) >> 45 <= 0xFC && ((p >> 44) & 0x7) & 0x3 <= 3) by (bit_vector);
    let row: u64 = ((p & 0x001F_8000_0000_0000) >> 45) + (pix & 0x3);
    assert((p >> 20) & 0x3FF <= 0x3FF) by (bit_vector);
    let tot: u64 = ((p >> 20) & 0x3FF) * 25;
    let fine: u64 = (((p >> 30) & 0x3FFF) << 4) | (!(p >> 16) & 0xF);
    assert((((p >> 30) & 0x3FFF) << 4) | (!(p >> 16) & 0xF) <= 0x3FFFF) by (bit_vector);
    let coa: u64 = fine * 25_000;
    assert(coa >> 4 == coa / 16) by (bit_vector);
    assert(p & 0xFFFF <= 0xFFFF) by (bit_vector);
    let toa: u64 = (p & 0xFFFF) * 409_600_000 + (coa >> 4);
    (col as u8, row as u8, tot as u32, toa as i64)
}

/// Extracts `(raw_tdc_ps, trigger_counter)` from a TDC packet.
pub fn parse_tdc_packet(p: u64) -> (r: (i64, u64))
    ensures
        r.0 == tdc_time(p),
        r.1 == tdc_trigger(p),
        0 <= r.0 < TDC_LIMIT,
{
    let trigger_number: u64 = (p >> 44) & 0x0FFF;
    let coarsetime: u64 = (p >> 12) & 0xFFFF_FFFF;
    let nib: u64 = (p >> 5) & 0xF;
    let expansion: u64 = if nib == 0 {
        0xFFFF_FFFF_FFFF_FFFFu64 << 9
    } else {
        (nib - 1) << 9
    };
    assert((p >> 5) & 0xF <= 0xF) by (bit_vector);
    let finetime: u64 = expansion / 12;
    let trigtime: u64 = (p & 0xE00) | (finetime & 0x1FF);
    assert((p & 0xE00) | (expansion / 12 & 0x1FF) <= 0xFFF) by (bit_vector);
    let add_bit: u64 = if expansion % 12 == 0 && expansion < 1023 {
        0
    } else {
        1
    };
    assert((p >> 12) & 0xFFFF_FFFF <= 0xFFFF_FFFF) by (bit_vector);
    let tdc: u64 = (coarsetime * 1000 + (trigtime * 1000) / 4096) * 25 + add_bit;
    (tdc as i64, trigger_number)
}

/// Whether the raw ToA of a new hit indicates one more wrap of the ToA clock:
/// the raw value jumped backwards by more than `CHECK`, and crediting one more
/// wrap keeps the hit within `ROLL` of the current pulse time.
pub open spec fn spec_roll(toa: int, ptoa: int, hrol: int, tdc: int, trol: int) -> int {
    if toa + CHECK < ptoa && (toa + (hrol + 1) * HIT_LIMIT) - (tdc + trol * TDC_LIMIT) < ROLL {
        1
    } else {
        0
    }
}

/// Returns 1 when the ToA rollover counter must advance for this hit, else 0.
pub fn roll(toa: i64, ptoa: i64, hrol: i64, tdc: i64, trol: i64) -> (r: i64)
    requires
        0 <= toa < MAX_RAW_TOA,
        0 <= ptoa < MAX_RAW_TOA,
        0 <= hrol <= MAX_HROLLS,
        0 <= tdc < TDC_LIMIT,
        0 <= trol <= MAX_TROLLS,
    ensures
        r == spec_roll(toa as int, ptoa as int, hrol as int, tdc as int, trol as int),
{
    let wrapped: bool = toa + CHECK < ptoa;
    let credited: i64 = toa + (hrol + 1) * HIT_LIMIT;
    let pulse_time: i64 = tdc + trol * TDC_LIMIT;
    if wrapped && credited - pulse_time < ROLL {
        1
    } else {
        0
    }
}

/// The fine ToA counter survives the encoder's division chain: scaling a
/// counter `x` into picoseconds and back through the 1562 ps steps with the
/// half-step correction returns exactly `x`.
proof fn lemma_fine_counter_recovered(x: int)
    requires
        0 <= x < 0x40000,
    ensures
        ({
            let m = (x * 25_000) / 16;
            let r = m / 1562;
            r - r / 3125 == x
        }),
{
    let m = (x * 25_000) / 16;
    // m == 1562 * x + x / 2
    lemma_fundamental_div_mod_converse(8 * x, 16, x / 2, 8 * (x % 2));
    lemma_fundamental_div_mod_converse(x * 25_000, 16, 1562 * x + (8 * x) / 16, 8 * (x % 2));
    assert(m == 1562 * x + x / 2);
    // r == x + x / 3124
    let r = m / 1562;
    lemma_fundamental_div_mod_converse(m, 1562, x + (x / 2) / 1562, (x / 2) % 1562);
    lemma_div_denominator(x, 2, 1562);
    assert(r == x + x / 3124);
    // the correction removes exactly x / 3124
    let q = x / 3124;
    let s = x % 3124;
    lemma_fundamental_div_mod_converse(r, 3125, q, s);
}

/// Re-encoding the fields decoded from a hit packet reproduces the packet,
/// bit for bit.
pub proof fn lemma_hit_packet_round_trip(p: u64, h: Hit)
    requires
        p >> 60 == 0xB,
        h.toa == hit_toa(p),
        h.tot == hit_tot(p),
        h.col == hit_col(p),
        h.row == hit_row(p),
        0 <= h.toa,
    ensures
        spec_hit_packet(h) == p,
{
    let x = hit_fine_counter(p);
    let g = p & 0xFFFF;
    let t = (p >> 20) & 0x3FF;
    assert(x < 0x40000 && g <= 0xFFFF && t <= 0x3FF) by (bit_vector)
        requires
            x == (((p >> 30) & 0x3FFF) << 4) | (!(p >> 16) & 0xF),
            g == p & 0xFFFF,
            t == (p >> 20) & 0x3FF,
    ;
    let m = (x * 25_000) / 16;
    assert(m >= 0) by {
        lemma_div_pos_is_pos(x * 25_000, 16);
    }
    assert(m <= 409_598_437) by {
        lemma_div_is_ordered(x * 25_000, 0x3FFFFint * 25_000, 16);
    }
    // the absolute raw time splits back into global time and fine remainder
    assert(h.toa == g * 409_600_000 + m);
    assert(h.toa < HIT_LIMIT);
    let toau = ((h.toa % HIT_LIMIT) as u64);
    assert(h.toa % HIT_LIMIT == h.toa as int) by {
        lemma_fundamental_div_mod_converse(h.toa as int, HIT_LIMIT as int, 0, h.toa as int);
    }
    lemma_fundamental_div_mod_converse(toau as int, 409_600_000, g as int, m);
    assert(toau / 409_600_000 == g);
    assert(toau % 409_600_000 == m as u64);
    // the division chain returns the fine counter
    let r = (toau % 409_600_000) / 1562;
    lemma_fine_counter_recovered(x as int);
    assert(r - r / 3125 == x);
    let rem2 = ((r - r / 3125) as u64);
    assert(rem2 == x);
    // the ToT field also survives its scaling
    let totu = h.tot as u64;
    assert(totu == t * 25);
    assert((t * 25) as u64 / 25 == t) by {
        lemma_div_by_multiple(t as int, 25);
    }
    assert(totu / 25 % 1024 == t) by {
        lemma_fundamental_div_mod_converse(t as int, 1024, 0, t as int);
    }
    // reassemble all bit fields
    let cu = h.col as u64;
    let ru = h.row as u64;
    assert((0xBu64 << 60) | (((cu - (((cu % 2) << 2) | (ru % 4)) / 4) as u64) << 52) | (((ru - ((((
    cu % 2) << 2) | (ru % 4)) & 0x3)) as u64) << 45) | ((((cu % 2) << 2) | (ru % 4)) << 44) | (((x
        & !0xF) >> 4) << 30) | (t << 20) | ((!x & 0xF) << 16) | g == p) by (bit_vector)
        requires
            p >> 60 == 0xB,
            x == (((p >> 30) & 0x3FFF) << 4) | (!(p >> 16) & 0xF),
            g == p & 0xFFFF,
            t == (p >> 20) & 0x3FF,
            cu == ((p & 0x0FE0_0000_0000_0000) >> 52) + (((p >> 44) & 0x7) >> 2),
            ru == ((p & 0x001F_8000_0000_0000) >> 45) + (((p >> 44) & 0x7) & 0x3),
    ;
    assert(spec_hit_packet(h) == p);
}

/// Re-encoding a hit updated by a blob packet reproduces the blob packet,
/// provided the hit's ToT before the update was below one coarse step (as it
/// is for any hit decoded from a hit packet) and the summand fits.
pub proof fn lemma_blob_packet_round_trip(p: u64, base: Hit, upd: Hit)
    requires
        p >> 56 == 0xCA,
        base.tot < 25_600,
        base.tot + ((p >> 16) & 0x00FF_FFFF) * 25_600 <= u32::MAX,
        upd == (Hit {
            tot: (base.tot + ((p >> 16) & 0x00FF_FFFF) * 25_600) as u32,
            col_offset: ((p >> 48) & 0xFF) as u8,
            row_offset: ((p >> 40) & 0xFF) as u8,
            size: (p & 0xFFFF) as u16,
            ..base
        }),
    ensures
        spec_blob_packet(upd) == p,
{
    let c = (p >> 16) & 0x00FF_FFFF;
    assert((p >> 16) & 0x00FF_FFFF <= 0x00FF_FFFF && (p >> 48) & 0xFF <= 0xFF && (p >> 40) & 0xFF
        <= 0xFF && p & 0xFFFF <= 0xFFFF) by (bit_vector);
    assert(upd.tot == base.tot + c * 25_600);
    assert((upd.tot as u64) / 25_600 == c) by {
        lemma_fundamental_div_mod_converse(upd.tot as int, 25_600, c as int, base.tot as int);
    }
    let co = upd.col_offset as u64;
    let ro = upd.row_offset as u64;
    let sz = upd.size as u64;
    assert((0xCAu64 << 56) | (co << 48) | (ro << 40) | ((c & 0x00FF_FFFF) << 16) | sz == p)
        by (bit_vector)
        requires
            p >> 56 == 0xCA,
            c == (p >> 16) & 0x00FF_FFFF,
            co == (p >> 48) & 0xFF,
            ro == (p >> 40) & 0xFF,
            sz == p & 0xFFFF,
    ;
    assert(spec_blob_packet(upd) == p);
}

} // verus!
