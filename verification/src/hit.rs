//! One detector event: decoding partner of the hit and blob packets,
//! proximity on the wrapping pixel grid, and dead-pixel lookup.
use vstd::prelude::*;
use crate::codec::HIT_LIMIT;

verus! {

/// One detector event after decoding.
#[derive(Clone, Copy, Debug, PartialEq, Eq, Structural)]
pub struct Hit {
    /// Time of arrival in picoseconds, rollover-corrected.
    pub toa: i64,
    /// Time over threshold in nanoseconds.
    pub tot: u32,
    /// Position within the owning pulse's hit list.
    pub index: u32,
    /// Cluster id inside the pulse; 0 means unlabelled.
    pub label: u16,
    /// Number of raw hits combined into this one; 0 or 1 means uncompressed.
    pub size: u16,
    /// Detector column in 0..=255.
    pub col: u8,
    /// Detector row in 0..=255.
    pub row: u8,
    /// Sub-pixel column offset in units of 1/255.
    pub col_offset: u8,
    /// Sub-pixel row offset in units of 1/255.
    pub row_offset: u8,
}

/// Difference `a - b` on the 256-wrapping pixel axis.
pub open spec fn wrap_diff(a: u8, b: u8) -> u8 {
    if a >= b {
        (a - b) as u8
    } else {
        (256 + a - b) as u8
    }
}

/// Distance between two coordinates on the 256-cycle: the shorter way round.
pub open spec fn torus_dist(a: u8, b: u8) -> int {
    if wrap_diff(a, b) <= wrap_diff(b, a) {
        wrap_diff(a, b) as int
    } else {
        wrap_diff(b, a) as int
    }
}

/// Two hits are proximal when their wrapping column and row differences both
/// lie in {-1, 0, 1} and are not both 0.
pub open spec fn spec_is_proximal(a: Hit, b: Hit) -> bool {
    let dc = wrap_diff(a.col, b.col);
    let dr = wrap_diff(a.row, b.row);
    (dc == 1 || dc == 0 || dc == 255) && (dr == 1 || dr == 0 || dr == 255) && !(dc == 0 && dr
        == 0)
}

/// Packed column-row code of a hit: `col * 256 + row`.
pub open spec fn spec_to_cr(h: Hit) -> u16 {
    (h.col * 256 + h.row) as u16
}

/// The hit packet encoding a hit, as the TPX3C writer emits it.
pub open spec fn spec_hit_packet(h: Hit) -> u64 {
    let toa = ((h.toa % HIT_LIMIT) as u64);
    let tot = h.tot as u64;
    let col = h.col as u64;
    let row = h.row as u64;
    let pix = ((col % 2) << 2) | (row % 4);
    let col_bits = ((col - pix / 4) as u64) << 52;
    let row_bits = ((row - (pix & 0x3)) as u64) << 45;
    let tot_bits = ((tot / 25) % 1024) << 20;
    let global_time = toa / 409_600_000;
    let remainder = (toa % 409_600_000) / 1562;
    let remainder = ((remainder - remainder / 3125) as u64);
    let fta_bit = (!remainder & 0xF) << 16;
    let cta_bit = ((remainder & !0xF) >> 4) << 30;
    (0xBu64 << 60) | col_bits | row_bits | (pix << 44) | cta_bit | tot_bits | fta_bit
        | global_time
}

/// The blob packet encoding the centroided extras of a hit: offsets, the
/// coarse ToT summand in 25600 ns units, and the cluster size.
pub open spec fn spec_blob_packet(h: Hit) -> u64 {
    (0xCAu64 << 56) | ((h.col_offset as u64) << 48) | ((h.row_offset as u64) << 40) | ((((
    h.tot as u64) / 25_600) & 0x00FF_FFFF) << 16) | (h.size as u64)
}

impl Hit {
    /// A fresh, unlabelled, uncompressed hit.
    pub fn new(index: u32, toa: i64, tot: u32, col: u8, row: u8) -> (h: Hit)
        ensures
            h == (Hit { index, toa, tot, col, row, label: 0, size: 0, col_offset: 0, row_offset: 0 }),
    {
        Hit { index, toa, tot, col, row, label: 0, size: 0, col_offset: 0, row_offset: 0 }
    }

    /// Packs the hit into a hit packet.
    pub fn to_hit_packet(self) -> (r: u64)
        requires
            0 <= self.toa,
        ensures
            r == spec_hit_packet(self),
    {
        let header: u64 = 0xBu64 << 60;
        let toa: u64 = (self.toa % HIT_LIMIT) as u64;
        let tot: u64 = self.tot as u64;
        let col: u64 = self.col as u64;
        let row: u64 = self.row as u64;
        let pix: u64 = ((col % 2) << 2) | (row % 4);
        proof {
            let c2 = col % 2;
            let r4 = row % 4;
            assert(((c2 << 2) | r4) / 4 == c2 && ((c2 << 2) | r4) & 0x3 == r4 && ((c2 << 2) | r4)
                <= 7) by (bit_vector)
                requires
                    c2 <= 1 && r4 <= 3,
            ;
        }
        let col_bits: u64 = (col - pix / 4) << 52;
        let row_bits: u64 = (row - (pix & 0x3)) << 45;
        let tot_bits: u64 = ((tot / 25) % 1024) << 20;
        let global_time: u64 = toa / 409_600_000;
        let remainder: u64 = (toa % 409_600_000) / 1562;
        assert(remainder / 3125 <= remainder) by (bit_vector);
        let remainder: u64 = remainder - remainder / 3125;
        let fta_bit: u64 = (!remainder & 0xF) << 16;
        let cta_bit: u64 = ((remainder & !0xF) >> 4) << 30;
        header | col_bits | row_bits | (pix << 44) | cta_bit | tot_bits | fta_bit | global_time
    }

    /// Packs the centroided extras into the blob packet that follows the hit
    /// packet in the compressed stream.
    pub fn to_blob_packet(self) -> (r: u64)
        ensures
            r == spec_blob_packet(self),
    {
        let header: u64 = 0xCAu64 << 56;
        let col_offset_bits: u64 = (self.col_offset as u64) << 48;
        let row_offset_bits: u64 = (self.row_offset as u64) << 40;
        let tot_coarse: u64 = (((self.tot as u64) / 25_600) & 0x00FF_FFFF) << 16;
        let size: u64 = self.size as u64;
        header | col_offset_bits | row_offset_bits | tot_coarse | size
    }

    /// Folds a blob packet into the preceding hit: adds the coarse ToT
    /// summand and takes the offsets and cluster size.
    pub fn update_with_blob_packet(&mut self, packet: u64)
        requires
            old(self).tot + ((packet >> 16) & 0x00FF_FFFF) * 25_600 <= u32::MAX,
        ensures
            *final(self) == (Hit {
                tot: (old(self).tot + ((packet >> 16) & 0x00FF_FFFF) * 25_600) as u32,
                col_offset: ((packet >> 48) & 0xFF) as u8,
                row_offset: ((packet >> 40) & 0xFF) as u8,
                size: (packet & 0xFFFF) as u16,
                ..*old(self)
            }),
    {
        assert((packet >> 16) & 0x00FF_FFFF <= 0x00FF_FFFF && (packet >> 48) & 0xFF <= 0xFF && (
        packet >> 40) & 0xFF <= 0xFF && (packet & 0xFFFF) <= 0xFFFF) by (bit_vector);
        self.tot = self.tot + (((packet >> 16) & 0x00FF_FFFF) * 25_600) as u32;
        self.col_offset = ((packet >> 48) & 0xFF) as u8;
        self.row_offset = ((packet >> 40) & 0xFF) as u8;
        self.size = (packet & 0xFFFF) as u16;
    }

    /// Whether two hits are exactly one step apart (including diagonals) on
    /// the wrapping pixel grid.
    pub fn is_proximal(&self, other: &Hit) -> (r: bool)
        ensures
            r == spec_is_proximal(*self, *other),
    {
        let dc: u8 = self.col.wrapping_sub(other.col);
        let dr: u8 = self.row.wrapping_sub(other.row);
        proof {
            let ac = self.col;
            let bc = other.col;
            let ar = self.row;
            let br = other.row;
            assert(dc == wrap_diff(ac, bc) && dr == wrap_diff(ar, br)) by (bit_vector)
                requires
                    dc == ac.wrapping_sub(bc) && dr == ar.wrapping_sub(br),
            ;
        }
        matches!((dc, dr), (1, 0 | 1 | 255) | (0, 1 | 255) | (255, 0 | 1 | 255))
    }

    /// A copy of this hit moved to the given pixel with the given ToT and
    /// cleared sub-pixel offsets.
    pub fn make_proximal(&self, col: u8, row: u8, tot: u32) -> (h: Hit)
        ensures
            h == (Hit { col, row, tot, col_offset: 0, row_offset: 0, ..*self }),
    {
        let mut new = *self;
        new.row = row;
        new.col = col;
        new.tot = tot;
        new.col_offset = 0;
        new.row_offset = 0;
        new
    }

    /// Packed column-row code for dead-pixel membership tests.
    pub fn to_cr(&self) -> (r: u16)
        ensures
            r == spec_to_cr(*self),
            r == self.col * 256 + self.row,
    {
        let r: u16 = ((self.col as u16) << 8) | (self.row as u16);
        proof {
            let c = self.col;
            let w = self.row;
            assert(r == (c as u16) * 256 + (w as u16)) by (bit_vector)
                requires
                    r == ((c as u16) << 8) | (w as u16),
            ;
        }
        r
    }

    /// Whether this hit's pixel appears in the dead-pixel list.
    pub fn is_dead(&self, dead_pixels: &[u16]) -> (r: bool)
        ensures
            r == exists|i: int| 0 <= i < dead_pixels@.len() && dead_pixels@[i] == spec_to_cr(*self),
    {
        let cr = self.to_cr();
        let mut i: usize = 0;
        while i < dead_pixels.len()
            invariant
                0 <= i <= dead_pixels@.len(),
                cr == spec_to_cr(*self),
                forall|j: int| 0 <= j < i ==> dead_pixels@[j] != spec_to_cr(*self),
            decreases dead_pixels@.len() - i,
        {
            if dead_pixels[i] == cr {
                return true;
            }
            i = i + 1;
        }
        false
    }
}

/// Step budget for the splat spiral; it exceeds the number of steps needed to
/// sweep every cell of the 256 x 256 grid from any centre, so the budget
/// never runs out before `size` in-bounds cells have been visited.
pub const SPLAT_FUEL: u32 = 600_000;

/// One square-spiral walk around `(h.col, h.row)`, collecting a copy of `h`
/// at every in-bounds cell until `h.size` copies exist (or the step budget is
/// spent), each copy carrying ToT `tot` and no sub-pixel offsets.
pub open spec fn spec_spiral(
    h: Hit,
    tot: u32,
    x: int,
    y: int,
    dx: int,
    dy: int,
    fuel: nat,
    acc: Seq<Hit>,
) -> Seq<Hit>
    decreases fuel,
{
    if acc.len() >= h.size || fuel == 0 {
        acc
    } else {
        let nc = h.col + x;
        let nr = h.row + y;
        let acc2 = if 0 <= nc <= 255 && 0 <= nr <= 255 {
            acc.push(
                Hit { col: nc as u8, row: nr as u8, tot, col_offset: 0, row_offset: 0, ..h },
            )
        } else {
            acc
        };
        let turn = x == y || (x < 0 && x == -y) || (x > 0 && x == 1 - y);
        let dx2 = if turn {
            -dy
        } else {
            dx
        };
        let dy2 = if turn {
            dx
        } else {
            dy
        };
        spec_spiral(h, tot, x + dx2, y + dy2, dx2, dy2, (fuel - 1) as nat, acc2)
    }
}

/// What `quicksplat` returns: the hit itself when `size` is 0, otherwise the
/// spiral of `size` copies sharing the ToT evenly.
pub open spec fn spec_quicksplat(h: Hit) -> Seq<Hit> {
    if h.size == 0 {
        seq![h]
    } else {
        spec_spiral(h, (h.tot / (h.size as u32)) as u32, 0, 0, 0, -1, SPLAT_FUEL as nat, Seq::empty())
    }
}

impl Hit {
    /// Expands a centroided hit back into `size` one-pixel hits arranged in a
    /// square spiral around its centre, clipped to the detector.
    pub fn quicksplat(&self) -> (hits: Vec<Hit>)
        ensures
            hits@ == spec_quicksplat(*self),
    {
        if self.size == 0 {
            let mut hits: Vec<Hit> = Vec::new();
            hits.push(*self);
            proof {
                assert(hits@ =~= seq![*self]);
            }
            return hits;
        }
        let tot: u32 = self.tot / (self.size as u32);
        let mut dx: i32 = 0;
        let mut dy: i32 = -1;
        let mut x: i32 = 0;
        let mut y: i32 = 0;
        let mut fuel: u32 = SPLAT_FUEL;
        let mut hits: Vec<Hit> = Vec::new();
        while hits.len() < self.size as usize && fuel > 0
            invariant
                self.size > 0,
                tot == self.tot / (self.size as u32),
                fuel <= SPLAT_FUEL,
                -2 - (SPLAT_FUEL - fuel) <= x <= 2 + (SPLAT_FUEL - fuel),
                -2 - (SPLAT_FUEL - fuel) <= y <= 2 + (SPLAT_FUEL - fuel),
                -1 <= dx <= 1,
                -1 <= dy <= 1,
                hits@.len() <= self.size,
                spec_spiral(*self, tot, x as int, y as int, dx as int, dy as int, fuel as nat, hits@)
                    == spec_quicksplat(*self),
            decreases fuel,
        {
            let nc: i32 = (self.col as i32) + x;
            let nr: i32 = (self.row as i32) + y;
            if 0 <= nc && nc <= 255 && 0 <= nr && nr <= 255 {
                hits.push(self.make_proximal(nc as u8, nr as u8, tot));
            }
            if x == y || (x < 0 && x == -y) || (x > 0 && x == 1 - y) {
                let t: i32 = dx;
                dx = -dy;
                dy = t;
            }
            x = x + dx;
            y = y + dy;
            fuel = fuel - 1;
        }
        hits
    }
}

/// `wrap_diff` in either direction never strands both differences above 1:
/// one of the two directions is the torus distance.
pub proof fn lemma_wrap_diff_antisymmetric(a: u8, b: u8)
    ensures
        wrap_diff(a, b) == 0 <==> a == b,
        wrap_diff(a, b) != 0 ==> wrap_diff(b, a) == 256 - wrap_diff(a, b),
{
}

/// Proximity is symmetric.
pub proof fn lemma_proximal_symmetric(a: Hit, b: Hit)
    ensures
        spec_is_proximal(a, b) == spec_is_proximal(b, a),
{
    lemma_wrap_diff_antisymmetric(a.col, b.col);
    lemma_wrap_diff_antisymmetric(a.row, b.row);
}

/// Proximity is irreflexive: no hit is proximal to one at its own pixel.
pub proof fn lemma_proximal_irreflexive(a: Hit, b: Hit)
    requires
        a.col == b.col,
        a.row == b.row,
    ensures
        !spec_is_proximal(a, b),
{
}

/// Proximity is exactly Chebyshev distance 1 on the 256-wrapping torus.
pub proof fn lemma_proximal_is_chebyshev_one(a: Hit, b: Hit)
    ensures
        spec_is_proximal(a, b) <==> {
            let d = if torus_dist(a.col, b.col) >= torus_dist(a.row, b.row) {
                torus_dist(a.col, b.col)
            } else {
                torus_dist(a.row, b.row)
            };
            d == 1
        },
{
    lemma_wrap_diff_antisymmetric(a.col, b.col);
    lemma_wrap_diff_antisymmetric(a.row, b.row);
}

} // verus!
