//! Image-buffer bookkeeping for rasterized hits: dead-pixel gating, total-ion
//! counting, per-mass windowing with the branch-free interval check, and the
//! masking image that finds overactive pixels.
use vstd::prelude::*;
use vstd::pervasive::VecAdditionalExecFns;
use crate::hit::Hit;
use crate::hit::spec_to_cr;
use crate::pulse::Pulse;

verus! {

/// Strict interval test: `low < value < high`.
pub fn is_between(value: i64, high: i64, low: i64) -> (r: bool)
    ensures
        r == (low < value < high),
{
    value < high && value > low
}

/// The branch-free window check: `v - (pt - ptw)` under 64-bit wrap-around
/// is below `2 * ptw`.
pub open spec fn spec_betwix(v: u64, pt: u64, ptw: u64) -> bool {
    let lo = pt - ptw;
    let wrapped = if v >= lo {
        v - lo
    } else {
        v + 0x1_0000_0000_0000_0000 - lo
    };
    wrapped < 2 * ptw
}

/// Whether `v` lies in the window of half-width `ptw` around `pt`, computed
/// without branches under wrap-around arithmetic.
pub fn betwix(v: u64, pt: u64, ptw: u64) -> (r: bool)
    requires
        ptw <= pt,
        ptw + ptw <= u64::MAX,
    ensures
        r == spec_betwix(v, pt, ptw),
{
    let r = v.wrapping_sub(pt - ptw) < ptw + ptw;
    proof {
        let lo = (pt - ptw) as u64;
        assert(v.wrapping_sub(lo) == if v >= lo {
            (v - lo) as u64
        } else {
            (v + 0x1_0000_0000_0000_0000 - lo) as u64
        }) by (bit_vector);
    }
    r
}

/// The branch-free check is exactly the half-open window around the peak.
pub proof fn lemma_betwix_is_window(v: u64, pt: u64, ptw: u64)
    requires
        ptw <= pt,
        pt + ptw <= u64::MAX,
    ensures
        spec_betwix(v, pt, ptw) <==> pt - ptw <= v < pt + ptw,
{
}

/// Whether a rasterized hit survives the image filters: aggregated hits
/// (`size > 1`) bypass the dead-pixel mask, single hits must not be dead,
/// and the target cell must lie inside the buffer.
pub open spec fn spec_hit_counted(
    hit: Hit,
    icol: int,
    irow: int,
    cols: int,
    rows: int,
    dead_pixels: Seq<u16>,
) -> bool {
    &&& (hit.size > 1 || !(exists|i: int|
        0 <= i < dead_pixels.len() && dead_pixels[i] == spec_to_cr(hit)))
    &&& irow < rows
    &&& icol < cols
}

/// Adds one rasterized hit to the total-ion-count buffer: the surviving
/// hit's cell counter rises by one, wrapping at 16 bits; a filtered hit
/// leaves the buffer untouched.
pub fn tic_accumulate_hit(
    buffer: &mut Vec<u16>,
    cols: usize,
    rows: usize,
    hit: &Hit,
    icol: usize,
    irow: usize,
    dead_pixels: &[u16],
) -> (counted: bool)
    requires
        old(buffer)@.len() == cols * rows,
        cols * rows <= usize::MAX,
    ensures
        counted == spec_hit_counted(
            *hit,
            icol as int,
            irow as int,
            cols as int,
            rows as int,
            dead_pixels@,
        ),
        counted ==> final(buffer)@ == old(buffer)@.update(
            icol + irow * (cols as int),
            old(buffer)@[icol + irow * (cols as int)].wrapping_add(1),
        ),
        !counted ==> final(buffer)@ == old(buffer)@,
{
    if (hit.size > 1 || !hit.is_dead(dead_pixels)) && irow < rows && icol < cols {
        proof {
            lemma_cell_in_buffer(icol as int, irow as int, cols as int, rows as int);
        }
        let idx = icol + irow * cols;
        let cell = buffer[idx].wrapping_add(1);
        buffer.set(idx, cell);
        true
    } else {
        false
    }
}

/// A cell with a column inside the row and a row inside the image indexes
/// into a row-major buffer of `cols * rows` cells.
proof fn lemma_cell_in_buffer(icol: int, irow: int, cols: int, rows: int)
    requires
        0 <= icol < cols,
        0 <= irow < rows,
    ensures
        0 <= icol + irow * cols < cols * rows,
{
    assert(icol + irow * cols < cols * rows) by (nonlinear_arith)
        requires
            0 <= icol < cols && 0 <= irow < rows,
    ;
    assert(icol + irow * cols >= 0) by (nonlinear_arith)
        requires
            0 <= icol && 0 <= irow && cols > 0,
    ;
}

/// The per-hit window time the mass imager uses: the time of flight pushed
/// through a 32-bit truncation, folded by the period, and reinterpreted as
/// an unsigned 64-bit value (negative remainders become huge and fall
/// outside every window).
pub open spec fn spec_window_time(toa: int, time: int, tof_pulse_length: i32) -> u64 {
    let d32 = (toa - time) as i32;
    let m: int = if d32 >= 0 {
        (d32 as int) % (tof_pulse_length as int)
    } else {
        -((-(d32 as int)) % (tof_pulse_length as int))
    };
    (m as i64) as u64
}

/// Computes the window time of one hit against its pulse.
pub fn hit_window_time(toa: i64, time: i64, tof_pulse_length: i32) -> (t: u64)
    requires
        tof_pulse_length >= 1,
        toa >= 0,
        time >= 0,
    ensures
        t == spec_window_time(toa as int, time as int, tof_pulse_length),
{
    let d32: i32 = #[verifier::truncate] ((toa - time) as i32);
    let d: i64 = d32 as i64;
    let tpl: i64 = tof_pulse_length as i64;
    let m: i64 = if d >= 0 {
        d % tpl
    } else {
        -((-d) % tpl)
    };
    m as u64
}

/// The per-mass buffers after one hit is folded in: for every peak whose
/// window holds `t`, the hit's cell in that peak's page rises by one.
pub open spec fn spec_mass_accumulate(
    buffers: Seq<u16>,
    pts: Seq<i64>,
    j: int,
    t: u64,
    ptw: u64,
    cell: int,
    page: int,
) -> Seq<u16>
    decreases j,
{
    if j <= 0 {
        buffers
    } else {
        let prev = spec_mass_accumulate(buffers, pts, j - 1, t, ptw, cell, page);
        if spec_betwix(t, pts[j - 1] as u64, ptw) {
            prev.update(cell + page * (j - 1), prev[cell + page * (j - 1)].wrapping_add(1))
        } else {
            prev
        }
    }
}

/// Adds one rasterized, filter-surviving hit to every per-mass buffer whose
/// time window holds the hit's window time. Pages are laid out with the peak
/// index as the slowest axis.
pub fn mass_accumulate_hit(
    buffers: &mut Vec<u16>,
    cols: usize,
    rows: usize,
    pts: &[i64],
    ptw: u64,
    t: u64,
    icol: usize,
    irow: usize,
) -> (counted: bool)
    requires
        old(buffers)@.len() == cols * rows * pts@.len(),
        cols * rows <= usize::MAX,
        ptw + ptw <= u64::MAX,
        forall|j: int| 0 <= j < pts@.len() ==> ptw <= (#[trigger] pts@[j] as u64),
    ensures
        counted == (irow < rows && icol < cols),
        counted ==> final(buffers)@ == spec_mass_accumulate(
            old(buffers)@,
            pts@,
            pts@.len() as int,
            t,
            ptw,
            icol + irow * (cols as int),
            (cols as int) * (rows as int),
        ),
        !counted ==> final(buffers)@ == old(buffers)@,
{
    if !(irow < rows && icol < cols) {
        return false;
    }
    proof {
        lemma_cell_in_buffer(icol as int, irow as int, cols as int, rows as int);
    }
    let cell = icol + irow * cols;
    let page = cols * rows;
    let n = pts.len();
    let total = buffers.len();
    proof {
        assert(total == (page as int) * n);
    }
    let mut j: usize = 0;
    while j < n
        invariant
            n == pts@.len(),
            0 <= j <= n,
            buffers@.len() == (cols as int) * (rows as int) * n,
            (page as int) * n <= usize::MAX,
            cell == icol + irow * (cols as int),
            page == (cols as int) * (rows as int),
            0 <= cell < page,
            ptw + ptw <= u64::MAX,
            forall|k: int| 0 <= k < n ==> ptw <= (#[trigger] pts@[k] as u64),
            buffers@ == spec_mass_accumulate(
                old(buffers)@,
                pts@,
                j as int,
                t,
                ptw,
                cell as int,
                page as int,
            ),
        decreases n - j,
    {
        let pt = pts[j] as u64;
        if betwix(t, pt, ptw) {
            proof {
                lemma_page_cell_in_buffers(cell as int, page as int, j as int, n as int);
            }
            let idx = cell + page * j;
            let v = buffers[idx].wrapping_add(1);
            buffers.set(idx, v);
        }
        j = j + 1;
    }
    true
}

/// A cell inside a page indexes into the page stack.
proof fn lemma_page_cell_in_buffers(cell: int, page: int, j: int, n: int)
    requires
        0 <= cell < page,
        0 <= j < n,
    ensures
        0 <= cell + page * j < page * n,
        cell + page * j < page * n,
{
    assert(cell + page * j < page * n && 0 <= cell + page * j) by (nonlinear_arith)
        requires
            0 <= cell < page && 0 <= j < n,
    ;
}

/// The masking-image buffer after one pulse: every uncompressed hit
/// (`size < 2`) raises its detector pixel's counter.
pub open spec fn spec_mask_accumulate(buffer: Seq<usize>, hits: Seq<Hit>) -> Seq<usize>
    decreases hits.len(),
{
    if hits.len() == 0 {
        buffer
    } else {
        let prev = spec_mask_accumulate(buffer, hits.drop_last());
        let h = hits.last();
        if h.size < 2 {
            let idx = h.col + (h.row as int) * 256;
            prev.update(idx, (prev[idx] + 1) as usize)
        } else {
            prev
        }
    }
}

/// Folds one pulse into the 256 x 256 masking image that counts raw hits
/// per detector pixel.
pub fn mask_accumulate_pulse(buffer: &mut Vec<usize>, pulse: &Pulse)
    requires
        old(buffer)@.len() == 65536,
        forall|k: int|
            0 <= k < 65536 ==> #[trigger] old(buffer)@[k] + pulse.hits@.len() <= usize::MAX,
    ensures
        final(buffer)@ == spec_mask_accumulate(old(buffer)@, pulse.hits@),
{
    let n = pulse.hits.len();
    let mut i: usize = 0;
    while i < n
        invariant
            n == pulse.hits@.len(),
            0 <= i <= n,
            buffer@.len() == 65536,
            buffer@ == spec_mask_accumulate(old(buffer)@, pulse.hits@.take(i as int)),
            forall|k: int| 0 <= k < 65536 ==> #[trigger] buffer@[k] <= old(buffer)@[k] + i,
            forall|k: int|
                0 <= k < 65536 ==> #[trigger] old(buffer)@[k] + pulse.hits@.len() <= usize::MAX,
        decreases n - i,
    {
        let h = &pulse.hits[i];
        if h.size < 2 {
            let idx = (h.col as usize) + (h.row as usize) * 256;
            let v = buffer[idx] + 1;
            buffer.set(idx, v);
        }
        proof {
            assert(pulse.hits@.take(i + 1).drop_last() =~= pulse.hits@.take(i as int));
            assert(pulse.hits@.take(i + 1).last() == pulse.hits@[i as int]);
        }
        i = i + 1;
    }
    proof {
        assert(pulse.hits@.take(n as int) =~= pulse.hits@);
    }
}

/// Scales the masking image down by thousandths of the pulse count, as the
/// noise threshold is calibrated per thousand pulses.
pub fn mask_finalize(buffer: &Vec<usize>, pulse_count: usize) -> (r: Vec<usize>)
    requires
        pulse_count >= 1000,
    ensures
        r@.len() == buffer@.len(),
        forall|k: int|
            0 <= k < buffer@.len() ==> #[trigger] r@[k] == buffer@[k] as int / (pulse_count as int
                / 1000),
{
    let div = pulse_count / 1000;
    let n = buffer.len();
    let mut out: Vec<usize> = Vec::new();
    let mut i: usize = 0;
    while i < n
        invariant
            n == buffer@.len(),
            0 <= i <= n,
            div == pulse_count as int / 1000,
            div >= 1,
            out@.len() == i,
            forall|k: int|
                0 <= k < i ==> #[trigger] out@[k] == buffer@[k] as int / (pulse_count as int
                    / 1000),
        decreases n - i,
    {
        out.push(buffer[i] / div);
        i = i + 1;
    }
    out
}

/// The packed dead-pixel codes of a masking image: scaled counts above the
/// noise threshold, packed as `col * 256 + row` where the flat index is
/// `col + row * 256`.
pub open spec fn spec_dead_pixels(mask: Seq<usize>, i: int) -> Seq<u16>
    decreases i,
{
    if i <= 0 {
        Seq::empty()
    } else {
        let prev = spec_dead_pixels(mask, i - 1);
        if mask[i - 1] > 7 {
            prev.push((((i - 1) % 256) * 256 + (i - 1) / 256) as u16)
        } else {
            prev
        }
    }
}

/// Finds the overactive pixels of a scaled masking image and packs their
/// coordinates for the dead-pixel filter.
pub fn dead_pixels_from_mask(mask: &Vec<usize>) -> (r: Vec<u16>)
    requires
        mask@.len() == 65536,
    ensures
        r@ == spec_dead_pixels(mask@, 65536),
{
    let mut out: Vec<u16> = Vec::new();
    let mut i: usize = 0;
    while i < 65536
        invariant
            mask@.len() == 65536,
            0 <= i <= 65536,
            out@ == spec_dead_pixels(mask@, i as int),
        decreases 65536 - i,
    {
        if mask[i] > 7 {
            let code: u16 = (((i % 256) as u16) << 8) | ((i / 256) as u16);
            proof {
                let m = (i % 256) as u16;
                let d = (i / 256) as u16;
                assert((m << 8) | d == m * 256 + d) by (bit_vector)
                    requires
                        m <= 255 && d <= 255,
                ;
            }
            out.push(code);
        }
        i = i + 1;
    }
    out
}

} // verus!
