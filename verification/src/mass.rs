//! Mass spectrum over all hits: time-of-flight histogram, zero padding for
//! plotting, and peak picking on the twice-smoothed first difference.
use vstd::prelude::*;
use crate::hit::Hit;
use crate::pulse::Pulse;

verus! {

/// Histogram bin width in picoseconds.
pub const TIME_BIN_WIDTH: i64 = 1563;

/// The running-maximum fold: the maximum is replaced whenever the new
/// value is at least as large, so ties keep the last position.
pub open spec fn argmax_fold(s: Seq<u32>, i: int) -> (int, u32)
    decreases i,
{
    if i <= 1 {
        (0, s[0])
    } else {
        let (mi, mv) = argmax_fold(s, i - 1);
        if mv > s[i - 1] {
            (mi, mv)
        } else {
            (i - 1, s[i - 1])
        }
    }
}

/// The fold lands on an element that no element of the prefix exceeds.
pub proof fn lemma_argmax_fold_props(s: Seq<u32>, i: int)
    requires
        1 <= i <= s.len(),
    ensures
        0 <= argmax_fold(s, i).0 < i,
        s[argmax_fold(s, i).0] == argmax_fold(s, i).1,
        forall|j: int| 0 <= j < i ==> s[j] <= argmax_fold(s, i).1,
    decreases i,
{
    if i > 1 {
        lemma_argmax_fold_props(s, i - 1);
    }
}

/// Index and value of the largest element; among equals, the last one.
pub fn argmax_u32(slice: &[u32]) -> (r: (usize, u32))
    requires
        slice@.len() >= 1,
    ensures
        r.0 == argmax_fold(slice@, slice@.len() as int).0,
        r.1 == argmax_fold(slice@, slice@.len() as int).1,
        r.0 < slice@.len(),
        slice@[r.0 as int] == r.1,
        forall|j: int| 0 <= j < slice@.len() ==> slice@[j] <= r.1,
{
    let n = slice.len();
    let mut idx_max: usize = 0;
    let mut val_max: u32 = slice[0];
    let mut i: usize = 1;
    while i < n
        invariant
            n == slice@.len(),
            1 <= n,
            1 <= i <= n,
            idx_max < i,
            (idx_max as int, val_max) == argmax_fold(slice@, i as int),
        decreases n - i,
    {
        let val = slice[i];
        if !(val_max > val) {
            idx_max = i;
            val_max = val;
        }
        i = i + 1;
    }
    proof {
        lemma_argmax_fold_props(slice@, n as int);
    }
    (idx_max, val_max)
}

/// Rust-style truncated remainder for a hit's time of flight against the
/// pulse period: negative differences keep their sign.
pub open spec fn spec_tof(toa: int, time: int, tpl: int) -> int {
    let d = toa - time;
    if d >= 0 {
        d % tpl
    } else {
        -((-d) % tpl)
    }
}

/// The histogram bin start a hit lands in, or -1 when the negative-ToF
/// firmware artifact drops it.
pub open spec fn spec_bin(toa: int, time: int, tpl: int) -> int {
    let tof = spec_tof(toa, time, tpl);
    if tof < 0 {
        -1
    } else {
        (tof / (TIME_BIN_WIDTH as int)) * (TIME_BIN_WIDTH as int)
    }
}

/// Number of hits of the sequence that land in the bin starting at `t`.
pub open spec fn hits_bin_count(hits: Seq<Hit>, time: int, tpl: int, t: int) -> int
    decreases hits.len(),
{
    if hits.len() == 0 {
        0
    } else {
        hits_bin_count(hits.drop_last(), time, tpl, t) + if spec_bin(
            hits.last().toa as int,
            time,
            tpl,
        ) == t {
            1int
        } else {
            0int
        }
    }
}

/// Number of hits over all pulses that land in the bin starting at `t`.
pub open spec fn pulses_bin_count(pulses: Seq<Pulse>, tpl: int, t: int) -> int
    decreases pulses.len(),
{
    if pulses.len() == 0 {
        0
    } else {
        pulses_bin_count(pulses.drop_last(), tpl, t) + hits_bin_count(
            pulses.last().hits@,
            pulses.last().time as int,
            tpl,
            t,
        )
    }
}

/// Total number of hits over all pulses.
pub open spec fn total_hits(pulses: Seq<Pulse>) -> int
    decreases pulses.len(),
{
    if pulses.len() == 0 {
        0
    } else {
        total_hits(pulses.drop_last()) + pulses.last().hits@.len()
    }
}

/// Every pulse time and hit time of the sequence is nonnegative, as the
/// decoder guarantees.
pub open spec fn pulses_times_ok(pulses: Seq<Pulse>) -> bool {
    forall|i: int|
        0 <= i < pulses.len() ==> (#[trigger] pulses[i]).time >= 0 && forall|j: int|
            0 <= j < pulses[i].hits@.len() ==> (#[trigger] pulses[i].hits@[j]).toa >= 0
}

/// Keys of the accumulator: nonnegative bin starts, strictly ascending.
pub open spec fn sorted_keys(bins: Seq<(i64, u32)>) -> bool {
    &&& forall|k1: int, k2: int|
        0 <= k1 < k2 < bins.len() ==> (#[trigger] bins[k1]).0 < (#[trigger] bins[k2]).0
    &&& forall|k: int| 0 <= k < bins.len() ==> (#[trigger] bins[k]).0 >= 0
}

/// The count recorded for key `t`, or 0 when the key is absent.
pub open spec fn key_count(bins: Seq<(i64, u32)>, t: int) -> int
    decreases bins.len(),
{
    if bins.len() == 0 {
        0
    } else if bins.last().0 == t {
        bins.last().1 as int
    } else {
        key_count(bins.drop_last(), t)
    }
}

/// Whether some entry carries key `t`.
pub open spec fn key_present(bins: Seq<(i64, u32)>, t: int) -> bool {
    exists|k: int| 0 <= k < bins.len() && (#[trigger] bins[k]).0 == t
}

/// With `t` the key of entry `k` and every other key different, the recorded
/// count is that entry's.
proof fn lemma_key_count_lookup(bins: Seq<(i64, u32)>, k: int)
    requires
        0 <= k < bins.len(),
        forall|j: int| 0 <= j < bins.len() && j != k ==> (#[trigger] bins[j]).0 != bins[k].0,
    ensures
        key_count(bins, bins[k].0 as int) == bins[k].1,
    decreases bins.len(),
{
    if k == bins.len() - 1 {
    } else {
        assert(forall|j: int|
            0 <= j < bins.drop_last().len() && j != k ==> (#[trigger] bins.drop_last()[j]).0
                != bins.drop_last()[k].0);
        lemma_key_count_lookup(bins.drop_last(), k);
    }
}

/// A key no entry carries has count 0.
proof fn lemma_key_count_absent(bins: Seq<(i64, u32)>, t: int)
    requires
        forall|k: int| 0 <= k < bins.len() ==> (#[trigger] bins[k]).0 != t,
    ensures
        key_count(bins, t) == 0,
    decreases bins.len(),
{
    if bins.len() > 0 {
        lemma_key_count_absent(bins.drop_last(), t);
    }
}

/// Overwriting entry `idx` in place changes only its own key's count.
proof fn lemma_key_count_update(bins: Seq<(i64, u32)>, idx: int, c: u32)
    requires
        0 <= idx < bins.len(),
        forall|j: int| 0 <= j < bins.len() && j != idx ==> (#[trigger] bins[j]).0 != bins[idx].0,
    ensures
        forall|t: int|
            #[trigger] key_count(bins.update(idx, (bins[idx].0, c)), t) == if t == bins[idx].0 {
                c as int
            } else {
                key_count(bins, t)
            },
    decreases bins.len(),
{
    let upd = bins.update(idx, (bins[idx].0, c));
    if idx == bins.len() - 1 {
        assert(upd.drop_last() =~= bins.drop_last());
        assert(upd.last() == (bins[idx].0, c));
    } else {
        assert(forall|j: int|
            0 <= j < bins.drop_last().len() && j != idx ==> (#[trigger] bins.drop_last()[j]).0
                != bins.drop_last()[idx].0);
        lemma_key_count_update(bins.drop_last(), idx, c);
        assert(upd.drop_last() =~= bins.drop_last().update(idx, (bins.drop_last()[idx].0, c)));
        assert(upd.last() == bins.last());
    }
    assert forall|t: int|
        #[trigger] key_count(upd, t) == (if t == bins[idx].0 {
            c as int
        } else {
            key_count(bins, t)
        }) by {
        if idx == bins.len() - 1 {
            if upd.last().0 == t {
                assert(bins.last().0 == t);
            }
        } else {
            assert(upd.last() == bins.last());
            if bins.last().0 != t {
                assert(key_count(upd, t) == key_count(upd.drop_last(), t));
                assert(key_count(bins, t) == key_count(bins.drop_last(), t));
            } else {
                assert(t != bins[idx].0);
            }
        }
    }
}

/// Inserting an entry with a fresh key adds exactly that key's count.
proof fn lemma_key_count_insert(bins: Seq<(i64, u32)>, idx: int, v: (i64, u32))
    requires
        0 <= idx <= bins.len(),
        forall|k: int| 0 <= k < bins.len() ==> (#[trigger] bins[k]).0 != v.0,
    ensures
        forall|t: int|
            #[trigger] key_count(bins.insert(idx, v), t) == key_count(bins, t) + if t == v.0 {
                v.1 as int
            } else {
                0int
            },
    decreases bins.len(),
{
    let ins = bins.insert(idx, v);
    if idx == bins.len() {
        assert(ins.drop_last() =~= bins);
        assert(ins.last() == v);
    } else {
        assert(forall|k: int|
            0 <= k < bins.drop_last().len() ==> (#[trigger] bins.drop_last()[k]).0 != v.0);
        lemma_key_count_insert(bins.drop_last(), idx, v);
        assert(ins.drop_last() =~= bins.drop_last().insert(idx, v));
        assert(ins.last() == bins.last());
    }
    assert forall|t: int|
        #[trigger] key_count(ins, t) == key_count(bins, t) + (if t == v.0 {
            v.1 as int
        } else {
            0int
        }) by {
        if idx == bins.len() {
            if t == v.0 {
                lemma_key_count_absent(bins, t);
            }
        } else {
            assert(ins.last() == bins.last());
            if bins.last().0 != t {
                assert(key_count(ins, t) == key_count(ins.drop_last(), t));
                assert(key_count(bins, t) == key_count(bins.drop_last(), t));
            } else {
                assert(t != v.0);
            }
        }
    }
}

/// Raises the count of the bin starting at `bin` by one, inserting the bin
/// with count 1 when it is new; every other key keeps its count.
fn bump_bin(bins: &mut Vec<(i64, u32)>, bin: i64)
    requires
        sorted_keys(old(bins)@),
        bin >= 0,
        key_count(old(bins)@, bin as int) < u32::MAX,
    ensures
        sorted_keys(final(bins)@),
        forall|t: int|
            #[trigger] key_count(final(bins)@, t) == key_count(old(bins)@, t) + if t == bin {
                1int
            } else {
                0int
            },
        forall|t: int|
            #[trigger] key_present(final(bins)@, t) <==> key_present(old(bins)@, t) || t == bin,
{
    let ghost obins = bins@;
    let n = bins.len();
    let mut idx: usize = 0;
    while idx < n && bins[idx].0 < bin
        invariant
            bins@ == obins,
            n == bins@.len(),
            0 <= idx <= n,
            forall|k: int| 0 <= k < idx ==> (#[trigger] obins[k]).0 < bin,
        decreases n - idx,
    {
        idx = idx + 1;
    }
    if idx < n && bins[idx].0 == bin {
        proof {
            assert(forall|j: int|
                0 <= j < obins.len() && j != idx ==> (#[trigger] obins[j]).0 != obins[idx as int].0);
            lemma_key_count_lookup(obins, idx as int);
            lemma_key_count_update(obins, idx as int, (obins[idx as int].1 + 1) as u32);
        }
        let c = bins[idx].1;
        bins.set(idx, (bin, c + 1));
        proof {
            assert forall|t: int| #[trigger] key_present(bins@, t) implies key_present(obins, t) by {
                let k = choose|k: int| 0 <= k < bins@.len() && (#[trigger] bins@[k]).0 == t;
                assert(0 <= k < obins.len() && obins[k].0 == t);
            }
            assert forall|t: int| key_present(obins, t) implies #[trigger] key_present(bins@, t) by {
                let k = choose|k: int| 0 <= k < obins.len() && (#[trigger] obins[k]).0 == t;
                assert(0 <= k < bins@.len() && bins@[k].0 == t);
            }
            assert(key_present(obins, bin as int));
        }
    } else {
        proof {
            assert(forall|k: int| 0 <= k < obins.len() ==> (#[trigger] obins[k]).0 != bin);
            lemma_key_count_absent(obins, bin as int);
            lemma_key_count_insert(obins, idx as int, (bin, 1u32));
        }
        bins.insert(idx, (bin, 1));
        proof {
            assert forall|t: int| #[trigger] key_present(bins@, t) implies (key_present(obins, t)
                || t == bin) by {
                let k = choose|k: int| 0 <= k < bins@.len() && (#[trigger] bins@[k]).0 == t;
                if k < idx {
                    assert(obins[k].0 == t);
                } else if k > idx {
                    assert(obins[k - 1].0 == t);
                }
            }
            assert forall|t: int| key_present(obins, t) implies #[trigger] key_present(bins@, t) by {
                let k = choose|k: int| 0 <= k < obins.len() && (#[trigger] obins[k]).0 == t;
                if k < idx {
                    assert(bins@[k].0 == t);
                } else {
                    assert(bins@[k + 1].0 == t);
                }
            }
            assert(bins@[idx as int].0 == bin);
        }
    }
}

/// A bin never holds more hits than the sequence has.
proof fn lemma_hits_bin_count_le(hits: Seq<Hit>, time: int, tpl: int, t: int)
    ensures
        0 <= hits_bin_count(hits, time, tpl, t) <= hits.len(),
    decreases hits.len(),
{
    if hits.len() > 0 {
        lemma_hits_bin_count_le(hits.drop_last(), time, tpl, t);
    }
}

/// A bin never holds more hits than all pulses together have.
proof fn lemma_pulses_bin_count_le(pulses: Seq<Pulse>, tpl: int, t: int)
    ensures
        0 <= pulses_bin_count(pulses, tpl, t) <= total_hits(pulses),
    decreases pulses.len(),
{
    if pulses.len() > 0 {
        lemma_pulses_bin_count_le(pulses.drop_last(), tpl, t);
        lemma_hits_bin_count_le(pulses.last().hits@, pulses.last().time as int, tpl, t);
    }
}

/// Hit totals only grow along prefixes.
proof fn lemma_total_hits_prefix(pulses: Seq<Pulse>, k: int)
    requires
        0 <= k <= pulses.len(),
    ensures
        total_hits(pulses.take(k)) <= total_hits(pulses),
        total_hits(pulses.take(k)) >= 0,
    decreases pulses.len(),
{
    if k == pulses.len() {
        assert(pulses.take(k) =~= pulses);
        lemma_total_hits_nonneg(pulses);
    } else {
        assert(pulses.drop_last().take(k) =~= pulses.take(k));
        lemma_total_hits_prefix(pulses.drop_last(), k);
    }
}

/// Hit totals are never negative.
proof fn lemma_total_hits_nonneg(pulses: Seq<Pulse>)
    ensures
        total_hits(pulses) >= 0,
    decreases pulses.len(),
{
    if pulses.len() > 0 {
        lemma_total_hits_nonneg(pulses.drop_last());
    }
}

/// The folding period the histogram uses: the given pulse period, or the
/// whole `i64` range when none is given.
pub open spec fn effective_period(tof_pulse_length: Option<i64>) -> int {
    match tof_pulse_length {
        Some(v) => v as int,
        None => i64::MAX as int,
    }
}

/// Builds the time-of-flight histogram of all hits: one `(bin_start_ps,
/// count)` pair per occupied bin, in ascending time order, with bin 0 seeded
/// so a spectrum always has an origin. A hit's ToF is its arrival time minus
/// its pulse time, folded by the pulse period; the negative-ToF firmware
/// artifact is dropped. Without a period the ToF is taken as is.
#[verifier::rlimit(40)]
pub fn spectrum(pulses: &Vec<Pulse>, tof_pulse_length: Option<i64>) -> (r: (Vec<i64>, Vec<u32>))
    requires
        tof_pulse_length is Some ==> tof_pulse_length->0 >= 1,
        total_hits(pulses@) <= u32::MAX,
        pulses_times_ok(pulses@),
    ensures
        r.0@.len() == r.1@.len(),
        forall|k: int| 0 <= k < r.0@.len() ==> #[trigger] r.0@[k] >= 0,
        forall|k1: int, k2: int| 0 <= k1 < k2 < r.0@.len() ==> r.0@[k1] < r.0@[k2],
        forall|k: int|
            0 <= k < r.0@.len() ==> r.1@[k] == pulses_bin_count(
                pulses@,
                effective_period(tof_pulse_length),
                #[trigger] r.0@[k] as int,
            ),
        forall|k: int| 0 <= k < r.0@.len() ==> #[trigger] r.0@[k] == 0 || r.1@[k] > 0,
        forall|t: int|
            0 <= t && (#[trigger] pulses_bin_count(pulses@, effective_period(tof_pulse_length), t)
                > 0 || t == 0) ==> exists|k: int| 0 <= k < r.0@.len() && #[trigger] r.0@[k] == t,
{
    let tpl: i64 = match tof_pulse_length {
        Some(v) => v,
        None => i64::MAX,
    };
    let mut bins: Vec<(i64, u32)> = Vec::new();
    bins.push((0, 0));
    proof {
        assert(pulses@.take(0) =~= Seq::<Pulse>::empty());
        assert(bins@.last() == (0i64, 0u32));
        assert(bins@.drop_last() =~= Seq::<(i64, u32)>::empty());
        assert forall|t: int| 0 <= t implies #[trigger] key_count(bins@, t) == pulses_bin_count(
            pulses@.take(0),
            tpl as int,
            t,
        ) by {
            if t != 0 {
                assert(key_count(bins@, t) == key_count(bins@.drop_last(), t));
            }
        }
        assert forall|t: int| 0 <= t implies (#[trigger] key_present(bins@, t)
            <==> (pulses_bin_count(pulses@.take(0), tpl as int, t) > 0 || t == 0)) by {
            if t == 0 {
                assert(bins@[0].0 == 0);
            } else if key_present(bins@, t) {
                let k = choose|k: int| 0 <= k < bins@.len() && (#[trigger] bins@[k]).0 == t;
                assert(k == 0);
            }
        }
    }
    let np = pulses.len();
    let mut pi: usize = 0;
    while pi < np
        invariant
            np == pulses@.len(),
            0 <= pi <= np,
            tpl >= 1,
            tpl == (match tof_pulse_length {
                Some(v) => v,
                None => i64::MAX,
            }),
            total_hits(pulses@) <= u32::MAX,
            pulses_times_ok(pulses@),
            sorted_keys(bins@),
            forall|t: int|
                0 <= t ==> #[trigger] key_count(bins@, t) == pulses_bin_count(
                    pulses@.take(pi as int),
                    tpl as int,
                    t,
                ),
            forall|t: int|
                0 <= t ==> (#[trigger] key_present(bins@, t) <==> pulses_bin_count(
                    pulses@.take(pi as int),
                    tpl as int,
                    t,
                ) > 0 || t == 0),
        decreases np - pi,
    {
        let p = &pulses[pi];
        let nh = p.hits.len();
        let ghost time = p.time as int;
        let mut hj: usize = 0;
        while hj < nh
            invariant
                np == pulses@.len(),
                0 <= pi < np,
                nh == pulses@[pi as int].hits@.len(),
                p == &pulses@[pi as int],
                0 <= hj <= nh,
                time == pulses@[pi as int].time as int,
                tpl >= 1,
                total_hits(pulses@) <= u32::MAX,
                pulses_times_ok(pulses@),
                sorted_keys(bins@),
                forall|t: int|
                    0 <= t ==> #[trigger] key_count(bins@, t) == pulses_bin_count(
                        pulses@.take(pi as int),
                        tpl as int,
                        t,
                    ) + hits_bin_count(
                        pulses@[pi as int].hits@.take(hj as int),
                        time,
                        tpl as int,
                        t,
                    ),
                forall|t: int|
                    0 <= t ==> (#[trigger] key_present(bins@, t) <==> pulses_bin_count(
                        pulses@.take(pi as int),
                        tpl as int,
                        t,
                    ) + hits_bin_count(
                        pulses@[pi as int].hits@.take(hj as int),
                        time,
                        tpl as int,
                        t,
                    ) > 0 || t == 0),
            decreases nh - hj,
        {
            let h = &p.hits[hj];
            let ghost hseq = pulses@[pi as int].hits@;
            proof {
                assert(pulses@[pi as int].time >= 0);
                assert(hseq[hj as int].toa >= 0);
            }
            let d: i64 = h.toa - p.time;
            let mut keep = false;
            let mut binv: i64 = 0;
            if d >= 0 {
                let tof = d % tpl;
                proof {
                    vstd::arithmetic::div_mod::lemma_fundamental_div_mod(
                        tof as int,
                        TIME_BIN_WIDTH as int,
                    );
                    vstd::arithmetic::div_mod::lemma_div_pos_is_pos(tof as int, TIME_BIN_WIDTH as int);
                }
                binv = tof / TIME_BIN_WIDTH * TIME_BIN_WIDTH;
                keep = true;
            } else {
                let m = (-d) % tpl;
                if m == 0 {
                    binv = 0;
                    keep = true;
                }
            }
            proof {
                assert(keep ==> binv == spec_bin(hseq[hj as int].toa as int, time, tpl as int));
                assert(!keep ==> spec_bin(hseq[hj as int].toa as int, time, tpl as int) == -1);
            }
            if keep {
                proof {
                    lemma_pulses_bin_count_le(pulses@.take(pi as int), tpl as int, binv as int);
                    lemma_hits_bin_count_le(hseq.take(hj as int), time, tpl as int, binv as int);
                    lemma_total_hits_prefix(pulses@, pi as int);
                    lemma_pulse_in_total(pulses@, pi as int);
                }
                bump_bin(&mut bins, binv);
            }
            proof {
                assert(hseq.take(hj + 1).drop_last() =~= hseq.take(hj as int));
                assert(hseq.take(hj + 1).last() == hseq[hj as int]);
            }
            hj = hj + 1;
        }
        proof {
            assert(pulses@.take(pi + 1).drop_last() =~= pulses@.take(pi as int));
            assert(pulses@.take(pi + 1).last() == pulses@[pi as int]);
            assert(pulses@[pi as int].hits@.take(nh as int) =~= pulses@[pi as int].hits@);
        }
        pi = pi + 1;
    }
    proof {
        assert(pulses@.take(np as int) =~= pulses@);
    }
    let nb = bins.len();
    let mut times: Vec<i64> = Vec::new();
    let mut counts: Vec<u32> = Vec::new();
    let mut k: usize = 0;
    while k < nb
        invariant
            nb == bins@.len(),
            0 <= k <= nb,
            times@.len() == k,
            counts@.len() == k,
            forall|j: int| 0 <= j < k ==> times@[j] == (#[trigger] bins@[j]).0,
            forall|j: int| 0 <= j < k ==> counts@[j] == (#[trigger] bins@[j]).1,
        decreases nb - k,
    {
        let (t, c) = bins[k];
        times.push(t);
        counts.push(c);
        k = k + 1;
    }
    proof {
        let gtpl = tpl as int;
        assert forall|j: int| 0 <= j < nb implies #[trigger] counts@[j] == key_count(
            bins@,
            times@[j] as int,
        ) by {
            assert(forall|j2: int|
                0 <= j2 < bins@.len() && j2 != j ==> (#[trigger] bins@[j2]).0 != bins@[j].0);
            lemma_key_count_lookup(bins@, j);
        }
        assert forall|j: int| 0 <= j < nb implies #[trigger] counts@[j] == pulses_bin_count(
            pulses@,
            gtpl,
            times@[j] as int,
        ) by {
            assert(bins@[j].0 >= 0);
            assert(key_count(bins@, times@[j] as int) == pulses_bin_count(
                pulses@,
                gtpl,
                times@[j] as int,
            ));
        }
        assert forall|j: int| 0 <= j < nb implies #[trigger] times@[j] == 0 || counts@[j] > 0 by {
            assert(bins@[j].0 == times@[j]);
            assert(key_present(bins@, times@[j] as int));
        }
        assert forall|j: int| 0 <= j < nb implies #[trigger] times@[j] >= 0 by {
            assert(times@[j] == bins@[j].0);
            assert(bins@[j].0 >= 0);
        }
        assert forall|k1: int, k2: int| 0 <= k1 < k2 < times@.len() implies times@[k1]
            < times@[k2] by {
            assert(times@[k1] == bins@[k1].0);
            assert(times@[k2] == bins@[k2].0);
            assert(bins@[k1].0 < bins@[k2].0);
        }
        assert forall|t: int|
            0 <= t && (#[trigger] pulses_bin_count(pulses@, effective_period(tof_pulse_length), t)
                > 0 || t == 0) implies exists|k: int|
            0 <= k < times@.len() && #[trigger] times@[k] == t by {
            assert(pulses_bin_count(pulses@, gtpl, t) == pulses_bin_count(
                pulses@,
                effective_period(tof_pulse_length),
                t,
            ));
            assert(key_present(bins@, t));
            let k = choose|k: int| 0 <= k < bins@.len() && (#[trigger] bins@[k]).0 == t;
            assert(times@[k] == t);
        }
    }
    (times, counts)
}

/// Every pulse of the sequence contributes its full hit count to the total.
proof fn lemma_pulse_in_total(pulses: Seq<Pulse>, pi: int)
    requires
        0 <= pi < pulses.len(),
    ensures
        total_hits(pulses.take(pi)) + pulses[pi].hits@.len() <= total_hits(pulses),
    decreases pulses.len(),
{
    if pi == pulses.len() - 1 {
        assert(pulses.take(pi) =~= pulses.drop_last());
        lemma_total_hits_nonneg(pulses.drop_last());
    } else {
        assert(pulses.drop_last().take(pi) =~= pulses.take(pi));
        lemma_pulse_in_total(pulses.drop_last(), pi);
    }
}

/// Zero samples before the first occupied bin, after the last, and at both
/// ends of every gap wider than one bin, leaving occupied bins in place: the
/// fold state after consuming pairs `1..i` of the spectrum.
pub open spec fn zero_pad_fold(times: Seq<i64>, ints: Seq<u32>, i: int) -> (Seq<i64>, Seq<u32>)
    decreases i,
{
    if i <= 1 {
        (seq![(times[0] - TIME_BIN_WIDTH) as i64, times[0]], seq![0u32, ints[0]])
    } else {
        let (pt, pi) = zero_pad_fold(times, ints, i - 1);
        let prev = times[i - 2];
        let t = times[i - 1];
        if t - prev != TIME_BIN_WIDTH {
            (
                pt + seq![(prev + TIME_BIN_WIDTH) as i64, (t - TIME_BIN_WIDTH) as i64, t],
                pi + seq![0u32, 0u32, ints[i - 1]],
            )
        } else {
            (pt.push(t), pi.push(ints[i - 1]))
        }
    }
}

/// What `zero_pad` returns: the padded polyline plus one trailing zero bin.
pub open spec fn spec_zero_pad(times: Seq<i64>, ints: Seq<u32>) -> (Seq<i64>, Seq<u32>) {
    let (pt, pi) = zero_pad_fold(times, ints, times.len() as int);
    (pt.push((pt.last() + TIME_BIN_WIDTH) as i64), pi.push(0u32))
}

/// Pads a sorted spectrum with explicit zero samples so that a plotted
/// polyline drops to the baseline around every occupied run of bins.
pub fn zero_pad(times: &[i64], intensities: &[u32]) -> (r: (Vec<i64>, Vec<u32>))
    requires
        times@.len() == intensities@.len(),
        times@.len() >= 1,
        forall|k: int|
            0 <= k < times@.len() ==> 0 <= #[trigger] times@[k] < i64::MAX - TIME_BIN_WIDTH,
    ensures
        r.0@ == spec_zero_pad(times@, intensities@).0,
        r.1@ == spec_zero_pad(times@, intensities@).1,
{
    let n = times.len();
    let mut pad_time: Vec<i64> = Vec::new();
    let mut pad_int: Vec<u32> = Vec::new();
    pad_time.push(times[0] - TIME_BIN_WIDTH);
    pad_int.push(0);
    pad_time.push(times[0]);
    pad_int.push(intensities[0]);
    let mut i: usize = 1;
    while i < n
        invariant
            n == times@.len(),
            n == intensities@.len(),
            1 <= i <= n,
            forall|k: int|
                0 <= k < times@.len() ==> 0 <= #[trigger] times@[k] < i64::MAX - TIME_BIN_WIDTH,
            (pad_time@, pad_int@) == zero_pad_fold(times@, intensities@, i as int),
            pad_time@.len() == pad_int@.len(),
            pad_time@.len() >= 1,
        decreases n - i,
    {
        let prev = times[i - 1];
        let t = times[i];
        if t - prev != TIME_BIN_WIDTH {
            pad_time.push(prev + TIME_BIN_WIDTH);
            pad_int.push(0);
            pad_time.push(t - TIME_BIN_WIDTH);
            pad_int.push(0);
        }
        pad_time.push(t);
        pad_int.push(intensities[i]);
        proof {
            let (pt, pi) = zero_pad_fold(times@, intensities@, i as int);
            if t - prev != TIME_BIN_WIDTH {
                assert(pad_time@ =~= pt + seq![
                    (prev + TIME_BIN_WIDTH) as i64,
                    (t - TIME_BIN_WIDTH) as i64,
                    t,
                ]);
                assert(pad_int@ =~= pi + seq![0u32, 0u32, intensities@[i as int]]);
            }
        }
        i = i + 1;
    }
    let last = pad_time[pad_time.len() - 1];
    proof {
        lemma_zero_pad_fold_last_in_range(times@, intensities@, n as int);
    }
    pad_time.push(last + TIME_BIN_WIDTH);
    pad_int.push(0);
    (pad_time, pad_int)
}

/// Every time the padding fold emits stays one bin clear of the `i64` ends,
/// so the trailing pad cannot overflow.
proof fn lemma_zero_pad_fold_last_in_range(times: Seq<i64>, ints: Seq<u32>, i: int)
    requires
        1 <= i <= times.len(),
        forall|k: int|
            0 <= k < times.len() ==> 0 <= #[trigger] times[k] < i64::MAX - TIME_BIN_WIDTH,
    ensures
        zero_pad_fold(times, ints, i).0.len() >= 1,
        zero_pad_fold(times, ints, i).0.last() + TIME_BIN_WIDTH <= i64::MAX,
    decreases i,
{
    if i > 1 {
        lemma_zero_pad_fold_last_in_range(times, ints, i - 1);
    }
}

/// Smoothing window of the peak picker.
pub const PEAK_WINDOW: usize = 15;

/// First difference of the chromatogram between bins `j` and `j + 1`.
pub open spec fn diff_at(c: Seq<u32>, j: int) -> int {
    c[j + 1] - c[j]
}

/// Sum of `w` consecutive first differences starting at `i`: the moving
/// average scaled by the window size.
pub open spec fn s1_at(c: Seq<u32>, i: int, w: int) -> int
    decreases w,
{
    if w <= 0 {
        0
    } else {
        s1_at(c, i, w - 1) + diff_at(c, i + w - 1)
    }
}

/// Sum of `w` consecutive window sums starting at `i`: the twice-smoothed
/// derivative scaled by the window size squared.
pub open spec fn s2_sum(c: Seq<u32>, i: int, w: int) -> int
    decreases w,
{
    if w <= 0 {
        0
    } else {
        s2_sum(c, i, w - 1) + s1_at(c, i + w - 1, PEAK_WINDOW as int)
    }
}

/// The twice-smoothed derivative at `i`, scaled by 225.
pub open spec fn s2_at(c: Seq<u32>, i: int) -> int {
    s2_sum(c, i, PEAK_WINDOW as int)
}

/// A peak is detected at `i` when the smoothed derivative crosses zero there,
/// falls by at least 0.7 (scaled: 157.5 of 225), the crossing sits clear of
/// the leading smoothing margin, and the raw intensity 22 bins later is
/// large enough to matter.
pub open spec fn is_peak_at(c: Seq<u32>, i: int) -> bool {
    &&& s2_at(c, i) > 0
    &&& s2_at(c, i + 1) < 0
    &&& i > 18
    &&& 2 * (s2_at(c, i) - s2_at(c, i + 1)) >= 315
    &&& c[i + 22] > 5000
}

/// The reported position for a detection at `i`: the last maximum of the raw
/// intensities over the two smoothing windows that follow.
pub open spec fn peak_pos(c: Seq<u32>, i: int) -> int {
    i + argmax_fold(c.subrange(i, i + 2 * PEAK_WINDOW), 2 * PEAK_WINDOW as int).0
}

/// All peaks with detection index below `i`, in order.
pub open spec fn spec_find_peaks(c: Seq<u32>, i: int) -> Seq<int>
    decreases i,
{
    if i <= 0 {
        Seq::empty()
    } else {
        let prev = spec_find_peaks(c, i - 1);
        if is_peak_at(c, i - 1) {
            prev.push(peak_pos(c, i - 1))
        } else {
            prev
        }
    }
}

/// Picks peaks from a chromatogram: detections are zero crossings of the
/// twice-smoothed first difference that fall steeply enough over a large
/// enough raw intensity, each reported at the maximum near the crossing.
pub fn find_peaks(chromatogram: &[u32]) -> (r: Vec<usize>)
    requires
        chromatogram@.len() >= 2 * PEAK_WINDOW,
    ensures
        r@.map_values(|u: usize| u as int) == spec_find_peaks(
            chromatogram@,
            chromatogram@.len() - 2 * PEAK_WINDOW,
        ),
{
    let n = chromatogram.len();
    let ghost c = chromatogram@;
    // first differences
    let mut diff: Vec<i64> = Vec::new();
    let mut j: usize = 0;
    while j < n - 1
        invariant
            n == c.len(),
            n >= 2 * PEAK_WINDOW,
            0 <= j <= n - 1,
            diff@.len() == j,
            c == chromatogram@,
            forall|k: int| 0 <= k < j ==> #[trigger] diff@[k] == diff_at(c, k),
            forall|k: int| 0 <= k < j ==> -0xFFFF_FFFF <= #[trigger] diff@[k] <= 0xFFFF_FFFF,
        decreases n - 1 - j,
    {
        diff.push((chromatogram[j + 1] as i64) - (chromatogram[j] as i64));
        j = j + 1;
    }
    // first smoothing pass, scaled by the window size
    let mut s1: Vec<i64> = Vec::new();
    let mut i: usize = 0;
    while i < n - PEAK_WINDOW
        invariant
            n == c.len(),
            n >= 2 * PEAK_WINDOW,
            c == chromatogram@,
            diff@.len() == n - 1,
            forall|k: int| 0 <= k < n - 1 ==> #[trigger] diff@[k] == diff_at(c, k),
            forall|k: int| 0 <= k < n - 1 ==> -0xFFFF_FFFF <= #[trigger] diff@[k] <= 0xFFFF_FFFF,
            0 <= i <= n - PEAK_WINDOW,
            s1@.len() == i,
            forall|k: int| 0 <= k < i ==> #[trigger] s1@[k] == s1_at(c, k, PEAK_WINDOW as int),
            forall|k: int|
                0 <= k < i ==> -15 * 0xFFFF_FFFF <= #[trigger] s1@[k] <= 15 * 0xFFFF_FFFF,
        decreases n - PEAK_WINDOW - i,
    {
        let mut acc: i64 = 0;
        let mut w: usize = 0;
        while w < PEAK_WINDOW
            invariant
                n == c.len(),
                diff@.len() == n - 1,
                forall|k: int| 0 <= k < n - 1 ==> #[trigger] diff@[k] == diff_at(c, k),
                forall|k: int|
                    0 <= k < n - 1 ==> -0xFFFF_FFFF <= #[trigger] diff@[k] <= 0xFFFF_FFFF,
                0 <= i < n - PEAK_WINDOW,
                0 <= w <= PEAK_WINDOW,
                acc == s1_at(c, i as int, w as int),
                -(w as int) * 0xFFFF_FFFF <= acc <= (w as int) * 0xFFFF_FFFF,
            decreases PEAK_WINDOW - w,
        {
            acc = acc + diff[i + w];
            w = w + 1;
        }
        s1.push(acc);
        i = i + 1;
    }
    // second smoothing pass
    let s1_len = n - PEAK_WINDOW;
    let mut s2: Vec<i64> = Vec::new();
    let mut i: usize = 0;
    while i < s1_len - PEAK_WINDOW + 1
        invariant
            n == c.len(),
            n >= 2 * PEAK_WINDOW,
            c == chromatogram@,
            s1_len == n - PEAK_WINDOW,
            s1@.len() == s1_len,
            forall|k: int|
                0 <= k < s1_len ==> #[trigger] s1@[k] == s1_at(c, k, PEAK_WINDOW as int),
            forall|k: int|
                0 <= k < s1_len ==> -15 * 0xFFFF_FFFF <= #[trigger] s1@[k] <= 15 * 0xFFFF_FFFF,
            0 <= i <= s1_len - PEAK_WINDOW + 1,
            s2@.len() == i,
            forall|k: int| 0 <= k < i ==> #[trigger] s2@[k] == s2_at(c, k),
            forall|k: int|
                0 <= k < i ==> -225 * 0xFFFF_FFFF <= #[trigger] s2@[k] <= 225 * 0xFFFF_FFFF,
        decreases s1_len - PEAK_WINDOW + 1 - i,
    {
        let mut acc: i64 = 0;
        let mut w: usize = 0;
        while w < PEAK_WINDOW
            invariant
                n == c.len(),
                s1_len == n - PEAK_WINDOW,
                s1@.len() == s1_len,
                forall|k: int|
                    0 <= k < s1_len ==> #[trigger] s1@[k] == s1_at(c, k, PEAK_WINDOW as int),
                forall|k: int|
                    0 <= k < s1_len ==> -15 * 0xFFFF_FFFF <= #[trigger] s1@[k] <= 15
                        * 0xFFFF_FFFF,
                0 <= i <= s1_len - PEAK_WINDOW,
                0 <= w <= PEAK_WINDOW,
                acc == s2_sum(c, i as int, w as int),
                -(w as int) * 15 * 0xFFFF_FFFF <= acc <= (w as int) * 15 * 0xFFFF_FFFF,
            decreases PEAK_WINDOW - w,
        {
            acc = acc + s1[i + w];
            w = w + 1;
        }
        s2.push(acc);
        i = i + 1;
    }
    // zero crossings of the smoothed derivative
    let s2_len = s1_len - PEAK_WINDOW + 1;
    let mut peaks: Vec<usize> = Vec::new();
    let mut i: usize = 0;
    while i < s2_len - 1
        invariant
            n == c.len(),
            n >= 2 * PEAK_WINDOW,
            c == chromatogram@,
            s1_len == n - PEAK_WINDOW,
            s2_len == s1_len - PEAK_WINDOW + 1,
            s2@.len() == s2_len,
            forall|k: int| 0 <= k < s2_len ==> #[trigger] s2@[k] == s2_at(c, k),
            forall|k: int|
                0 <= k < s2_len ==> -225 * 0xFFFF_FFFF <= #[trigger] s2@[k] <= 225 * 0xFFFF_FFFF,
            0 <= i <= s2_len - 1,
            peaks@.map_values(|u: usize| u as int) == spec_find_peaks(c, i as int),
        decreases s2_len - 1 - i,
    {
        let this = s2[i];
        let next = s2[i + 1];
        if this > 0 && next < 0 && i > 18 && 2 * (this - next) >= 315 && chromatogram[i + 22]
            > 5000 {
            let window = vstd::slice::slice_subrange(chromatogram, i, i + 2 * PEAK_WINDOW);
            let (off, _max) = argmax_u32(window);
            peaks.push(i + off);
            proof {
                assert(peaks@.map_values(|u: usize| u as int) =~= spec_find_peaks(
                    c,
                    i as int,
                ).push(peak_pos(c, i as int)));
            }
        }
        i = i + 1;
    }
    peaks
}

} // verus!
