//! All hits between two laser triggers: the TPX3C encoding of a pulse, the
//! flood-fill clustering of its hits, and the centroiding that collapses each
//! cluster into one sub-pixel hit.
use vstd::prelude::*;
use vstd::pervasive::VecAdditionalExecFns;
use vstd::bytes::spec_u64_to_le_bytes;
use vstd::bytes::u64_to_le_bytes;
use crate::codec::TDC_LIMIT;
use crate::hit::Hit;
use crate::hit::spec_hit_packet;
use crate::hit::spec_blob_packet;
use crate::hit::spec_is_proximal;
use crate::hit::spec_quicksplat;

verus! {

/// All hits collected between two consecutive laser triggers.
#[derive(Clone, Debug)]
pub struct Pulse {
    /// Absolute TDC time of the opening trigger, in picoseconds.
    pub time: i64,
    /// Hits in decoder insertion order.
    pub hits: Vec<Hit>,
    /// Trigger counter carried by the opening TDC packet.
    pub triggers: u64,
    /// Number of distinct cluster labels currently assigned.
    pub clusters: usize,
}

impl Default for Pulse {
    /// An empty pulse at time zero.
    fn default() -> (p: Pulse)
        ensures
            p.time == 0,
            p.hits@.len() == 0,
            p.triggers == 0,
            p.clusters == 0,
    {
        Pulse { time: 0, hits: Vec::with_capacity(128), triggers: 0, clusters: 0 }
    }
}

/// Two hits agree on every field the flood fill treats as identity.
pub open spec fn same_hit(a: Hit, b: Hit) -> bool {
    a.toa == b.toa && a.col == b.col && a.row == b.row
}

/// The hit with its label cleared; equality of these means equality of
/// everything labelling may not touch.
pub open spec fn strip_label(h: Hit) -> Hit {
    Hit { label: 0, ..h }
}

/// Whether some element of `s` matches `h` on the identity fields.
pub open spec fn spec_contains_same(s: Seq<Hit>, h: Hit) -> bool {
    exists|i: int| 0 <= i < s.len() && same_hit(#[trigger] s[i], h)
}

/// Whether `o` may take part in a flood fill seeded at `seed`: within 1 us
/// in time and within a 15-pixel box.
pub open spec fn candidate_gate(seed: Hit, o: Hit) -> bool {
    &&& -1_000_000 < seed.toa - o.toa < 1_000_000
    &&& -15 < seed.col - o.col < 15
    &&& -15 < seed.row - o.row < 15
}

/// The candidate hits of a seed, in hit-list order.
pub open spec fn spec_candidates(hits: Seq<Hit>, seed: Hit) -> Seq<Hit> {
    hits.filter(|o: Hit| candidate_gate(seed, o))
}

/// The active list after the popped hit's proximal candidates among the
/// first `k` are enqueued, skipping any already waiting or already checked.
pub open spec fn bfs_enqueue(
    subset: Seq<Hit>,
    k: int,
    active: Seq<Hit>,
    checked: Seq<Hit>,
    check: Hit,
) -> Seq<Hit>
    decreases k,
{
    if k <= 0 {
        active
    } else {
        let a = bfs_enqueue(subset, k - 1, active, checked, check);
        let prox = subset[k - 1];
        if spec_is_proximal(prox, check) && !spec_contains_same(checked, prox)
            && !spec_contains_same(a, prox) {
            a.push(prox)
        } else {
            a
        }
    }
}

/// One flood fill: hits are popped from the active list newest first, each
/// pop labels its hit and enqueues its proximal candidates, until the list
/// empties (or the step budget, which outlasts every candidate, is spent).
pub open spec fn bfs_fill(
    hits: Seq<Hit>,
    subset: Seq<Hit>,
    active: Seq<Hit>,
    checked: Seq<Hit>,
    label: u16,
    fuel: nat,
) -> Seq<Hit>
    decreases fuel,
{
    if active.len() == 0 || fuel == 0 {
        hits
    } else {
        let check = active.last();
        let a2 = bfs_enqueue(subset, subset.len() as int, active.drop_last(), checked, check);
        let hits2 = hits.update(
            check.index as int,
            Hit { label: label, ..hits[check.index as int] },
        );
        bfs_fill(hits2, subset, a2, checked.push(check), label, (fuel - 1) as nat)
    }
}

/// The whole labelling pass over the first `i` hits: each hit still
/// unlabelled when its turn comes seeds a flood fill that carries the next
/// label, so which hits share a label is fixed by the chains of proximal
/// candidates the fills walk.
pub open spec fn label_fold(hits: Seq<Hit>, i: int) -> (Seq<Hit>, u16)
    decreases i,
{
    if i <= 0 {
        (hits, 1u16)
    } else {
        let (h, l) = label_fold(hits, i - 1);
        if h[i - 1].label != 0 {
            (h, l)
        } else {
            let seed = h[i - 1];
            let subset = spec_candidates(h, seed);
            let seeded = h.update(i - 1, Hit { label: l, ..seed });
            (
                bfs_fill(seeded, subset, seq![seed], Seq::empty(), l, (2 * hits.len() + 2) as nat),
                (l + 1) as u16,
            )
        }
    }
}

/// The TDC packet that reopens this pulse in a TPX3C stream.
pub open spec fn spec_tdc_packet(p: Pulse) -> u64 {
    let add = ((((p.time as u64) % 25) + 1) as u64);
    let tdc = ((p.time as u64) % (TDC_LIMIT as u64)) / 25;
    let trigger = p.triggers << 44;
    let coarsetime = (tdc / 1000) << 12;
    let trigtime = ((((tdc % 1000) * 4096) as u64) / 1000);
    let upper = trigtime & 0x0E00;
    let lower = (((((((trigtime & 0x01FF) * 12) as u64) >> 9) + add) as u64 & 0xFF) << 5);
    (0x6Au64 << 56) | trigger | coarsetime | upper | lower
}

/// The byte run a single hit contributes to the TPX3C stream: its hit packet,
/// then a blob packet when it stands for two or more raw hits.
pub open spec fn spec_hit_bytes(h: Hit) -> Seq<u8> {
    if h.size > 1 {
        spec_u64_to_le_bytes(spec_hit_packet(h)) + spec_u64_to_le_bytes(spec_blob_packet(h))
    } else {
        spec_u64_to_le_bytes(spec_hit_packet(h))
    }
}

/// The concatenated byte runs of a sequence of hits.
pub open spec fn spec_hits_bytes(hits: Seq<Hit>) -> Seq<u8>
    decreases hits.len(),
{
    if hits.len() == 0 {
        Seq::empty()
    } else {
        spec_hits_bytes(hits.drop_last()) + spec_hit_bytes(hits.last())
    }
}

/// The full TPX3C encoding of a pulse: its TDC packet, then its hits.
pub open spec fn spec_pulse_bytes(p: Pulse) -> Seq<u8> {
    spec_u64_to_le_bytes(spec_tdc_packet(p)) + spec_hits_bytes(p.hits@)
}

impl Pulse {
    /// Appends a fresh unlabelled hit, indexed by its position.
    pub fn add_hit(&mut self, toa: i64, tot: u32, col: u8, row: u8)
        requires
            old(self).hits@.len() < u32::MAX,
        ensures
            final(self).time == old(self).time,
            final(self).triggers == old(self).triggers,
            final(self).clusters == old(self).clusters,
            final(self).hits@ == old(self).hits@.push(
                Hit {
                    index: old(self).hits@.len() as u32,
                    toa,
                    tot,
                    col,
                    row,
                    label: 0,
                    size: 0,
                    col_offset: 0,
                    row_offset: 0,
                },
            ),
    {
        let index = self.hits.len() as u32;
        let h = Hit::new(index, toa, tot, col, row);
        self.hits.push(h);
    }

    /// Packs the pulse's trigger time and counter into a TPX3C TDC packet.
    pub fn to_tdc_packet(&self) -> (r: u64)
        requires
            0 <= self.time,
        ensures
            r == spec_tdc_packet(*self),
    {
        let time: u64 = self.time as u64;
        let add: u64 = time % 25 + 1;
        let tdc: u64 = (time % (TDC_LIMIT as u64)) / 25;
        let header: u64 = 0x6Au64 << 56;
        let trigger: u64 = self.triggers << 44;
        let coarsetime: u64 = (tdc / 1000) << 12;
        let trigtime: u64 = (tdc % 1000) * 4096 / 1000;
        let upper: u64 = trigtime & 0x0E00;
        let lower: u64 = trigtime & 0x01FF;
        assert(trigtime & 0x01FF <= 0x1FF) by (bit_vector);
        let scaled: u64 = lower * 12;
        assert(scaled >> 9 <= scaled) by (bit_vector);
        let lower: u64 = (((scaled >> 9) + add) & 0xFF) << 5;
        header | trigger | coarsetime | upper | lower
    }

    /// Serializes the pulse as TPX3C packets, little-endian, 8 bytes each.
    pub fn to_bytes(&self) -> (r: Vec<u8>)
        requires
            0 <= self.time,
            forall|i: int| 0 <= i < self.hits@.len() ==> (#[trigger] self.hits@[i]).toa >= 0,
        ensures
            r@ == spec_pulse_bytes(*self),
    {
        let mut total: Vec<u8> = u64_to_le_bytes(self.to_tdc_packet());
        let n = self.hits.len();
        let mut i: usize = 0;
        while i < n
            invariant
                n == self.hits@.len(),
                0 <= i <= n,
                0 <= self.time,
                forall|k: int| 0 <= k < self.hits@.len() ==> (#[trigger] self.hits@[k]).toa >= 0,
                total@ == spec_u64_to_le_bytes(spec_tdc_packet(*self)) + spec_hits_bytes(
                    self.hits@.take(i as int),
                ),
            decreases n - i,
        {
            let hit = self.hits[i];
            let mut hb = u64_to_le_bytes(hit.to_hit_packet());
            total.append(&mut hb);
            if hit.size > 1 {
                let mut bb = u64_to_le_bytes(hit.to_blob_packet());
                total.append(&mut bb);
            }
            proof {
                assert(self.hits@.take(i + 1).drop_last() =~= self.hits@.take(i as int));
                assert(self.hits@.take(i + 1).last() == self.hits@[i as int]);
            }
            i = i + 1;
        }
        proof {
            assert(self.hits@.take(n as int) =~= self.hits@);
        }
        total
    }
    /// Flood-fill clustering: labels every hit, growing one cluster from each
    /// still-unlabelled seed through chains of proximal candidate hits, and
    /// records the number of labels handed out in `clusters`.
    pub fn label_hits(&mut self)
        requires
            old(self).hits@.len() < 65535,
            forall|i: int|
                0 <= i < old(self).hits@.len() ==> (#[trigger] old(self).hits@[i]).index == i,
            forall|i: int|
                0 <= i < old(self).hits@.len() ==> (#[trigger] old(self).hits@[i]).label == 0,
            forall|i: int|
                0 <= i < old(self).hits@.len() ==> (#[trigger] old(self).hits@[i]).toa >= 0,
        ensures
            final(self).time == old(self).time,
            final(self).triggers == old(self).triggers,
            final(self).hits@ == label_fold(old(self).hits@, old(self).hits@.len() as int).0,
            final(self).clusters == label_fold(old(self).hits@, old(self).hits@.len() as int).1
                - 1,
            final(self).hits@.len() == old(self).hits@.len(),
            forall|i: int|
                0 <= i < old(self).hits@.len() ==> strip_label(
                    #[trigger] final(self).hits@[i],
                ) == strip_label(old(self).hits@[i]),
            forall|i: int|
                0 <= i < final(self).hits@.len() ==> 1 <= (#[trigger] final(self).hits@[i]).label
                    <= final(self).clusters,
            final(self).clusters <= final(self).hits@.len(),
    {
        let ghost orig = old(self).hits@;
        let mut current_label: u16 = 1;
        let n = self.hits.len();
        let mut i: usize = 0;
        while i < n
            invariant
                n == self.hits@.len(),
                n == orig.len(),
                n < 65535,
                0 <= i <= n,
                1 <= current_label <= i + 1,
                self.hits@ == label_fold(orig, i as int).0,
                current_label == label_fold(orig, i as int).1,
                forall|j: int| 0 <= j < n ==> (#[trigger] orig[j]).index == j,
                forall|j: int| 0 <= j < n ==> (#[trigger] orig[j]).label == 0,
                forall|j: int| 0 <= j < n ==> (#[trigger] orig[j]).toa >= 0,
                forall|j: int|
                    0 <= j < n ==> strip_label(#[trigger] self.hits@[j]) == strip_label(orig[j]),
                forall|j: int| 0 <= j < n ==> (#[trigger] self.hits@[j]).label < current_label,
                forall|j: int| 0 <= j < i ==> (#[trigger] self.hits@[j]).label >= 1,
                self.time == old(self).time,
                self.triggers == old(self).triggers,
            decreases n - i,
        {
            let ghost round_hits = self.hits@;
            let hit = self.hits[i];
            if hit.label == 0 {
                // Candidates near the seed; their labels at seed time are all
                // zero, so only time and the coarse pixel box gate them.
                let mut subset: Vec<Hit> = Vec::new();
                let mut k: usize = 0;
                while k < n
                    invariant
                        n == self.hits@.len(),
                        0 <= k <= n,
                        self.hits@ == round_hits,
                        hit == round_hits[i as int],
                        0 <= i < n,
                        hit.toa >= 0,
                        subset@ == spec_candidates(round_hits.take(k as int), hit),
                        forall|j: int| 0 <= j < n ==> (#[trigger] orig[j]).index == j,
                        forall|j: int| 0 <= j < n ==> (#[trigger] orig[j]).toa >= 0,
                        forall|j: int|
                            0 <= j < n ==> strip_label(#[trigger] self.hits@[j]) == strip_label(
                                orig[j],
                            ),
                        forall|m: int|
                            0 <= m < subset@.len() ==> (#[trigger] subset@[m]).index < n,
                    decreases n - k,
                {
                    let o = self.hits[k];
                    let dt = hit.toa - o.toa;
                    let dc = (hit.col as i32) - (o.col as i32);
                    let dr = (hit.row as i32) - (o.row as i32);
                    proof {
                        reveal(Seq::filter);
                        assert(round_hits.take(k + 1).drop_last() =~= round_hits.take(k as int));
                        assert(round_hits.take(k + 1).last() == round_hits[k as int]);
                    }
                    if -1_000_000 < dt && dt < 1_000_000 && -15 < dc && dc < 15 && -15 < dr && dr
                        < 15 {
                        subset.push(o);
                    }
                    k = k + 1;
                }
                proof {
                    assert(round_hits.take(n as int) =~= round_hits);
                }
                // Breadth search from the seed. The step budget covers every
                // candidate once over, since a hit that leaves the active list
                // moves to the checked list and is never pushed again. The
                // seed is the first pop, so it carries the label from the
                // start.
                let mut labelled_seed = self.hits[i];
                labelled_seed.label = current_label;
                self.hits.set(i, labelled_seed);
                let ghost seeded = round_hits.update(
                    i as int,
                    Hit { label: current_label, ..hit },
                );
                proof {
                    assert(self.hits@ =~= seeded);
                }
                let mut active: Vec<Hit> = Vec::new();
                let mut checked: Vec<Hit> = Vec::new();
                active.push(hit);
                let mut fuel: usize = 2 * n + 2;
                proof {
                    assert(active@ =~= seq![hit]);
                    assert(checked@ =~= Seq::<Hit>::empty());
                }
                while active.len() > 0 && fuel > 0
                    invariant
                        n == self.hits@.len(),
                        n < 65535,
                        1 <= current_label <= i + 1,
                        i < n,
                        fuel <= 2 * n + 2,
                        hit == round_hits[i as int],
                        round_hits.len() == n,
                        subset@ == spec_candidates(round_hits, hit),
                        seeded == round_hits.update(i as int, Hit { label: current_label, ..hit }),
                        bfs_fill(
                            self.hits@,
                            subset@,
                            active@,
                            checked@,
                            current_label,
                            fuel as nat,
                        ) == bfs_fill(
                            seeded,
                            subset@,
                            seq![hit],
                            Seq::empty(),
                            current_label,
                            (2 * n + 2) as nat,
                        ),
                        forall|j: int| 0 <= j < n ==> (#[trigger] orig[j]).index == j,
                        forall|j: int|
                            0 <= j < n ==> strip_label(#[trigger] self.hits@[j]) == strip_label(
                                orig[j],
                            ),
                        forall|j: int|
                            0 <= j < n ==> (#[trigger] self.hits@[j]).label <= current_label,
                        forall|j: int| 0 <= j < i ==> (#[trigger] self.hits@[j]).label >= 1,
                        forall|m: int|
                            0 <= m < subset@.len() ==> (#[trigger] subset@[m]).index < n,
                        forall|m: int|
                            0 <= m < active@.len() ==> (#[trigger] active@[m]).index < n,
                        self.hits@[i as int].label == current_label,
                        self.time == old(self).time,
                        self.triggers == old(self).triggers,
                    decreases fuel,
                {
                    let ghost pre_hits = self.hits@;
                    let ghost pre_active = active@;
                    let ghost pre_checked = checked@;
                    let ghost pre_fuel = fuel;
                    let check = active.pop().unwrap();
                    let ghost popped = active@;
                    proof {
                        assert(check == pre_active.last());
                        assert(popped =~= pre_active.drop_last());
                    }
                    let mut k: usize = 0;
                    while k < subset.len()
                        invariant
                            forall|m: int|
                                0 <= m < subset@.len() ==> (#[trigger] subset@[m]).index < n,
                            forall|m: int|
                                0 <= m < active@.len() ==> (#[trigger] active@[m]).index < n,
                            check.index < n,
                            0 <= k <= subset@.len(),
                            active@ == bfs_enqueue(subset@, k as int, popped, checked@, check),
                        decreases subset@.len() - k,
                    {
                        let prox = subset[k];
                        if prox.is_proximal(&check) {
                            if !contains_same_hit(&checked, &prox) && !contains_same_hit(
                                &active,
                                &prox,
                            ) {
                                active.push(prox);
                            }
                        }
                        k = k + 1;
                    }
                    let idx = check.index as usize;
                    let mut labelled = self.hits[idx];
                    labelled.label = current_label;
                    self.hits.set(idx, labelled);
                    checked.push(check);
                    fuel = fuel - 1;
                    proof {
                        assert(self.hits@ =~= pre_hits.update(
                            check.index as int,
                            Hit { label: current_label, ..pre_hits[check.index as int] },
                        ));
                        assert(checked@ =~= pre_checked.push(check));
                        assert(active@ == bfs_enqueue(
                            subset@,
                            subset@.len() as int,
                            pre_active.drop_last(),
                            pre_checked,
                            check,
                        ));
                        assert(bfs_fill(
                            pre_hits,
                            subset@,
                            pre_active,
                            pre_checked,
                            current_label,
                            pre_fuel as nat,
                        ) == bfs_fill(
                            self.hits@,
                            subset@,
                            active@,
                            checked@,
                            current_label,
                            fuel as nat,
                        ));
                    }
                }
                proof {
                    assert(bfs_fill(
                        self.hits@,
                        subset@,
                        active@,
                        checked@,
                        current_label,
                        fuel as nat,
                    ) == self.hits@);
                    assert(label_fold(orig, i + 1).0 == self.hits@);
                    assert(label_fold(orig, i + 1).1 == current_label + 1);
                }
                current_label = current_label + 1;
            } else {
                proof {
                    assert(label_fold(orig, i + 1).0 == self.hits@);
                    assert(label_fold(orig, i + 1).1 == current_label);
                }
            }
            i = i + 1;
        }
        self.clusters = (current_label - 1) as usize;
    }

    /// Collapses each labelled cluster into one sub-pixel hit: earliest ToA,
    /// summed ToT, ToT-weighted mean pixel with fractional offsets, and the
    /// member count as `size`. Labels that own no hits are skipped without
    /// renumbering the survivors.
    pub fn centroid(&self) -> (r: Pulse)
        requires
            self.hits@.len() < 65536,
            self.clusters <= 65534,
            cluster_tot(self.hits@) <= u32::MAX,
        ensures
            r.time == self.time,
            r.triggers == self.triggers,
            r.hits@ == spec_centroid_hits(self.hits@, self.clusters as int),
            r.clusters == r.hits@.len(),
    {
        let mut out: Vec<Hit> = Vec::new();
        let mut counter: usize = 0;
        let mut l: usize = 1;
        while l <= self.clusters
            invariant
                1 <= l <= self.clusters + 1,
                self.hits@.len() < 65536,
                self.clusters <= 65534,
                cluster_tot(self.hits@) <= u32::MAX,
                counter == out@.len(),
                counter <= l - 1,
                out@ == spec_centroid_hits(self.hits@, l - 1),
            decreases self.clusters + 1 - l,
        {
            let ghost gl = l as int;
            let mut cluster: Vec<Hit> = Vec::new();
            let n = self.hits.len();
            let mut k: usize = 0;
            while k < n
                invariant
                    n == self.hits@.len(),
                    0 <= k <= n,
                    cluster@ == self.hits@.take(k as int).filter(|h: Hit| h.label == gl),
                    gl == l,
                decreases n - k,
            {
                let h = self.hits[k];
                proof {
                    reveal(Seq::filter);
                    assert(self.hits@.take(k + 1).drop_last() =~= self.hits@.take(k as int));
                    assert(self.hits@.take(k + 1).last() == self.hits@[k as int]);
                }
                if (h.label as usize) == l {
                    cluster.push(h);
                }
                k = k + 1;
            }
            proof {
                assert(self.hits@.take(n as int) =~= self.hits@);
                lemma_cluster_tot_le(self.hits@, gl);
            }
            let size = cluster.len();
            if size > 0 {
                counter = counter + 1;
                let mut min_toa: i64 = cluster[0].toa;
                let mut tot_sum: u64 = 0;
                let mut wc: u64 = 0;
                let mut wr: u64 = 0;
                let mut k: usize = 0;
                let ghost c = cluster@;
                while k < size
                    invariant
                        size == c.len(),
                        cluster@ == c,
                        0 < size < 65536,
                        0 <= k <= size,
                        k == 0 ==> min_toa == c[0].toa,
                        k > 0 ==> min_toa == cluster_min_toa(c.take(k as int)),
                        tot_sum == cluster_tot(c.take(k as int)),
                        wc == cluster_weighted_col(c.take(k as int)),
                        wr == cluster_weighted_row(c.take(k as int)),
                        tot_sum <= k * 0xFFFF_FFFFu64,
                        wc <= 255 * tot_sum,
                        wr <= 255 * tot_sum,
                    decreases size - k,
                {
                    let h = cluster[k];
                    proof {
                        assert(c.take(k + 1).drop_last() =~= c.take(k as int));
                        assert(c.take(k + 1).last() == c[k as int]);
                        assert(h.col * h.tot <= 255 * h.tot && h.row * h.tot <= 255 * h.tot)
                            by (nonlinear_arith)
                            requires
                                h.col <= 255 && h.row <= 255 && h.tot >= 0,
                        ;
                    }
                    if k == 0 {
                        min_toa = h.toa;
                    } else if h.toa < min_toa {
                        min_toa = h.toa;
                    }
                    tot_sum = tot_sum + (h.tot as u64);
                    wc = wc + (h.col as u64) * (h.tot as u64);
                    wr = wr + (h.row as u64) * (h.tot as u64);
                    k = k + 1;
                }
                proof {
                    assert(c.take(size as int) =~= c);
                }
                let (mcol, mrow, coff, roff): (u64, u64, u64, u64) = if tot_sum == 0 {
                    (0, 0, 0, 0)
                } else {
                    proof {
                        lemma_weighted_mean_bounds(wc as int, tot_sum as int);
                        lemma_weighted_mean_bounds(wr as int, tot_sum as int);
                    }
                    (
                        wc / tot_sum,
                        wr / tot_sum,
                        (wc % tot_sum) * 255 / tot_sum,
                        (wr % tot_sum) * 255 / tot_sum,
                    )
                };
                let centroided = Hit {
                    toa: min_toa,
                    tot: tot_sum as u32,
                    col: mcol as u8,
                    row: mrow as u8,
                    index: counter as u32,
                    label: (counter + 1) as u16,
                    size: size as u16,
                    col_offset: coff as u8,
                    row_offset: roff as u8,
                };
                out.push(centroided);
            }
            l = l + 1;
        }
        Pulse { time: self.time, hits: out, triggers: self.triggers, clusters: counter }
    }

    /// Expands every hit of the pulse with `Hit::quicksplat`, in order.
    pub fn quicksplat(&self) -> (r: Pulse)
        ensures
            r.time == self.time,
            r.triggers == self.triggers,
            r.clusters == self.clusters,
            r.hits@ == spec_splat_all(self.hits@),
    {
        let mut out: Vec<Hit> = Vec::new();
        let n = self.hits.len();
        let mut i: usize = 0;
        while i < n
            invariant
                n == self.hits@.len(),
                0 <= i <= n,
                out@ == spec_splat_all(self.hits@.take(i as int)),
            decreases n - i,
        {
            let mut splat = self.hits[i].quicksplat();
            out.append(&mut splat);
            proof {
                assert(self.hits@.take(i + 1).drop_last() =~= self.hits@.take(i as int));
                assert(self.hits@.take(i + 1).last() == self.hits@[i as int]);
            }
            i = i + 1;
        }
        proof {
            assert(self.hits@.take(n as int) =~= self.hits@);
        }
        Pulse { hits: out, time: self.time, triggers: self.triggers, clusters: self.clusters }
    }
}

/// The hits of `hits` carrying label `l`, in order.
pub open spec fn cluster_of(hits: Seq<Hit>, l: int) -> Seq<Hit> {
    hits.filter(|h: Hit| h.label == l)
}

/// Smallest time of arrival in a cluster (0 for an empty one).
pub open spec fn cluster_min_toa(c: Seq<Hit>) -> int
    decreases c.len(),
{
    if c.len() == 0 {
        0
    } else if c.len() == 1 {
        c[0].toa as int
    } else {
        let rest = cluster_min_toa(c.drop_last());
        if c.last().toa < rest {
            c.last().toa as int
        } else {
            rest
        }
    }
}

/// Summed time over threshold of a cluster.
pub open spec fn cluster_tot(c: Seq<Hit>) -> int
    decreases c.len(),
{
    if c.len() == 0 {
        0
    } else {
        cluster_tot(c.drop_last()) + c.last().tot
    }
}

/// ToT-weighted column sum of a cluster.
pub open spec fn cluster_weighted_col(c: Seq<Hit>) -> int
    decreases c.len(),
{
    if c.len() == 0 {
        0
    } else {
        cluster_weighted_col(c.drop_last()) + c.last().col * c.last().tot
    }
}

/// ToT-weighted row sum of a cluster.
pub open spec fn cluster_weighted_row(c: Seq<Hit>) -> int
    decreases c.len(),
{
    if c.len() == 0 {
        0
    } else {
        cluster_weighted_row(c.drop_last()) + c.last().row * c.last().tot
    }
}

/// The one hit centroiding emits for the nonempty cluster `c` as output
/// number `counter` (1-based): earliest ToA, summed ToT, truncated weighted
/// mean pixel, and the fractional parts scaled by 255 as offsets. A cluster
/// whose ToT sum is zero centres on pixel (0, 0), as the weights say nothing.
pub open spec fn spec_centroid_hit(c: Seq<Hit>, counter: int) -> Hit {
    let tot = cluster_tot(c);
    let mc = if tot == 0 {
        0
    } else {
        cluster_weighted_col(c) / tot
    };
    let mr = if tot == 0 {
        0
    } else {
        cluster_weighted_row(c) / tot
    };
    let co = if tot == 0 {
        0
    } else {
        (cluster_weighted_col(c) % tot) * 255 / tot
    };
    let ro = if tot == 0 {
        0
    } else {
        (cluster_weighted_row(c) % tot) * 255 / tot
    };
    Hit {
        toa: cluster_min_toa(c) as i64,
        tot: tot as u32,
        col: mc as u8,
        row: mr as u8,
        index: counter as u32,
        label: (counter + 1) as u16,
        size: c.len() as u16,
        col_offset: co as u8,
        row_offset: ro as u8,
    }
}

/// Everything `centroid` emits for labels `1..=maxl`: one hit per nonempty
/// cluster, numbered consecutively from 1 in label order.
pub open spec fn spec_centroid_hits(hits: Seq<Hit>, maxl: int) -> Seq<Hit>
    decreases maxl,
{
    if maxl <= 0 {
        Seq::empty()
    } else {
        let prev = spec_centroid_hits(hits, maxl - 1);
        let c = cluster_of(hits, maxl);
        if c.len() == 0 {
            prev
        } else {
            prev.push(spec_centroid_hit(c, prev.len() as int + 1))
        }
    }
}

/// The concatenation of the quicksplat expansions of a hit sequence.
pub open spec fn spec_splat_all(hits: Seq<Hit>) -> Seq<Hit>
    decreases hits.len(),
{
    if hits.len() == 0 {
        Seq::empty()
    } else {
        spec_splat_all(hits.drop_last()) + spec_quicksplat(hits.last())
    }
}

/// A cluster's ToT sum never exceeds the whole pulse's ToT sum.
pub proof fn lemma_cluster_tot_le(hits: Seq<Hit>, l: int)
    ensures
        0 <= cluster_tot(cluster_of(hits, l)) <= cluster_tot(hits),
    decreases hits.len(),
{
    reveal(Seq::filter);
    if hits.len() == 0 {
    } else {
        let prefix = hits.drop_last();
        lemma_cluster_tot_le(prefix, l);
        assert(cluster_of(hits, l) == if hits.last().label == l {
            cluster_of(prefix, l).push(hits.last())
        } else {
            cluster_of(prefix, l)
        });
        if hits.last().label == l {
            let pushed = cluster_of(prefix, l).push(hits.last());
            assert(pushed.drop_last() =~= cluster_of(prefix, l));
            assert(pushed.last() == hits.last());
        }
    }
}

/// Bounds for the truncated weighted mean and its fractional offset: with the
/// weighted sum at most `255 * tot`, the mean is a pixel coordinate and the
/// offset fits a byte.
pub proof fn lemma_weighted_mean_bounds(w: int, tot: int)
    requires
        tot > 0,
        0 <= w <= 255 * tot,
    ensures
        0 <= w / tot <= 255,
        0 <= (w % tot) * 255 / tot <= 254,
{
    assert(w / tot <= 255 && (w % tot) * 255 / tot <= 254 && w / tot >= 0 && (w % tot) * 255 / tot
        >= 0) by (nonlinear_arith)
        requires
            tot > 0 && 0 <= w <= 255 * tot,
    ;
}

/// Sum of the `size` fields of a sequence of hits.
pub open spec fn sum_sizes(hits: Seq<Hit>) -> int
    decreases hits.len(),
{
    if hits.len() == 0 {
        0
    } else {
        sum_sizes(hits.drop_last()) + hits.last().size
    }
}

/// Sum over labels `1..=maxl` of the cluster populations.
pub open spec fn sum_cluster_counts(hits: Seq<Hit>, maxl: int) -> int
    decreases maxl,
{
    if maxl <= 0 {
        0
    } else {
        sum_cluster_counts(hits, maxl - 1) + cluster_of(hits, maxl).len()
    }
}

/// Appending one hit raises exactly its own label's population.
proof fn lemma_cluster_counts_push(s: Seq<Hit>, h: Hit, maxl: int)
    ensures
        sum_cluster_counts(s.push(h), maxl) == sum_cluster_counts(s, maxl) + if 1 <= h.label
            <= maxl {
            1int
        } else {
            0int
        },
    decreases maxl,
{
    reveal(Seq::filter);
    if maxl <= 0 {
    } else {
        lemma_cluster_counts_push(s, h, maxl - 1);
        assert(s.push(h).drop_last() =~= s);
        assert(cluster_of(s.push(h), maxl) == if h.label == maxl {
            cluster_of(s, maxl).push(h)
        } else {
            cluster_of(s, maxl)
        });
    }
}

/// With every label in `1..=maxl`, the cluster populations partition the
/// hits: their sum is the number of hits.
pub proof fn lemma_label_partition(hits: Seq<Hit>, maxl: int)
    requires
        forall|i: int| 0 <= i < hits.len() ==> 1 <= (#[trigger] hits[i]).label <= maxl,
    ensures
        sum_cluster_counts(hits, maxl) == hits.len(),
    decreases hits.len(),
{
    reveal(Seq::filter);
    if hits.len() == 0 {
        lemma_counts_empty(maxl);
        assert(hits =~= Seq::<Hit>::empty());
    } else {
        let prefix = hits.drop_last();
        assert(forall|i: int|
            0 <= i < prefix.len() ==> 1 <= (#[trigger] prefix[i]).label <= maxl) by {
            assert(forall|i: int| 0 <= i < prefix.len() ==> prefix[i] == hits[i]);
        }
        lemma_label_partition(prefix, maxl);
        lemma_cluster_counts_push(prefix, hits.last(), maxl);
        assert(1 <= hits[hits.len() - 1].label <= maxl);
        assert(sum_cluster_counts(prefix.push(hits.last()), maxl) == prefix.len() + 1);
        assert(hits =~= prefix.push(hits.last()));
        assert(hits == prefix.push(hits.last()));
        assert(sum_cluster_counts(hits, maxl) == sum_cluster_counts(prefix.push(hits.last()), maxl));
    }
}

/// No hits, no cluster members.
proof fn lemma_counts_empty(maxl: int)
    ensures
        sum_cluster_counts(Seq::<Hit>::empty(), maxl) == 0,
    decreases maxl,
{
    reveal(Seq::filter);
    if maxl > 0 {
        lemma_counts_empty(maxl - 1);
    }
}

/// The sizes of the centroided hits add up to the cluster populations.
proof fn lemma_sizes_eq_counts(hits: Seq<Hit>, maxl: int)
    requires
        hits.len() < 65536,
    ensures
        sum_sizes(spec_centroid_hits(hits, maxl)) == sum_cluster_counts(hits, maxl),
    decreases maxl,
{
    if maxl <= 0 {
    } else {
        lemma_sizes_eq_counts(hits, maxl - 1);
        let prev = spec_centroid_hits(hits, maxl - 1);
        let c = cluster_of(hits, maxl);
        assert(c.len() <= hits.len()) by {
            hits.lemma_filter_len(|h: Hit| h.label == maxl);
        }
        if c.len() > 0 {
            assert(prev.push(spec_centroid_hit(c, prev.len() as int + 1)).drop_last() =~= prev);
        }
    }
}

/// Centroiding preserves the raw hit count: over a fully labelled pulse the
/// emitted `size` fields sum to the number of raw hits, clusters that
/// ended up empty having had nothing to contribute.
pub proof fn lemma_centroid_preserves_hit_count(hits: Seq<Hit>, maxl: int)
    requires
        hits.len() < 65536,
        forall|i: int| 0 <= i < hits.len() ==> 1 <= (#[trigger] hits[i]).label <= maxl,
    ensures
        sum_sizes(spec_centroid_hits(hits, maxl)) == hits.len(),
{
    lemma_sizes_eq_counts(hits, maxl);
    lemma_label_partition(hits, maxl);
}

/// Whether some element of `v` matches `h` on the identity fields.
pub fn contains_same_hit(v: &Vec<Hit>, h: &Hit) -> (r: bool)
    ensures
        r == exists|i: int| 0 <= i < v@.len() && same_hit(#[trigger] v@[i], *h),
{
    let mut i: usize = 0;
    while i < v.len()
        invariant
            0 <= i <= v@.len(),
            forall|j: int| 0 <= j < i ==> !same_hit(#[trigger] v@[j], *h),
        decreases v@.len() - i,
    {
        let c = &v[i];
        if c.toa == h.toa && c.col == h.col && c.row == h.row {
            return true;
        }
        i = i + 1;
    }
    false
}

} // verus!
