//! Streaming decode of the packet stream: a pulse decoder that closes a pulse
//! at each TDC edge while correcting both wrap-around clocks, and a TDC-only
//! decoder used for pulse-train discovery.
use vstd::prelude::*;
use vstd::bytes::u64_from_le_bytes;
use vstd::bytes::spec_u64_from_le_bytes;
use crate::codec::HIT_LIMIT;
use crate::codec::MAX_HROLLS;
use crate::codec::MAX_RAW_TOA;
use crate::codec::MAX_TROLLS;
use crate::codec::ROLL;
use crate::codec::CHECK;
use crate::codec::TDC_LIMIT;
use crate::codec::hit_col;
use crate::codec::hit_row;
use crate::codec::hit_tot;
use crate::codec::hit_toa;
use crate::codec::parse_hit_packet;
use crate::codec::parse_tdc_packet;
use crate::codec::roll;
use crate::codec::spec_roll;
use crate::codec::tdc_time;
use crate::codec::tdc_trigger;
use crate::hit::Hit;
use crate::pulse::Pulse;

verus! {

/// A fatal fault in the packet stream, or a machine bound exceeded.
#[derive(Clone, Copy, Debug, PartialEq, Eq, Structural)]
pub enum DecodeError {
    /// The top nibble is not a recognized kind and the low four bytes are
    /// not the ASCII chunk sentinel.
    UnknownPacket,
    /// A blob packet arrived with no hit in the open pulse to extend.
    BlobWithoutHit,
    /// A rollover counter, a hit list, or a ToT sum left the range the
    /// machine integers can carry.
    LimitExceeded,
}

/// Top nibble says the packet is a TDC edge.
pub open spec fn is_tdc(p: u64) -> bool {
    p >> 60 == 0x6
}

/// Top nibble says the packet is a pixel hit.
pub open spec fn is_hit(p: u64) -> bool {
    p >> 60 == 0xB
}

/// Top nibble says the packet extends the preceding hit.
pub open spec fn is_blob(p: u64) -> bool {
    p >> 60 == 0xC
}

/// Header kinds that the decoder passes over.
pub open spec fn is_ignored(p: u64) -> bool {
    p >> 60 == 0x4 || p >> 60 == 0x7
}

/// The low four bytes spell the ASCII file-chunk sentinel `TPX3`.
pub open spec fn is_chunk_header(p: u64) -> bool {
    p & 0xFFFF_FFFF == 0x3358_5054
}

/// Streaming state of the pulse decoder: the open pulse and the rollover
/// bookkeeping of both clocks.
pub struct PulseDecoder {
    /// The pulse being filled; closed and yielded at the next TDC edge.
    pub pulse: Pulse,
    /// TDC wrap count.
    pub trolls: i64,
    /// ToA wrap count.
    pub hrolls: i64,
    /// Raw time of the last TDC packet; 0 until the first TDC arrives.
    pub ptdc: i64,
    /// Raw ToA of the last hit packet.
    pub ptoa: i64,
    /// Trigger counter of the last TDC packet.
    pub ptri: u64,
}

impl PulseDecoder {
    /// The decoder's invariant: counters inside their machine bounds, the
    /// open pulse carrying the absolute time and trigger of its opening TDC,
    /// and its hits fresh from decoding (indexed by position, unlabelled,
    /// with nonnegative times).
    pub open spec fn wf(self) -> bool {
        &&& 0 <= self.trolls <= MAX_TROLLS
        &&& 0 <= self.hrolls <= MAX_HROLLS
        &&& 0 <= self.ptdc < TDC_LIMIT
        &&& 0 <= self.ptoa < MAX_RAW_TOA
        &&& self.pulse.time == self.ptdc + self.trolls * TDC_LIMIT
        &&& self.pulse.triggers == self.ptri
        &&& self.pulse.hits@.len() <= u32::MAX
        &&& forall|i: int|
            0 <= i < self.pulse.hits@.len() ==> (#[trigger] self.pulse.hits@[i]).index == i
        &&& forall|i: int|
            0 <= i < self.pulse.hits@.len() ==> (#[trigger] self.pulse.hits@[i]).label == 0
        &&& forall|i: int|
            0 <= i < self.pulse.hits@.len() ==> (#[trigger] self.pulse.hits@[i]).toa >= 0
    }

    /// How a TDC packet advances the clock state.
    pub open spec fn tdc_step(self, new: PulseDecoder, p: u64) -> bool {
        let tdc = tdc_time(p);
        let trolls2 = self.trolls + if tdc < self.ptdc {
            1int
        } else {
            0int
        };
        &&& new.trolls == trolls2
        &&& new.hrolls == self.hrolls
        &&& new.ptoa == self.ptoa
        &&& new.ptdc == tdc
        &&& new.ptri == tdc_trigger(p)
        &&& new.pulse.time == tdc + trolls2 * TDC_LIMIT
        &&& new.pulse.triggers == tdc_trigger(p)
        &&& new.pulse.hits@ == Seq::<Hit>::empty()
        &&& new.pulse.clusters == 0
    }

    /// How a hit packet advances the decoder: the ToA wrap count may rise by
    /// the rollover rule, and one hit with the corrected absolute ToA joins
    /// the open pulse.
    pub open spec fn hit_step(self, new: PulseDecoder, p: u64) -> bool {
        let rtoa = hit_toa(p);
        let hrolls2 = self.hrolls + spec_roll(rtoa, self.ptoa as int, self.hrolls as int,
            self.ptdc as int, self.trolls as int);
        &&& new.trolls == self.trolls
        &&& new.hrolls == hrolls2
        &&& new.ptoa == rtoa
        &&& new.ptdc == self.ptdc
        &&& new.ptri == self.ptri
        &&& new.pulse.time == self.pulse.time
        &&& new.pulse.triggers == self.pulse.triggers
        &&& new.pulse.clusters == self.pulse.clusters
        &&& new.pulse.hits@ == self.pulse.hits@.push(
            Hit {
                index: self.pulse.hits@.len() as u32,
                toa: (rtoa + hrolls2 * HIT_LIMIT) as i64,
                tot: hit_tot(p) as u32,
                col: hit_col(p) as u8,
                row: hit_row(p) as u8,
                label: 0,
                size: 0,
                col_offset: 0,
                row_offset: 0,
            },
        )
    }

    /// How a blob packet advances the decoder: the last hit of the open
    /// pulse absorbs the packet's ToT summand, offsets and size.
    pub open spec fn blob_step(self, new: PulseDecoder, p: u64) -> bool {
        let last = self.pulse.hits@.last();
        &&& new.trolls == self.trolls
        &&& new.hrolls == self.hrolls
        &&& new.ptoa == self.ptoa
        &&& new.ptdc == self.ptdc
        &&& new.ptri == self.ptri
        &&& new.pulse.time == self.pulse.time
        &&& new.pulse.triggers == self.pulse.triggers
        &&& new.pulse.clusters == self.pulse.clusters
        &&& new.pulse.hits@ == self.pulse.hits@.update(
            self.pulse.hits@.len() - 1,
            Hit {
                tot: (last.tot + ((p >> 16) & 0x00FF_FFFF) * 25_600) as u32,
                col_offset: ((p >> 48) & 0xFF) as u8,
                row_offset: ((p >> 40) & 0xFF) as u8,
                size: (p & 0xFFFF) as u16,
                ..last
            },
        )
    }

    /// A fresh decoder with both clocks at zero and an empty pulse open.
    pub fn new() -> (d: PulseDecoder)
        ensures
            d.wf(),
            d.trolls == 0,
            d.hrolls == 0,
            d.ptdc == 0,
            d.ptoa == 0,
            d.ptri == 0,
            d.pulse.hits@ == Seq::<Hit>::empty(),
            d.pulse.time == 0,
    {
        PulseDecoder {
            pulse: Pulse { time: 0, hits: Vec::new(), triggers: 0, clusters: 0 },
            trolls: 0,
            hrolls: 0,
            ptdc: 0,
            ptoa: 0,
            ptri: 0,
        }
    }

    /// Feeds one packet to the decoder. A TDC edge closes and returns the
    /// open pulse, unless it is the very first TDC of the stream, which only
    /// initializes the clocks. Hits and blobs grow the open pulse. Chunk
    /// sentinels and ignored kinds pass through. On an error the state is
    /// left as it was.
    pub fn push_packet(&mut self, p: u64) -> (r: Result<Option<Pulse>, DecodeError>)
        requires
            old(self).wf(),
        ensures
            final(self).wf(),
            r is Err ==> *final(self) == *old(self),
            is_tdc(p) ==> match r {
                Ok(out) => {
                    &&& old(self).tdc_step(*final(self), p)
                    &&& old(self).trolls + (if tdc_time(p) < old(self).ptdc {
                        1int
                    } else {
                        0int
                    }) <= MAX_TROLLS
                    &&& (old(self).ptdc == 0 ==> out is None)
                    &&& (old(self).ptdc != 0 ==> out == Some(old(self).pulse))
                },
                Err(e) => {
                    &&& e == DecodeError::LimitExceeded
                    &&& old(self).trolls + (if tdc_time(p) < old(self).ptdc {
                        1int
                    } else {
                        0int
                    }) > MAX_TROLLS
                },
            },
            is_hit(p) ==> match r {
                Ok(out) => {
                    &&& out is None
                    &&& old(self).hit_step(*final(self), p)
                    &&& old(self).hrolls + spec_roll(
                        hit_toa(p),
                        old(self).ptoa as int,
                        old(self).hrolls as int,
                        old(self).ptdc as int,
                        old(self).trolls as int,
                    ) <= MAX_HROLLS
                    &&& old(self).pulse.hits@.len() < u32::MAX
                },
                Err(e) => {
                    let wraps = old(self).hrolls + spec_roll(
                        hit_toa(p),
                        old(self).ptoa as int,
                        old(self).hrolls as int,
                        old(self).ptdc as int,
                        old(self).trolls as int,
                    );
                    &&& e == DecodeError::LimitExceeded
                    &&& (wraps > MAX_HROLLS || old(self).pulse.hits@.len() >= u32::MAX)
                },
            },
            is_blob(p) ==> match r {
                Ok(out) => {
                    &&& out is None
                    &&& old(self).pulse.hits@.len() > 0
                    &&& old(self).pulse.hits@.last().tot + ((p >> 16) & 0x00FF_FFFF) * 25_600
                        <= u32::MAX
                    &&& old(self).blob_step(*final(self), p)
                },
                Err(e) => {
                    ||| (e == DecodeError::BlobWithoutHit && old(self).pulse.hits@.len() == 0)
                    ||| (e == DecodeError::LimitExceeded && old(self).pulse.hits@.len() > 0
                        && old(self).pulse.hits@.last().tot + ((p >> 16) & 0x00FF_FFFF) * 25_600
                        > u32::MAX)
                },
            },
            is_ignored(p) || (!is_tdc(p) && !is_hit(p) && !is_blob(p) && is_chunk_header(p))
                ==> r == Ok::<Option<Pulse>, DecodeError>(None) && *final(self) == *old(self),
            !is_tdc(p) && !is_hit(p) && !is_blob(p) && !is_ignored(p) && !is_chunk_header(p)
                ==> r == Err::<Option<Pulse>, DecodeError>(DecodeError::UnknownPacket),
    {
        let kind = p >> 60;
        if kind == 0x6 {
            let (tdc, trigger) = parse_tdc_packet(p);
            let inc: i64 = if tdc < self.ptdc {
                1
            } else {
                0
            };
            if self.trolls + inc > MAX_TROLLS {
                return Err(DecodeError::LimitExceeded);
            }
            let trolls2 = self.trolls + inc;
            let was_first = self.ptdc == 0;
            let mut prev = Pulse {
                time: tdc + trolls2 * TDC_LIMIT,
                hits: Vec::new(),
                triggers: trigger,
                clusters: 0,
            };
            core::mem::swap(&mut self.pulse, &mut prev);
            self.trolls = trolls2;
            self.ptri = trigger;
            self.ptdc = tdc;
            if was_first {
                Ok(None)
            } else {
                Ok(Some(prev))
            }
        } else if kind == 0xB {
            let (col, row, tot, rtoa) = parse_hit_packet(p);
            let inc = roll(rtoa, self.ptoa, self.hrolls, self.ptdc, self.trolls);
            if self.hrolls + inc > MAX_HROLLS {
                return Err(DecodeError::LimitExceeded);
            }
            if self.pulse.hits.len() >= (u32::MAX as usize) {
                return Err(DecodeError::LimitExceeded);
            }
            let hrolls2 = self.hrolls + inc;
            self.hrolls = hrolls2;
            self.ptoa = rtoa;
            self.pulse.add_hit(rtoa + hrolls2 * HIT_LIMIT, tot, col, row);
            Ok(None)
        } else if kind == 0xC {
            if self.pulse.hits.len() == 0 {
                return Err(DecodeError::BlobWithoutHit);
            }
            let last_index = self.pulse.hits.len() - 1;
            assert((p >> 16) & 0x00FF_FFFF <= 0x00FF_FFFF) by (bit_vector);
            let summand: u64 = ((p >> 16) & 0x00FF_FFFF) * 25_600;
            let last_tot: u64 = self.pulse.hits[last_index].tot as u64;
            if last_tot + summand > (u32::MAX as u64) {
                return Err(DecodeError::LimitExceeded);
            }
            let mut updated = self.pulse.hits[last_index];
            updated.update_with_blob_packet(p);
            self.pulse.hits.set(last_index, updated);
            Ok(None)
        } else if kind == 0x4 || kind == 0x7 {
            Ok(None)
        } else {
            if (p & 0xFFFF_FFFF) == 0x3358_5054 {
                Ok(None)
            } else {
                Err(DecodeError::UnknownPacket)
            }
        }
    }

    /// Closes the stream: a nonempty open pulse is flushed once, an empty
    /// one is discarded.
    pub fn finish(&mut self) -> (r: Option<Pulse>)
        requires
            old(self).wf(),
        ensures
            final(self).wf(),
            old(self).pulse.hits@.len() == 0 ==> r is None && *final(self) == *old(self),
            old(self).pulse.hits@.len() > 0 ==> {
                &&& r == Some(old(self).pulse)
                &&& final(self).pulse.hits@ == Seq::<Hit>::empty()
            },
    {
        if self.pulse.hits.len() == 0 {
            None
        } else {
            let mut taken = Pulse {
                time: self.pulse.time,
                hits: Vec::new(),
                triggers: self.pulse.triggers,
                clusters: 0,
            };
            core::mem::swap(&mut self.pulse, &mut taken);
            Some(taken)
        }
    }
}


/// The 64-bit little-endian packets of a byte stream, one per full 8-byte
/// chunk, any trailing partial chunk ignored.
pub open spec fn stream_packets(bytes: Seq<u8>) -> Seq<u64> {
    Seq::new((bytes.len() / 8) as nat, |j: int| spec_u64_from_le_bytes(bytes.subrange(8 * j, 8 * j + 8)))
}

/// The pulse decoder's state, written out in mathematical form.
pub struct DecSnapshot {
    pub trolls: int,
    pub hrolls: int,
    pub ptdc: int,
    pub ptoa: int,
    pub ptri: u64,
    pub time: int,
    pub triggers: u64,
    pub hits: Seq<Hit>,
}

/// One decoded pulse, written out in mathematical form.
pub struct PulseSnapshot {
    pub time: int,
    pub triggers: u64,
    pub hits: Seq<Hit>,
}

/// Whether an executable decoder is in exactly the state of a snapshot.
pub open spec fn dec_matches(d: PulseDecoder, s: DecSnapshot) -> bool {
    &&& d.trolls == s.trolls
    &&& d.hrolls == s.hrolls
    &&& d.ptdc == s.ptdc
    &&& d.ptoa == s.ptoa
    &&& d.ptri == s.ptri
    &&& d.pulse.time == s.time
    &&& d.pulse.triggers == s.triggers
    &&& d.pulse.hits@ == s.hits
}

/// The state a fresh pulse decoder starts in.
pub open spec fn dec_initial() -> DecSnapshot {
    DecSnapshot {
        trolls: 0,
        hrolls: 0,
        ptdc: 0,
        ptoa: 0,
        ptri: 0,
        time: 0,
        triggers: 0,
        hits: Seq::empty(),
    }
}

/// What one packet does to the decoder: the new state, and either the pulse
/// it closed, nothing, or the fault it raised (faults leave the state put).
pub open spec fn dec_step(s: DecSnapshot, p: u64) -> (
    DecSnapshot,
    Result<Option<PulseSnapshot>, DecodeError>,
) {
    if is_tdc(p) {
        let tdc = tdc_time(p);
        let inc: int = if tdc < s.ptdc {
            1
        } else {
            0
        };
        if s.trolls + inc > MAX_TROLLS {
            (s, Err(DecodeError::LimitExceeded))
        } else {
            let out = if s.ptdc == 0 {
                None
            } else {
                Some(PulseSnapshot { time: s.time, triggers: s.triggers, hits: s.hits })
            };
            (
                DecSnapshot {
                    trolls: s.trolls + inc,
                    ptdc: tdc,
                    ptri: tdc_trigger(p),
                    time: tdc + (s.trolls + inc) * TDC_LIMIT,
                    triggers: tdc_trigger(p),
                    hits: Seq::empty(),
                    ..s
                },
                Ok(out),
            )
        }
    } else if is_hit(p) {
        let rtoa = hit_toa(p);
        let wrap = spec_roll(rtoa, s.ptoa, s.hrolls, s.ptdc, s.trolls);
        if s.hrolls + wrap > MAX_HROLLS || s.hits.len() >= u32::MAX {
            (s, Err(DecodeError::LimitExceeded))
        } else {
            let h = Hit {
                index: s.hits.len() as u32,
                toa: (rtoa + (s.hrolls + wrap) * HIT_LIMIT) as i64,
                tot: hit_tot(p) as u32,
                col: hit_col(p) as u8,
                row: hit_row(p) as u8,
                label: 0,
                size: 0,
                col_offset: 0,
                row_offset: 0,
            };
            (
                DecSnapshot { hrolls: s.hrolls + wrap, ptoa: rtoa, hits: s.hits.push(h), ..s },
                Ok(None),
            )
        }
    } else if is_blob(p) {
        if s.hits.len() == 0 {
            (s, Err(DecodeError::BlobWithoutHit))
        } else {
            let last = s.hits.last();
            if last.tot + ((p >> 16) & 0x00FF_FFFF) * 25_600 > u32::MAX {
                (s, Err(DecodeError::LimitExceeded))
            } else {
                (
                    DecSnapshot {
                        hits: s.hits.update(
                            s.hits.len() - 1,
                            Hit {
                                tot: (last.tot + ((p >> 16) & 0x00FF_FFFF) * 25_600) as u32,
                                col_offset: ((p >> 48) & 0xFF) as u8,
                                row_offset: ((p >> 40) & 0xFF) as u8,
                                size: (p & 0xFFFF) as u16,
                                ..last
                            },
                        ),
                        ..s
                    },
                    Ok(None),
                )
            }
        }
    } else if is_ignored(p) || is_chunk_header(p) {
        (s, Ok(None))
    } else {
        (s, Err(DecodeError::UnknownPacket))
    }
}

/// The decoder folded over the first `i` packets: final state, the pulses
/// closed so far in order, and the first fault if one arose (after which
/// nothing more is consumed).
pub open spec fn dec_fold(packets: Seq<u64>, i: int) -> (
    DecSnapshot,
    Seq<PulseSnapshot>,
    Option<DecodeError>,
)
    decreases i,
{
    if i <= 0 {
        (dec_initial(), Seq::empty(), None)
    } else {
        let (s, out, err) = dec_fold(packets, i - 1);
        if err is Some {
            (s, out, err)
        } else {
            let (s2, r) = dec_step(s, packets[i - 1]);
            match r {
                Ok(Some(ps)) => (s2, out.push(ps), None),
                Ok(None) => (s2, out, None),
                Err(e) => (s2, out, Some(e)),
            }
        }
    }
}

/// A fault, once raised, stands for the rest of the fold.
proof fn lemma_dec_fold_fault_sticky(packets: Seq<u64>, i: int, j: int)
    requires
        0 <= i <= j,
        dec_fold(packets, i).2 is Some,
    ensures
        dec_fold(packets, j).2 == dec_fold(packets, i).2,
        dec_fold(packets, j).1 == dec_fold(packets, i).1,
    decreases j - i,
{
    if j > i {
        lemma_dec_fold_fault_sticky(packets, i, j - 1);
    }
}

/// The end-of-stream flush: a nonempty open pulse is emitted once.
pub open spec fn dec_finish(s: DecSnapshot, out: Seq<PulseSnapshot>) -> Seq<PulseSnapshot> {
    if s.hits.len() == 0 {
        out
    } else {
        out.push(PulseSnapshot { time: s.time, triggers: s.triggers, hits: s.hits })
    }
}

/// Everything decoding a byte stream yields: the pulses of the packet fold
/// plus the final flush, or its first fault.
pub open spec fn spec_decode_stream(bytes: Seq<u8>) -> Result<Seq<PulseSnapshot>, DecodeError> {
    let packets = stream_packets(bytes);
    let (s, out, err) = dec_fold(packets, packets.len() as int);
    match err {
        Some(e) => Err(e),
        None => Ok(dec_finish(s, out)),
    }
}

/// Decodes a whole in-memory stream: every full 8-byte chunk becomes one
/// little-endian packet, pulses are yielded at TDC boundaries in file order,
/// and a nonempty partial pulse is flushed at the end. The result is exactly
/// the packet fold: the same pulses in the same order, or its first fault.
pub fn decode_stream(bytes: &[u8]) -> (r: Result<Vec<Pulse>, DecodeError>)
    ensures
        r is Err <==> spec_decode_stream(bytes@) is Err,
        r is Err ==> r == Err::<Vec<Pulse>, DecodeError>(spec_decode_stream(bytes@)->Err_0),
        r is Ok ==> {
            let pulses = spec_decode_stream(bytes@)->Ok_0;
            &&& r->Ok_0@.len() == pulses.len()
            &&& forall|k: int|
                0 <= k < pulses.len() ==> {
                    let q = #[trigger] r->Ok_0@[k];
                    q.time == pulses[k].time && q.triggers == pulses[k].triggers && q.hits@
                        == pulses[k].hits
                }
        },
        r is Ok ==> forall|k: int|
            0 <= k < r->Ok_0@.len() ==> pulse_from_decoder(#[trigger] r->Ok_0@[k]),
{
    let mut dec = PulseDecoder::new();
    let mut out: Vec<Pulse> = Vec::new();
    let n = bytes.len() / 8;
    let ghost packets = stream_packets(bytes@);
    let mut i: usize = 0;
    while i < n
        invariant
            dec.wf(),
            n == bytes@.len() / 8,
            8 * n <= bytes@.len(),
            8 * n <= usize::MAX,
            0 <= i <= n,
            packets == stream_packets(bytes@),
            packets.len() == n,
            dec_fold(packets, i as int).2 is None,
            dec_matches(dec, dec_fold(packets, i as int).0),
            out@.len() == dec_fold(packets, i as int).1.len(),
            forall|k: int|
                0 <= k < out@.len() ==> {
                    let q = #[trigger] out@[k];
                    let ps = dec_fold(packets, i as int).1[k];
                    q.time == ps.time && q.triggers == ps.triggers && q.hits@ == ps.hits
                },
            forall|k: int| 0 <= k < out@.len() ==> pulse_from_decoder(#[trigger] out@[k]),
        decreases n - i,
    {
        let chunk = vstd::slice::slice_subrange(bytes, i * 8, i * 8 + 8);
        let packet = u64_from_le_bytes(chunk);
        proof {
            assert(packets[i as int] == spec_u64_from_le_bytes(
                bytes@.subrange(8 * (i as int), 8 * (i as int) + 8),
            ));
            assert(chunk@ == bytes@.subrange(8 * (i as int), 8 * (i as int) + 8));
        }
        let ghost pre = dec_fold(packets, i as int);
        let ghost step = dec_step(pre.0, packets[i as int]);
        match dec.push_packet(packet) {
            Ok(Some(pulse)) => {
                proof {
                    assert(pulse_from_decoder(pulse));
                    assert(step.1 == Ok::<Option<PulseSnapshot>, DecodeError>(
                        Some(PulseSnapshot { time: pre.0.time, triggers: pre.0.triggers, hits: pre.0.hits }),
                    ));
                    assert(dec_matches(dec, step.0));
                }
                out.push(pulse);
            },
            Ok(None) => {
                proof {
                    assert(step.1 == Ok::<Option<PulseSnapshot>, DecodeError>(None));
                    assert(dec_matches(dec, step.0));
                }
            },
            Err(e) => {
                proof {
                    assert(step.1 == Err::<Option<PulseSnapshot>, DecodeError>(e));
                    assert(dec_fold(packets, i + 1).2 == Some(e));
                    lemma_dec_fold_fault_sticky(packets, i + 1, n as int);
                }
                return Err(e);
            },
        }
        i = i + 1;
    }
    proof {
        assert(dec_fold(packets, n as int).2 is None);
    }
    match dec.finish() {
        Some(pulse) => {
            proof {
                assert(pulse_from_decoder(pulse));
            }
            out.push(pulse);
        },
        None => {},
    }
    Ok(out)
}

/// What the rollover rule guarantees about a hit it credits with one more
/// wrap: the corrected arrival time lands less than `ROLL` past the open
/// pulse's time. A hit it leaves alone keeps its raw-clock position, so a
/// decoded hit can only precede its pulse by what the raw stream already
/// said (the firmware artifact that spectrum building filters out).
pub proof fn lemma_roll_bounds_hit(toa: int, ptoa: int, hrol: int, tdc: int, trol: int)
    requires
        spec_roll(toa, ptoa, hrol, tdc, trol) == 1,
    ensures
        toa + (hrol + 1) * HIT_LIMIT < (tdc + trol * TDC_LIMIT) + ROLL,
{
}

/// Largest absolute time either decoder can report, in picoseconds.
pub open spec fn time_in_range(t: int) -> bool {
    0 <= t <= (MAX_TROLLS + 1) * TDC_LIMIT
}

/// Streaming state of the TDC-only decoder: it reports each TDC's absolute
/// time one packet late, so the last one is flushed at end of stream.
pub struct TdcDecoder {
    /// TDC wrap count.
    pub trolls: i64,
    /// Absolute time last computed (and possibly already reported).
    pub tdc_full: i64,
    /// Raw time of the last TDC packet.
    pub ptdc: i64,
    /// True until the first TDC has been consumed.
    pub first: bool,
}

impl TdcDecoder {
    /// Counter bounds that keep every absolute time inside `i64`.
    pub open spec fn wf(self) -> bool {
        &&& 0 <= self.trolls <= MAX_TROLLS
        &&& 0 <= self.ptdc < TDC_LIMIT
        &&& time_in_range(self.tdc_full as int)
    }

    /// A fresh TDC decoder.
    pub fn new() -> (d: TdcDecoder)
        ensures
            d.wf(),
            d.trolls == 0,
            d.tdc_full == 0,
            d.ptdc == 0,
            d.first,
    {
        TdcDecoder { trolls: 0, tdc_full: 0, ptdc: 0, first: true }
    }

    /// Feeds one packet. Only TDC packets change the state: each one fixes
    /// the absolute time of its predecessor, which is reported unless the
    /// predecessor was the start of the stream.
    pub fn push_packet(&mut self, p: u64) -> (r: Result<Option<i64>, DecodeError>)
        requires
            old(self).wf(),
        ensures
            final(self).wf(),
            !is_tdc(p) ==> r == Ok::<Option<i64>, DecodeError>(None) && *final(self) == *old(
                self,
            ),
            is_tdc(p) ==> match r {
                Ok(out) => {
                    let full = old(self).ptdc + old(self).trolls * TDC_LIMIT;
                    &&& final(self).tdc_full == full
                    &&& final(self).ptdc == tdc_time(p)
                    &&& final(self).trolls == old(self).trolls + if tdc_time(p) < old(
                        self,
                    ).ptdc {
                        1int
                    } else {
                        0int
                    }
                    &&& !final(self).first
                    &&& (old(self).first ==> out is None)
                    &&& (!old(self).first ==> out == Some((full) as i64))
                },
                Err(e) => {
                    &&& e == DecodeError::LimitExceeded
                    &&& *final(self) == *old(self)
                    &&& old(self).trolls + (if tdc_time(p) < old(self).ptdc {
                        1int
                    } else {
                        0int
                    }) > MAX_TROLLS
                },
            },
    {
        if p >> 60 == 0x6 {
            let (tdc, _trigger) = parse_tdc_packet(p);
            let inc: i64 = if tdc < self.ptdc {
                1
            } else {
                0
            };
            if self.trolls + inc > MAX_TROLLS {
                return Err(DecodeError::LimitExceeded);
            }
            let full: i64 = self.ptdc + self.trolls * TDC_LIMIT;
            self.tdc_full = full;
            self.trolls = self.trolls + inc;
            self.ptdc = tdc;
            if self.first {
                self.first = false;
                Ok(None)
            } else {
                Ok(Some(full))
            }
        } else {
            Ok(None)
        }
    }

    /// Flushes the absolute time of the final TDC, unless it was already
    /// reported (or no TDC ever arrived).
    pub fn finish(&mut self) -> (r: Option<i64>)
        requires
            old(self).wf(),
        ensures
            final(self).wf(),
            ({
                let pending = old(self).ptdc + old(self).trolls * TDC_LIMIT;
                if old(self).tdc_full == pending {
                    r is None && *final(self) == *old(self)
                } else {
                    r == Some(pending as i64) && final(self).tdc_full == pending
                }
            }),
    {
        let pending: i64 = self.ptdc + self.trolls * TDC_LIMIT;
        if self.tdc_full == pending {
            None
        } else {
            self.tdc_full = pending;
            Some(pending)
        }
    }
}


/// The TDC-only decoder's state, written out in mathematical form.
pub struct TdcSnapshot {
    pub trolls: int,
    pub tdc_full: int,
    pub ptdc: int,
    pub first: bool,
}

/// Whether an executable TDC decoder is in exactly the state of a snapshot.
pub open spec fn tdc_matches(d: TdcDecoder, s: TdcSnapshot) -> bool {
    &&& d.trolls == s.trolls
    &&& d.tdc_full == s.tdc_full
    &&& d.ptdc == s.ptdc
    &&& d.first == s.first
}

/// What one packet does to the TDC-only decoder: each TDC fixes and (after
/// the first) reports its predecessor's absolute time; faults leave the
/// state put, every other packet passes through.
pub open spec fn tdc_scan_step(s: TdcSnapshot, p: u64) -> (
    TdcSnapshot,
    Result<Option<int>, DecodeError>,
) {
    if is_tdc(p) {
        let tdc = tdc_time(p);
        let inc: int = if tdc < s.ptdc {
            1
        } else {
            0
        };
        if s.trolls + inc > MAX_TROLLS {
            (s, Err(DecodeError::LimitExceeded))
        } else {
            let full = s.ptdc + s.trolls * TDC_LIMIT;
            (
                TdcSnapshot { trolls: s.trolls + inc, tdc_full: full, ptdc: tdc, first: false },
                Ok(
                    if s.first {
                        None
                    } else {
                        Some(full)
                    },
                ),
            )
        }
    } else {
        (s, Ok(None))
    }
}

/// The TDC scan folded over the first `i` packets: final state, the times
/// reported so far in order, and the first fault if one arose.
pub open spec fn tdc_scan_fold(packets: Seq<u64>, i: int) -> (
    TdcSnapshot,
    Seq<int>,
    Option<DecodeError>,
)
    decreases i,
{
    if i <= 0 {
        (TdcSnapshot { trolls: 0, tdc_full: 0, ptdc: 0, first: true }, Seq::empty(), None)
    } else {
        let (s, out, err) = tdc_scan_fold(packets, i - 1);
        if err is Some {
            (s, out, err)
        } else {
            let (s2, r) = tdc_scan_step(s, packets[i - 1]);
            match r {
                Ok(Some(t)) => (s2, out.push(t), None),
                Ok(None) => (s2, out, None),
                Err(e) => (s2, out, Some(e)),
            }
        }
    }
}

/// A fault, once raised, stands for the rest of the TDC scan.
proof fn lemma_tdc_fold_fault_sticky(packets: Seq<u64>, i: int, j: int)
    requires
        0 <= i <= j,
        tdc_scan_fold(packets, i).2 is Some,
    ensures
        tdc_scan_fold(packets, j).2 == tdc_scan_fold(packets, i).2,
        tdc_scan_fold(packets, j).1 == tdc_scan_fold(packets, i).1,
    decreases j - i,
{
    if j > i {
        lemma_tdc_fold_fault_sticky(packets, i, j - 1);
    }
}

/// The end-of-scan flush: the final TDC's absolute time, unless it was
/// already reported.
pub open spec fn tdc_scan_finish(s: TdcSnapshot, out: Seq<int>) -> Seq<int> {
    let pending = s.ptdc + s.trolls * TDC_LIMIT;
    if s.tdc_full == pending {
        out
    } else {
        out.push(pending)
    }
}

/// Every TDC time scanning a byte stream yields, or its first fault.
pub open spec fn spec_decode_tdc_stream(bytes: Seq<u8>) -> Result<Seq<int>, DecodeError> {
    let packets = stream_packets(bytes);
    let (s, out, err) = tdc_scan_fold(packets, packets.len() as int);
    match err {
        Some(e) => Err(e),
        None => Ok(tdc_scan_finish(s, out)),
    }
}

/// Decodes only the TDC times of an in-memory stream, in file order; the
/// result is exactly the TDC scan fold: the same in-range absolute times in
/// the same order, or its first fault.
pub fn decode_tdc_stream(bytes: &[u8]) -> (r: Result<Vec<i64>, DecodeError>)
    ensures
        r is Err <==> spec_decode_tdc_stream(bytes@) is Err,
        r is Err ==> r == Err::<Vec<i64>, DecodeError>(spec_decode_tdc_stream(bytes@)->Err_0),
        r is Ok ==> {
            let times = spec_decode_tdc_stream(bytes@)->Ok_0;
            &&& r->Ok_0@.len() == times.len()
            &&& forall|k: int| 0 <= k < times.len() ==> #[trigger] r->Ok_0@[k] == times[k]
        },
        r is Ok ==> forall|k: int|
            0 <= k < r->Ok_0@.len() ==> time_in_range(#[trigger] r->Ok_0@[k] as int),
{
    let mut dec = TdcDecoder::new();
    let mut out: Vec<i64> = Vec::new();
    let n = bytes.len() / 8;
    let ghost packets = stream_packets(bytes@);
    let mut i: usize = 0;
    while i < n
        invariant
            dec.wf(),
            n == bytes@.len() / 8,
            8 * n <= bytes@.len(),
            8 * n <= usize::MAX,
            0 <= i <= n,
            packets == stream_packets(bytes@),
            packets.len() == n,
            tdc_scan_fold(packets, i as int).2 is None,
            tdc_matches(dec, tdc_scan_fold(packets, i as int).0),
            out@.len() == tdc_scan_fold(packets, i as int).1.len(),
            forall|k: int|
                0 <= k < out@.len() ==> #[trigger] out@[k] == tdc_scan_fold(packets, i as int).1[k],
            forall|k: int| 0 <= k < out@.len() ==> time_in_range(#[trigger] out@[k] as int),
        decreases n - i,
    {
        let chunk = vstd::slice::slice_subrange(bytes, i * 8, i * 8 + 8);
        let packet = u64_from_le_bytes(chunk);
        proof {
            assert(packets[i as int] == spec_u64_from_le_bytes(
                bytes@.subrange(8 * (i as int), 8 * (i as int) + 8),
            ));
            assert(chunk@ == bytes@.subrange(8 * (i as int), 8 * (i as int) + 8));
        }
        let ghost pre = tdc_scan_fold(packets, i as int);
        let ghost step = tdc_scan_step(pre.0, packets[i as int]);
        match dec.push_packet(packet) {
            Ok(Some(t)) => {
                proof {
                    assert(step.1 == Ok::<Option<int>, DecodeError>(Some(t as int)));
                    assert(tdc_matches(dec, step.0));
                }
                out.push(t);
            },
            Ok(None) => {
                proof {
                    assert(step.1 == Ok::<Option<int>, DecodeError>(None));
                    assert(tdc_matches(dec, step.0));
                }
            },
            Err(e) => {
                proof {
                    assert(step.1 == Err::<Option<int>, DecodeError>(e));
                    assert(tdc_scan_fold(packets, i + 1).2 == Some(e));
                    lemma_tdc_fold_fault_sticky(packets, i + 1, n as int);
                }
                return Err(e);
            },
        }
        i = i + 1;
    }
    match dec.finish() {
        Some(t) => {
            out.push(t);
        },
        None => {},
    }
    Ok(out)
}

/// What holds of every pulse the decoder yields: hits indexed by position,
/// unlabelled, with nonnegative corrected times, and a nonnegative pulse
/// time — the shape `label_hits` and the spectrum builder rely on.
pub open spec fn pulse_from_decoder(p: Pulse) -> bool {
    &&& 0 <= p.time
    &&& p.hits@.len() <= u32::MAX
    &&& forall|i: int| 0 <= i < p.hits@.len() ==> (#[trigger] p.hits@[i]).index == i
    &&& forall|i: int| 0 <= i < p.hits@.len() ==> (#[trigger] p.hits@[i]).label == 0
    &&& forall|i: int| 0 <= i < p.hits@.len() ==> (#[trigger] p.hits@[i]).toa >= 0
}

} // verus!
