use tpx3::codec::{parse_hit_packet, parse_tdc_packet, roll, HIT_LIMIT, TDC_LIMIT};
use tpx3::decoder::{decode_stream, decode_tdc_stream, DecodeError, PulseDecoder};
use tpx3::hit::Hit;
use tpx3::pulse::Pulse;
use tpx3::stage::{pass_direction, split_passes, Direction};

/// A raw TDC packet whose decoded time is `coarse * 25000` ps.
fn tdc_packet(coarse: u64, trigger: u64) -> u64 {
    (0x6u64 << 60) | (trigger << 44) | (coarse << 12) | (1 << 5)
}

/// A raw hit packet: pixel `(col, row)`, ToT field `tot_raw` (25 ns units),
/// and raw ToA `global * 409_600_000` ps (fine counter zero).
fn hit_packet(col: u64, row: u64, tot_raw: u64, global: u64) -> u64 {
    let pix = ((col % 2) << 2) | (row % 4);
    (0xBu64 << 60)
        | ((col - col % 2) << 52)
        | ((row - row % 4) << 45)
        | (pix << 44)
        | (tot_raw << 20)
        | (0xFu64 << 16)
        | global
}

fn bytes_of(packets: &[u64]) -> Vec<u8> {
    packets.iter().flat_map(|p| p.to_le_bytes()).collect()
}

#[test]
fn empty_stream_yields_no_pulses() {
    let pulses = decode_stream(&[]).unwrap();
    assert_eq!(pulses.len(), 0);
}

#[test]
fn single_tdc_without_hits_yields_no_pulses() {
    let bytes = bytes_of(&[tdc_packet(1, 0)]);
    let pulses = decode_stream(&bytes).unwrap();
    assert_eq!(pulses.len(), 0);
}

#[test]
fn single_tdc_one_hit_decodes_exactly() {
    let bytes = bytes_of(&[tdc_packet(1, 7), hit_packet(5, 6, 4, 1)]);
    let pulses = decode_stream(&bytes).unwrap();
    assert_eq!(pulses.len(), 1);
    let p = &pulses[0];
    assert_eq!(p.time, 25_000);
    assert_eq!(p.triggers, 7);
    assert_eq!(p.hits.len(), 1);
    let h = &p.hits[0];
    assert_eq!(h.toa, 409_600_000);
    assert_eq!(h.tot, 100);
    assert_eq!(h.col, 5);
    assert_eq!(h.row, 6);
    assert_eq!(h.index, 0);
    assert_eq!(h.label, 0);
    assert_eq!(h.size, 0);
}

#[test]
fn tdc_rollover_increments_pulse_time_by_limit() {
    // raw TDC times 10^9 then 3_125_000: the drop marks one wrap
    let bytes = bytes_of(&[
        tdc_packet(40_000, 1),
        hit_packet(1, 1, 1, 0),
        tdc_packet(125, 2),
        hit_packet(1, 1, 1, 0),
    ]);
    let pulses = decode_stream(&bytes).unwrap();
    assert_eq!(pulses.len(), 2);
    assert_eq!(pulses[0].time, 1_000_000_000);
    assert_eq!(pulses[1].time, 3_125_000 + TDC_LIMIT);
}

#[test]
fn toa_rollover_keeps_hit_at_or_after_pulse() {
    // pulse at 10^12 ps; a hit high in the ToA window, then one that wrapped
    let bytes = bytes_of(&[
        tdc_packet(40_000_000, 0),
        hit_packet(1, 1, 1, 60_000),
        hit_packet(2, 2, 1, 0),
    ]);
    let pulses = decode_stream(&bytes).unwrap();
    assert_eq!(pulses.len(), 1);
    let p = &pulses[0];
    assert_eq!(p.time, 1_000_000_000_000);
    assert_eq!(p.hits[0].toa, 60_000u64 as i64 * 409_600_000);
    assert_eq!(p.hits[1].toa, HIT_LIMIT);
    assert!(p.hits[1].toa >= p.time);
}

#[test]
fn roll_rule_matches_its_two_conjuncts() {
    // backwards jump below CHECK: no roll
    assert_eq!(roll(100, 200, 0, 0, 0), 0);
    // large backwards jump, within ROLL of the pulse: roll
    assert_eq!(roll(0, 24_576_000_000_000, 0, 1_000_000_000_000, 0), 1);
    // large backwards jump, but the credited time leaves the ROLL window
    assert_eq!(roll(0, 24_576_000_000_000, 0, 0, 0), 0);
}

#[test]
fn blob_packet_extends_last_hit() {
    let blob = (0xCAu64 << 56) | (9u64 << 48) | (8u64 << 40) | (1u64 << 16) | 3;
    let bytes = bytes_of(&[tdc_packet(1, 0), hit_packet(5, 6, 4, 1), blob]);
    let pulses = decode_stream(&bytes).unwrap();
    let h = &pulses[0].hits[0];
    assert_eq!(h.tot, 100 + 25_600);
    assert_eq!(h.col_offset, 9);
    assert_eq!(h.row_offset, 8);
    assert_eq!(h.size, 3);
}

#[test]
fn blob_before_any_hit_is_fatal() {
    let blob = (0xCAu64 << 56) | 3;
    let bytes = bytes_of(&[tdc_packet(1, 0), blob]);
    assert_eq!(decode_stream(&bytes).err(), Some(DecodeError::BlobWithoutHit));
}

#[test]
fn unknown_packet_is_fatal_but_chunk_sentinel_passes() {
    let sentinel = u64::from_le_bytes(*b"TPX3\x00\x00\x00\x08");
    let bytes = bytes_of(&[sentinel, tdc_packet(1, 0), hit_packet(1, 1, 1, 0)]);
    assert_eq!(decode_stream(&bytes).unwrap().len(), 1);
    let junk = 0x1u64 << 60;
    let bytes = bytes_of(&[junk]);
    assert_eq!(decode_stream(&bytes).err(), Some(DecodeError::UnknownPacket));
}

#[test]
fn hit_packet_round_trips_bit_for_bit() {
    let p = hit_packet(137, 201, 628, 33_333);
    let (col, row, tot, toa) = parse_hit_packet(p);
    let encoded = Hit::new(0, toa, tot, col, row).to_hit_packet();
    assert_eq!(encoded, p);
}

#[test]
fn blob_packet_round_trips_bit_for_bit() {
    let hp = hit_packet(10, 11, 4, 1);
    let blob = (0xCAu64 << 56) | (250u64 << 48) | (17u64 << 40) | (77u64 << 16) | 12;
    let (col, row, tot, toa) = parse_hit_packet(hp);
    let mut h = Hit::new(0, toa, tot, col, row);
    h.update_with_blob_packet(blob);
    assert_eq!(h.to_blob_packet(), blob);
}

#[test]
fn tpx3c_tdc_packet_reopens_at_the_same_time() {
    let p = Pulse { time: 25_000, hits: Vec::new(), triggers: 5, clusters: 0 };
    let packet = p.to_tdc_packet();
    let (tdc, trigger) = parse_tdc_packet(packet);
    assert_eq!(tdc, 25_000);
    assert_eq!(trigger, 5);
}

#[test]
fn pulse_bytes_interleave_hit_and_blob_packets() {
    let mut p = Pulse::default();
    p.time = 25_000;
    p.add_hit(409_600_000, 100, 5, 6);
    p.add_hit(409_600_000, 100, 7, 8);
    // mark the second hit as centroided so a blob packet follows it
    p.hits[1].size = 4;
    let bytes = p.to_bytes();
    assert_eq!(bytes.len(), 8 * 4);
    assert_eq!(bytes[0..8], p.to_tdc_packet().to_le_bytes());
    assert_eq!(bytes[8..16], p.hits[0].to_hit_packet().to_le_bytes());
    assert_eq!(bytes[16..24], p.hits[1].to_hit_packet().to_le_bytes());
    assert_eq!(bytes[24..32], p.hits[1].to_blob_packet().to_le_bytes());
}

#[test]
fn proximity_is_symmetric_irreflexive_and_wraps() {
    let a = Hit::new(0, 0, 1, 10, 10);
    let b = Hit::new(1, 0, 1, 11, 11);
    let c = Hit::new(2, 0, 1, 10, 10);
    let edge = Hit::new(3, 0, 1, 0, 5);
    let wrap = Hit::new(4, 0, 1, 255, 5);
    assert!(a.is_proximal(&b) && b.is_proximal(&a));
    assert!(!a.is_proximal(&c));
    assert!(edge.is_proximal(&wrap));
    let far = Hit::new(5, 0, 1, 12, 10);
    assert!(!a.is_proximal(&far));
}

#[test]
fn packed_codes_and_dead_pixel_lookup() {
    let h = Hit::new(0, 0, 1, 10, 20);
    assert_eq!(h.to_cr(), (10u16 << 8) | 20);
    let dead = vec![h.to_cr()];
    assert!(h.is_dead(&dead));
    let other = Hit::new(1, 0, 1, 10, 21);
    assert!(!other.is_dead(&dead));
}

#[test]
fn four_proximal_hits_centroid_to_their_mean() {
    let mut p = Pulse::default();
    p.add_hit(3, 100, 10, 10);
    p.add_hit(0, 100, 10, 11);
    p.add_hit(1, 100, 11, 10);
    p.add_hit(2, 100, 11, 11);
    p.label_hits();
    assert_eq!(p.clusters, 1);
    let c = p.centroid();
    assert_eq!(c.hits.len(), 1);
    assert_eq!(c.clusters, 1);
    let h = &c.hits[0];
    assert_eq!(h.size, 4);
    assert_eq!(h.tot, 400);
    assert_eq!(h.toa, 0);
    assert_eq!(h.col, 10);
    assert_eq!(h.row, 10);
    // the fractional half-pixel becomes floor(0.5 * 255)
    assert_eq!(h.col_offset, 127);
    assert_eq!(h.row_offset, 127);
    assert_eq!(h.index, 1);
    assert_eq!(h.label, 2);
}

#[test]
fn two_separate_clusters_get_labels_two_and_three() {
    let mut p = Pulse::default();
    p.add_hit(0, 50, 10, 10);
    p.add_hit(0, 50, 10, 11);
    p.add_hit(0, 50, 200, 200);
    p.add_hit(0, 50, 200, 201);
    p.label_hits();
    assert_eq!(p.clusters, 2);
    assert_eq!(p.hits[0].label, 1);
    assert_eq!(p.hits[1].label, 1);
    assert_eq!(p.hits[2].label, 2);
    assert_eq!(p.hits[3].label, 2);
    let c = p.centroid();
    assert_eq!(c.hits.len(), 2);
    assert_eq!(c.hits[0].label, 2);
    assert_eq!(c.hits[1].label, 3);
    // centroided sizes account for every raw hit
    let total: u32 = c.hits.iter().map(|h| h.size as u32).sum();
    assert_eq!(total, 4);
}

#[test]
fn a_later_seed_may_take_over_nearby_hits() {
    // a diagonal chain: the first fill stops at its 15-pixel candidate box,
    // and the leftover hit seeds a second fill whose box reaches back into
    // the chain and relabels everything it can walk to
    let mut p = Pulse::default();
    for d in 0..16u8 {
        p.add_hit(0, 1, d, d);
    }
    p.label_hits();
    assert_eq!(p.clusters, 2);
    assert_eq!(p.hits[0].label, 1);
    for d in 1..16usize {
        assert_eq!(p.hits[d].label, 2);
    }
    let c = p.centroid();
    assert_eq!(c.hits.len(), 2);
    assert_eq!(c.hits[0].size, 1);
    assert_eq!(c.hits[1].size, 15);
}

#[test]
fn time_gated_clustering_splits_coincident_pixels() {
    let mut p = Pulse::default();
    p.add_hit(0, 50, 10, 10);
    p.add_hit(2_000_000, 50, 10, 11);
    p.label_hits();
    // proximal in space but 2 us apart: two clusters
    assert_eq!(p.clusters, 2);
}

#[test]
fn quicksplat_walks_a_square_spiral() {
    let mut h = Hit::new(0, 0, 400, 100, 100);
    h.size = 4;
    let hits = h.quicksplat();
    assert_eq!(hits.len(), 4);
    let cells: Vec<(u8, u8)> = hits.iter().map(|s| (s.col, s.row)).collect();
    assert_eq!(cells, vec![(100, 100), (101, 100), (101, 101), (100, 101)]);
    for s in &hits {
        assert_eq!(s.tot, 100);
        assert_eq!(s.col_offset, 0);
        assert_eq!(s.row_offset, 0);
    }
    let plain = Hit::new(0, 0, 7, 3, 4);
    let single = plain.quicksplat();
    assert_eq!(single.len(), 1);
    assert_eq!(single[0].tot, 7);
}

#[test]
fn quicksplat_clips_to_the_detector() {
    let mut h = Hit::new(0, 0, 9, 0, 0);
    h.size = 3;
    let hits = h.quicksplat();
    assert_eq!(hits.len(), 3);
    for s in &hits {
        assert!(s.col <= 255 && s.row <= 255);
    }
    assert_eq!((hits[0].col, hits[0].row), (0, 0));
    assert_eq!((hits[1].col, hits[1].row), (1, 0));
    assert_eq!((hits[2].col, hits[2].row), (1, 1));
}

#[test]
fn pulse_quicksplat_concatenates_in_order() {
    let mut p = Pulse::default();
    p.add_hit(0, 8, 10, 10);
    p.add_hit(0, 8, 20, 20);
    p.hits[0].size = 2;
    let s = p.quicksplat();
    assert_eq!(s.hits.len(), 3);
    assert_eq!((s.hits[0].col, s.hits[0].row), (10, 10));
    assert_eq!((s.hits[1].col, s.hits[1].row), (11, 10));
    assert_eq!((s.hits[2].col, s.hits[2].row), (20, 20));
}

#[test]
fn tdc_stream_reports_every_trigger_time() {
    let bytes = bytes_of(&[
        tdc_packet(1, 0),
        hit_packet(1, 1, 1, 0),
        tdc_packet(2, 0),
        tdc_packet(3, 0),
    ]);
    let tdcs = decode_tdc_stream(&bytes).unwrap();
    assert_eq!(tdcs, vec![25_000, 50_000, 75_000]);
}

#[test]
fn tdc_stream_flushes_a_single_trigger() {
    let bytes = bytes_of(&[tdc_packet(4, 0)]);
    assert_eq!(decode_tdc_stream(&bytes).unwrap(), vec![100_000]);
    assert_eq!(decode_tdc_stream(&[]).unwrap(), Vec::<i64>::new());
}

#[test]
fn passes_split_on_the_gap_threshold() {
    let tdcs = vec![100, 200, 50_000_000_000, 50_000_000_100];
    let passes = split_passes(&tdcs);
    assert_eq!(passes, vec![vec![100, 200], vec![50_000_000_000, 50_000_000_100]]);
}

#[test]
fn serpentine_directions_alternate_from_right() {
    assert_eq!(pass_direction(0), Direction::Right);
    assert_eq!(pass_direction(1), Direction::Left);
    assert_eq!(pass_direction(2), Direction::Right);
    assert_eq!(Direction::Right.reverse(), Direction::Left);
    assert_eq!(Direction::Up.reverse(), Direction::Down);
}

#[test]
fn counter_overflow_is_reported_not_wrapped() {
    let mut dec = PulseDecoder::new();
    dec.push_packet(tdc_packet(40_000, 0)).unwrap();
    dec.trolls = 85_000;
    // a raw time below the previous one asks for one wrap too many
    let r = dec.push_packet(tdc_packet(125, 0)).unwrap_err();
    assert_eq!(r, DecodeError::LimitExceeded);
}

#[test]
fn decoder_state_survives_buffer_boundaries() {
    // feeding packets one by one must equal feeding them at once
    let packets = [
        tdc_packet(1, 3),
        hit_packet(5, 6, 4, 1),
        tdc_packet(2, 4),
        hit_packet(7, 8, 4, 1),
    ];
    let mut dec = PulseDecoder::new();
    let mut stepped: Vec<Pulse> = Vec::new();
    for p in packets {
        if let Some(pulse) = dec.push_packet(p).unwrap() {
            stepped.push(pulse);
        }
    }
    if let Some(pulse) = dec.finish() {
        stepped.push(pulse);
    }
    let whole = decode_stream(&bytes_of(&packets)).unwrap();
    assert_eq!(stepped.len(), whole.len());
    for (a, b) in stepped.iter().zip(whole.iter()) {
        assert_eq!(a.time, b.time);
        assert_eq!(a.triggers, b.triggers);
        assert_eq!(a.hits.len(), b.hits.len());
    }
}
