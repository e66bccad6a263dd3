use tpx3::archive::{
    ibd_checksum, bytes_to_hex, uuid_as_bytes, ArchiveCursor, ArchiveError, IMZMLHeader,
    SpanTracker,
};
use tpx3::hit::Hit;
use tpx3::image::{
    betwix, dead_pixels_from_mask, hit_window_time, is_between, mask_accumulate_pulse,
    mask_finalize, mass_accumulate_hit, tic_accumulate_hit,
};
use tpx3::mass::{argmax_u32, find_peaks, spectrum, zero_pad};
use tpx3::pixel::{MzCode, Pixel, PixelSpan};
use tpx3::pulse::Pulse;

#[test]
fn is_between_is_strict() {
    assert!(is_between(5, 10, 0));
    assert!(!is_between(0, 10, 0));
    assert!(!is_between(10, 10, 0));
}

#[test]
fn spectrum_bins_and_sorts_with_a_seeded_origin() {
    let mut p = Pulse::default();
    p.time = 0;
    p.add_hit(0, 1, 0, 0);
    p.add_hit(1563, 1, 0, 0);
    p.add_hit(1600, 1, 0, 0);
    p.add_hit(3200, 1, 0, 0);
    let pulses = vec![p];
    let (times, counts) = spectrum(&pulses, Some(1_000_000));
    assert_eq!(times, vec![0, 1563, 3126]);
    assert_eq!(counts, vec![1, 2, 1]);
}

#[test]
fn spectrum_drops_negative_tof_and_folds_by_the_period() {
    let mut p = Pulse::default();
    p.time = 10;
    p.add_hit(5, 1, 0, 0); // negative time of flight: dropped
    p.add_hit(1_000_011, 1, 0, 0); // folds to tof 1
    let pulses = vec![p];
    let (times, counts) = spectrum(&pulses, Some(1_000_000));
    // the origin bin is always present, holding the folded hit
    assert_eq!(times, vec![0]);
    assert_eq!(counts, vec![1]);
}

#[test]
fn zero_pad_brackets_every_occupied_run() {
    let times = vec![0, 1563, 6252];
    let ints = vec![1, 2, 3];
    let (pt, pi) = zero_pad(&times, &ints);
    assert_eq!(pt, vec![-1563, 0, 1563, 3126, 4689, 6252, 7815]);
    assert_eq!(pi, vec![0, 1, 2, 0, 0, 3, 0]);
}

#[test]
fn argmax_takes_the_last_of_equal_maxima() {
    assert_eq!(argmax_u32(&[1, 5, 5, 2]), (2, 5));
    assert_eq!(argmax_u32(&[9]), (0, 9));
}

#[test]
fn find_peaks_reports_the_apex_of_a_bump() {
    let c: Vec<u32> = vec![
        0, 0, 0, 0, 0, 0, 0, 0, 0, 0, 0, 0, 0, 0, 0, 0, 0, 0, 0, 0, 1, 2, 3, 6, 11, 19, 31, 50,
        79, 121, 183, 270, 391, 555, 773, 1053, 1408, 1845, 2369, 2981, 3678, 4448, 5272, 6126,
        6976, 7788, 8521, 9139, 9607, 9900, 10000, 9900, 9607, 9139, 8521, 7788, 6976, 6126, 5272,
        4448, 3678, 2981, 2369, 1845, 1408, 1053, 773, 555, 391, 270, 183, 121, 79, 50, 31, 19,
        11, 6, 3, 2, 1, 0, 0, 0, 0, 0, 0, 0, 0, 0, 0, 0, 0, 0, 0, 0, 0, 0, 0, 0, 0, 0, 0, 0, 0,
        0, 0, 0, 0, 0, 0,
    ];
    assert_eq!(find_peaks(&c), vec![50]);
}

#[test]
fn find_peaks_sees_nothing_in_a_flat_line() {
    let c: Vec<u32> = vec![100; 40];
    assert_eq!(find_peaks(&c), Vec::<usize>::new());
}

#[test]
fn betwix_is_a_half_open_window() {
    let pt = 1_000_000u64;
    let ptw = 100_000u64;
    assert!(!betwix(899_999, pt, ptw));
    assert!(betwix(900_000, pt, ptw));
    assert!(betwix(1_099_999, pt, ptw));
    assert!(!betwix(1_100_000, pt, ptw));
}

#[test]
fn window_time_folds_and_signs_like_the_renderer() {
    assert_eq!(hit_window_time(1000, 400, 1_000_000), 600);
    assert_eq!(hit_window_time(2_000_050, 0, 1_000_000), 50);
    // negative time of flight becomes a huge unsigned value, outside windows
    assert!(hit_window_time(0, 400, 1_000_000) > u32::MAX as u64);
}

#[test]
fn dead_pixels_gate_the_tic_image_but_aggregates_bypass() {
    let cols = 16usize;
    let rows = 16usize;
    let mut buffer: Vec<u16> = vec![0; cols * rows];
    let dead = vec![(10u16 << 8) | 20];
    let mut small = Hit::new(0, 0, 5, 10, 20);
    small.size = 1;
    let mut blob = Hit::new(1, 0, 5, 10, 20);
    blob.size = 3;
    assert!(!tic_accumulate_hit(&mut buffer, cols, rows, &small, 3, 2, &dead));
    assert!(tic_accumulate_hit(&mut buffer, cols, rows, &blob, 3, 2, &dead));
    let total: u32 = buffer.iter().map(|v| *v as u32).sum();
    assert_eq!(total, 1);
    assert_eq!(buffer[3 + 2 * cols], 1);
}

#[test]
fn out_of_frame_hits_are_dropped() {
    let cols = 4usize;
    let rows = 4usize;
    let mut buffer: Vec<u16> = vec![0; cols * rows];
    let h = Hit::new(0, 0, 5, 1, 1);
    assert!(!tic_accumulate_hit(&mut buffer, cols, rows, &h, 4, 0, &[]));
    assert!(!tic_accumulate_hit(&mut buffer, cols, rows, &h, 0, 4, &[]));
    assert_eq!(buffer.iter().map(|v| *v as u32).sum::<u32>(), 0);
}

#[test]
fn mass_windows_count_exactly_the_in_window_times() {
    let cols = 4usize;
    let rows = 1usize;
    let pts = vec![1_000_000i64];
    let ptw = 100_000u64;
    let mut buffers: Vec<u16> = vec![0; cols * rows * pts.len()];
    for t in [899_999u64, 900_000, 1_099_999, 1_100_000] {
        assert!(mass_accumulate_hit(&mut buffers, cols, rows, &pts, ptw, t, 2, 0));
    }
    let total: u32 = buffers.iter().map(|v| *v as u32).sum();
    assert_eq!(total, 2);
    assert_eq!(buffers[2], 2);
}

#[test]
fn each_peak_gets_its_own_page() {
    let cols = 2usize;
    let rows = 1usize;
    let pts = vec![1_000_000i64, 5_000_000];
    let ptw = 1_000u64;
    let mut buffers: Vec<u16> = vec![0; cols * rows * pts.len()];
    assert!(mass_accumulate_hit(&mut buffers, cols, rows, &pts, ptw, 5_000_500, 1, 0));
    assert_eq!(buffers, vec![0, 0, 0, 1]);
}

#[test]
fn masking_image_finds_overactive_pixels() {
    let mut buffer: Vec<usize> = vec![0; 65536];
    let mut p = Pulse::default();
    for _ in 0..8 {
        p.add_hit(0, 1, 10, 20);
    }
    p.add_hit(0, 1, 30, 40);
    let mut centroided = Hit::new(9, 0, 1, 50, 60);
    centroided.size = 4;
    p.hits.push(centroided);
    mask_accumulate_pulse(&mut buffer, &p);
    // centroided hits (size >= 2) do not count toward the mask
    assert_eq!(buffer[50 + 60 * 256], 0);
    assert_eq!(buffer[10 + 20 * 256], 8);
    let scaled = mask_finalize(&buffer, 1000);
    let dead = dead_pixels_from_mask(&scaled);
    assert_eq!(dead, vec![(10u16 << 8) | 20]);
}

#[test]
fn pixel_compression_round_trips_distinct_keys() {
    let mut px = Pixel::empty();
    px.add(MzCode { key: 300_000, exp: 2 });
    px.add(MzCode { key: 100_000, exp: 2 });
    px.add(MzCode { key: 250_000, exp: 2 });
    let (mzs, ints) = px.to_vecs();
    assert_eq!(
        mzs,
        vec![
            MzCode { key: 100_000, exp: 2 },
            MzCode { key: 250_000, exp: 2 },
            MzCode { key: 300_000, exp: 2 },
        ]
    );
    assert_eq!(ints, vec![1, 1, 1]);
}

#[test]
fn pixel_compression_groups_equal_keys() {
    let mut px = Pixel::empty();
    px.add(MzCode { key: 200_000, exp: 2 });
    px.add(MzCode { key: 100_000, exp: 2 });
    px.add(MzCode { key: 100_000, exp: 2 });
    let (mzs, ints) = px.to_vecs();
    assert_eq!(
        mzs,
        vec![MzCode { key: 100_000, exp: 2 }, MzCode { key: 200_000, exp: 2 }]
    );
    assert_eq!(ints, vec![2, 1]);
}

#[test]
fn pixel_compression_folds_by_key_alone_across_decades() {
    // the sweep compares only the six-digit key: a later value whose key is
    // not larger folds into the previous entry, even across exponents
    let mut px = Pixel::empty();
    px.add(MzCode { key: 500_000, exp: 1 });
    px.add(MzCode { key: 100_000, exp: 2 });
    let (mzs, ints) = px.to_vecs();
    assert_eq!(mzs, vec![MzCode { key: 500_000, exp: 1 }]);
    assert_eq!(ints, vec![2]);
}

#[test]
fn span_bookkeeping_tracks_empty_passes() {
    let mut span = PixelSpan::empty(4);
    span.add_mz(MzCode { key: 123_456, exp: 2 }, 1);
    assert!(span.pixel_added);
    assert_eq!(span.empty_pass_count, 0);
    span.update_end_pass();
    assert_eq!(span.empty_pass_count, 0);
    span.update_end_pass();
    span.update_end_pass();
    assert_eq!(span.empty_pass_count, 2);
}

#[test]
fn hex_and_checksum_are_exact() {
    assert_eq!(bytes_to_hex(&[0x0f, 0xa9, 0x00]), "0fa900");
    // the classic SHA-1 test vector
    assert_eq!(ibd_checksum(b"abc"), "a9993e364706816aba3e25717850c26c9cd0d89d");
    assert_eq!(ibd_checksum(b"abc").len(), 40);
}

#[test]
fn uuid_bytes_parse_both_cases_and_reject_junk() {
    let uuid = "00112233445566778899aAbBcCdDeEfF";
    let bytes = uuid_as_bytes(uuid).unwrap();
    assert_eq!(
        bytes,
        vec![0x00, 0x11, 0x22, 0x33, 0x44, 0x55, 0x66, 0x77, 0x88, 0x99, 0xaa, 0xbb, 0xcc, 0xdd, 0xee, 0xff]
    );
    assert_eq!(
        uuid_as_bytes("0011223344556677889 aabbccddeeff"),
        Err(ArchiveError::InvalidUuid)
    );
}

#[test]
fn header_placeholder_is_forty_characters() {
    let h = IMZMLHeader::new(
        String::from("00112233445566778899aabbccddeeff"),
        String::from("4"),
        String::from("4"),
        String::from("20"),
        String::from("20"),
        String::from("5.0"),
        String::from("5.0"),
        String::from("16"),
    );
    assert_eq!(h.sha1sum.len(), 40);
    assert_eq!(h.sha1sum, "a_dummy_checksum_that_should_be_replaced");
    let mut h = h;
    let digest = ibd_checksum(&[0u8; 16]);
    h.set_checksum(digest.clone());
    assert_eq!(h.sha1sum, digest);
    assert_eq!(h.sha1sum.len(), 40);
}

#[test]
fn spectrum_records_chain_their_offsets() {
    let mut cursor = ArchiveCursor::new();
    let mzs = vec![MzCode { key: 100_000, exp: 2 }, MzCode { key: 200_000, exp: 2 }];
    let ints = vec![1i16, 2];
    let s0 = cursor.write_spectrum(&mzs, &ints, 0, 3).unwrap();
    assert_eq!(s0.index, 0);
    assert_eq!(s0.mz_offset, 16);
    assert_eq!(s0.mz_len, 2);
    assert_eq!(s0.mz_enc_len, 8);
    assert_eq!(s0.int_offset, 24);
    assert_eq!(s0.int_enc_len, 4);
    assert_eq!(s0.pixel_column, 1);
    assert_eq!(s0.pixel_row, 4);
    assert_eq!(s0.spectrum_sum, 3);
    let s1 = cursor.write_spectrum(&mzs, &ints, 1, 3).unwrap();
    assert_eq!(s1.index, 1);
    assert_eq!(s1.mz_offset, s0.int_offset + s0.int_enc_len);
    assert_eq!(s1.pixel_column, 2);
}

#[test]
fn rows_flush_after_three_empty_passes_in_ascending_order() {
    let mut tracker = SpanTracker::new(2, 4);
    let code = MzCode { key: 123_456, exp: 2 };
    tracker.add_hit(1, 0, code).unwrap();
    tracker.add_hit(0, 1, code).unwrap();
    tracker.end_pass();
    assert_eq!(tracker.finished_rows(), Vec::<usize>::new());
    tracker.end_pass();
    tracker.end_pass();
    tracker.end_pass();
    // both rows sat out three finished passes: flush in ascending order
    assert_eq!(tracker.finished_rows(), vec![0, 1]);
    let mut cursor = ArchiveCursor::new();
    let specs0 = tracker.drain_row(0, &mut cursor).unwrap();
    let specs1 = tracker.drain_row(1, &mut cursor).unwrap();
    // indices are monotonic from 0 in row-major order
    assert_eq!(specs0[0].0.index, 0);
    assert_eq!(specs0[1].0.index, 1);
    assert_eq!(specs1[0].0.index, 2);
    assert_eq!(specs1[1].0.index, 3);
    // the archive byte layout chains across rows as well
    assert_eq!(specs0[0].0.mz_offset, 16);
    assert_eq!(specs0[1].0.mz_offset, specs0[0].0.int_offset + specs0[0].0.int_enc_len);
    assert_eq!(specs1[0].0.mz_offset, specs0[1].0.int_offset + specs0[1].0.int_enc_len);
    // rows are gone once drained
    assert_eq!(tracker.live_rows(), Vec::<usize>::new());
}

#[test]
fn draining_a_row_twice_is_fatal() {
    let mut tracker = SpanTracker::new(1, 2);
    let code = MzCode { key: 123_456, exp: 2 };
    tracker.add_hit(0, 0, code).unwrap();
    let mut cursor = ArchiveCursor::new();
    tracker.drain_row(0, &mut cursor).unwrap();
    // the row went back live after being written once
    tracker.add_hit(0, 0, code).unwrap();
    assert_eq!(
        tracker.drain_row(0, &mut cursor).map(|_| ()),
        Err(ArchiveError::DuplicateRow)
    );
    assert_eq!(
        tracker.drain_row(1, &mut cursor).map(|_| ()),
        Err(ArchiveError::MissingRow)
    );
}

#[test]
fn a_pixel_refuses_more_values_than_a_spectrum_can_count() {
    let mut tracker = SpanTracker::new(1, 1);
    let code = MzCode { key: 123_456, exp: 2 };
    for _ in 0..32_767 {
        tracker.add_hit(0, 0, code).unwrap();
    }
    assert_eq!(tracker.add_hit(0, 0, code), Err(ArchiveError::LimitExceeded));
}

#[test]
fn an_empty_archive_is_just_the_uuid_bytes() {
    // an empty file decodes to no pulses, so the IBD holds only the UUID and
    // the checksum covers exactly those 16 bytes
    let uuid = "00112233445566778899aabbccddeeff";
    let ibd = uuid_as_bytes(uuid).unwrap();
    assert_eq!(ibd.len(), 16);
    let sum = ibd_checksum(&ibd);
    assert_eq!(sum.len(), 40);
    assert_eq!(sum, ibd_checksum(&[0x00, 0x11, 0x22, 0x33, 0x44, 0x55, 0x66, 0x77, 0x88, 0x99, 0xaa, 0xbb, 0xcc, 0xdd, 0xee, 0xff]));
}
