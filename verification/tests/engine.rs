use montage::codec::{
    add_timestamps, colon_field_count, from_milliseconds, is_dotted_timestamp, parse_canonical,
    parse_timestamp, seconds_to_time, timestamp_to_milliseconds, to_canonical_string,
    to_milliseconds,
};
use montage::partition::compute_start_offsets;
use montage::probe::{extract_fps, parse_duration_ms};
use montage::schedule::{build_part_orders, count_parts, random_not_same_last_order};
use montage::template::{adjust_millisec, extract_seconds, keep_nonempty, normalize_template};

fn strings(xs: &[&str]) -> Vec<String> {
    xs.iter().map(|x| x.to_string()).collect()
}

// ---------------------------------------------------------------------------
// Timestamp codec
// ---------------------------------------------------------------------------

#[test]
fn format_is_zero_padded() {
    assert_eq!(to_canonical_string(1, 2, 3, 45), "01:02:03.045");
    assert_eq!(to_canonical_string(0, 0, 0, 0), "00:00:00.000");
    assert_eq!(to_canonical_string(123, 59, 59, 999), "123:59:59.999");
}

#[test]
fn parse_inverts_format() {
    assert_eq!(parse_canonical("01:02:03.045"), (1, 2, 3, 45));
    assert_eq!(parse_canonical("00:00:00.000"), (0, 0, 0, 0));
    assert_eq!(parse_canonical(&to_canonical_string(7, 58, 6, 120)), (7, 58, 6, 120));
}

#[test]
fn unparsable_fields_default_to_zero() {
    assert_eq!(parse_canonical("aa:bb:cc.dd"), (0, 0, 0, 0));
    assert_eq!(parse_canonical("01:xx:03.9999999999"), (1, 0, 3, 0));
    assert_eq!(parse_timestamp("::x:"), (0, 0, 0, 0));
}

#[test]
fn parse_frame_index_timestamp() {
    assert_eq!(parse_timestamp("00:00:01:15"), (0, 0, 1, 15));
    assert_eq!(parse_timestamp("01:02:03:29"), (1, 2, 3, 29));
}

#[test]
fn shape_checks() {
    assert_eq!(colon_field_count("00:00:01:15"), 4);
    assert_eq!(colon_field_count("no colons"), 1);
    assert!(is_dotted_timestamp("00:00:01.500"));
    assert!(!is_dotted_timestamp("00:00:01:15"));
    assert!(!is_dotted_timestamp("00:00"));
}

#[test]
fn millisecond_conversion_round_trip() {
    let total = to_milliseconds(1, 2, 3, 45);
    assert_eq!(total, 3_723_045);
    assert_eq!(from_milliseconds(total), (1, 2, 3, 45));
    assert_eq!(from_milliseconds(0), (0, 0, 0, 0));
    assert_eq!(timestamp_to_milliseconds("01:02:03.045"), 3_723_045);
}

#[test]
fn seconds_render_canonically() {
    assert_eq!(seconds_to_time(50), "00:00:50.000");
    assert_eq!(seconds_to_time(3661), "01:01:01.000");
    assert_eq!(seconds_to_time(0), "00:00:00.000");
}

// ---------------------------------------------------------------------------
// Cut-point resolver
// ---------------------------------------------------------------------------

#[test]
fn integral_rate_gets_no_pullback() {
    assert_eq!(add_timestamps("00:00:20.000", "00:00:01.500", 30_000), "00:00:21.500");
    assert_eq!(add_timestamps("00:00:20.000", "00:00:01.500", 25_000), "00:00:21.500");
}

#[test]
fn fractional_rate_gets_fifty_ms_pullback() {
    assert_eq!(add_timestamps("00:00:20.000", "00:00:01.500", 29_970), "00:00:21.450");
    assert_eq!(add_timestamps("00:00:20.000", "00:00:01.500", 23_976), "00:00:21.450");
}

#[test]
fn pullback_borrows_across_the_seconds_boundary() {
    assert_eq!(add_timestamps("00:00:20.000", "00:00:01.020", 29_970), "00:00:20.970");
}

#[test]
fn pullback_never_touches_hours_or_minutes() {
    assert_eq!(add_timestamps("01:02:10.000", "00:00:05.000", 29_970), "01:02:14.950");
}

// ---------------------------------------------------------------------------
// Template normalizer
// ---------------------------------------------------------------------------

#[test]
fn keeps_only_nonempty_lines() {
    let kept = keep_nonempty(strings(&["a", "", "b", ""]));
    assert_eq!(kept, strings(&["a", "b"]));
    assert_eq!(keep_nonempty(Vec::new()), Vec::<String>::new());
}

#[test]
fn frame_field_rescales_to_milliseconds() {
    let adjusted = adjust_millisec(strings(&["00:00:00:00", "00:00:01:15", "00:00:03:00"]));
    assert_eq!(adjusted, strings(&["00:00:00.000", "00:00:01.500", "00:00:03.000"]));
}

#[test]
fn frame_field_overflowing_three_digits_keeps_all_digits() {
    let adjusted = adjust_millisec(strings(&["00:00:00:45"]));
    assert_eq!(adjusted, strings(&["00:00:00.1500"]));
}

#[test]
fn template_lines_normalize_to_section_durations() {
    let durations = normalize_template(strings(&["00:00:00:00", "00:00:01:15", "00:00:03:00"]));
    assert_eq!(durations, strings(&["00:00:01.500", "00:00:01.500"]));
}

#[test]
fn normalize_of_single_line_is_empty() {
    assert_eq!(normalize_template(strings(&["00:00:01:00"])), Vec::<String>::new());
    assert_eq!(normalize_template(Vec::new()), Vec::<String>::new());
}

#[test]
fn raw_pairwise_differences() {
    let diffs = extract_seconds(strings(&["00:00:00:00", "00:00:01:15", "00:00:03:00"]));
    assert_eq!(diffs, strings(&["00:00:01.015", "00:00:01.985"]));
}

// ---------------------------------------------------------------------------
// Clip order scheduler
// ---------------------------------------------------------------------------

#[test]
fn two_clips_two_sections_schedule_each_once() {
    let order = build_part_orders(2, 2);
    assert_eq!(order.len(), 2);
    let mut sorted = order.clone();
    sorted.sort();
    assert_eq!(sorted, vec![0, 1]);
    assert_ne!(order[0], order[1]);
}

#[test]
fn schedule_covers_all_clips_and_never_repeats_adjacently() {
    let order = build_part_orders(3, 10);
    assert_eq!(order.len(), 10);
    for &c in &order {
        assert!(c < 3);
    }
    for i in 0..order.len() - 1 {
        assert_ne!(order[i], order[i + 1]);
    }
    let mut first_block = order[0..3].to_vec();
    first_block.sort();
    assert_eq!(first_block, vec![0, 1, 2]);
}

#[test]
fn single_clip_schedule_terminates() {
    let order = build_part_orders(1, 5);
    assert_eq!(order, vec![0, 0, 0, 0, 0]);
}

#[test]
fn truncation_keeps_exactly_n_section_entries() {
    let order = build_part_orders(4, 6);
    assert_eq!(order.len(), 6);
}

#[test]
fn reshuffle_avoids_the_previous_last_value() {
    for _ in 0..20 {
        let r = random_not_same_last_order(0, vec![0, 1, 2]);
        assert_ne!(r[0], 0);
        let mut sorted = r.clone();
        sorted.sort();
        assert_eq!(sorted, vec![0, 1, 2]);
    }
}

#[test]
fn usage_counts_sum_to_section_count() {
    let counts = count_parts(&vec![0, 1, 0, 2], 3);
    assert_eq!(counts, vec![2, 1, 1]);
    assert_eq!(counts.iter().sum::<usize>(), 4);

    let order = build_part_orders(3, 11);
    let counts = count_parts(&order, 3);
    assert_eq!(counts.iter().sum::<usize>(), 11);
}

// ---------------------------------------------------------------------------
// Slot partitioner
// ---------------------------------------------------------------------------

#[test]
fn hundred_second_clip_with_two_slots() {
    assert_eq!(compute_start_offsets(100_000, 2), vec![20, 50]);
}

#[test]
fn offsets_stay_inside_the_trimmed_window() {
    let d: u64 = 101_000;
    let offsets = compute_start_offsets(d, 3);
    assert_eq!(offsets, vec![20, 40, 60]);
    for &o in &offsets {
        assert!(o >= d / 5000);
        assert!(5000 * o <= 4 * d);
    }
}

#[test]
fn single_slot_starts_at_a_fifth() {
    assert_eq!(compute_start_offsets(50_000, 1), vec![10]);
}

// ---------------------------------------------------------------------------
// Probe output parsing
// ---------------------------------------------------------------------------

#[test]
fn fps_found_in_stream_line() {
    let out = "Input #0, mov\n  Stream #0:0: Video: h264, yuv420p, 1920x1080, 25 fps, 25 tbr\n";
    assert_eq!(extract_fps(out), Some(25_000));
}

#[test]
fn fractional_fps_reads_to_thousandths() {
    let out = "Stream #0:0: Video: h264, 29.97 fps, 30 tbr";
    assert_eq!(extract_fps(out), Some(29_970));
}

#[test]
fn fps_missing_or_unreadable_yields_nothing() {
    assert_eq!(extract_fps("no rate in here"), None);
    assert_eq!(extract_fps("strange fps marker with no number before"), None);
    assert_eq!(extract_fps(""), None);
}

#[test]
fn fps_marker_alone_on_a_line_yields_nothing() {
    assert_eq!(extract_fps("fps"), None);
}

#[test]
fn duration_output_parses_to_milliseconds() {
    assert_eq!(parse_duration_ms("123.456000\n"), Some(123_456));
    assert_eq!(parse_duration_ms("  12  "), Some(12_000));
    assert_eq!(parse_duration_ms("100.5"), Some(100_500));
    assert_eq!(parse_duration_ms("N/A"), None);
    assert_eq!(parse_duration_ms(""), None);
}

#[test]
fn every_full_block_is_a_permutation() {
    let order = build_part_orders(3, 8);
    for b in 0..2 {
        let mut block = order[b * 3..(b + 1) * 3].to_vec();
        block.sort();
        assert_eq!(block, vec![0, 1, 2]);
    }
    // the partial last block still has no duplicate
    assert_ne!(order[6], order[7]);
}
