use timetable::errors::ScheduleError;
use timetable::subject::{
    hamming_weight, is_conflict, merge_time_bit, time_and_place, time_to_bit, time_to_num,
    Subject,
};

#[test]
fn time_to_num_reads_hours_and_minutes() {
    assert_eq!(time_to_num("09:30"), Ok(570));
    assert_eq!(time_to_num("14:00"), Ok(840));
    assert_eq!(time_to_num("ab:cd"), Err(ScheduleError::BadTimeFormat));
    assert_eq!(time_to_num("9:30"), Err(ScheduleError::BadTimeFormat));
    assert_eq!(time_to_num(""), Err(ScheduleError::BadTimeFormat));
}

#[test]
fn time_to_bit_marks_half_hour_blocks() {
    // 09:00-10:30 covers blocks 0, 1 and 2.
    assert_eq!(time_to_bit(&(540, 630)), Ok(0b111));
    // 10:30-12:00 covers blocks 3, 4 and 5.
    assert_eq!(time_to_bit(&(630, 720)), Ok(0b111000));
    // An empty interval covers nothing.
    assert_eq!(time_to_bit(&(600, 600)), Ok(0));
    // Before the 9:00 window start.
    assert_eq!(time_to_bit(&(480, 630)), Err(ScheduleError::IntervalOutOfRange));
}

#[test]
fn schedule_text_parses_into_rooms_and_masks() {
    let (place, tuple, bits) =
        time_and_place("월09:00-10:30(E1 - 101)화14:00-15:00(E2 - 202)").unwrap();
    assert_eq!(place, vec!["E1 - 101".to_string(), "E2 - 202".to_string()]);
    assert_eq!(tuple[0], vec![(540, 630)]);
    assert_eq!(tuple[1], vec![(840, 900)]);
    assert_eq!(bits, [0b111, 0b11 << 10, 0, 0, 0]);
}

#[test]
fn overlapping_own_intervals_are_rejected() {
    let r = Subject::new(
        1,
        "A".to_string(),
        1,
        "a".to_string(),
        "p".to_string(),
        3,
        "월09:00-10:30(E1 - 101)월10:00-11:00(E1 - 102)".to_string(),
    );
    assert!(matches!(r, Err(ScheduleError::OverlappingIntervals)));
}

#[test]
fn malformed_times_are_rejected() {
    let r = Subject::new(
        1,
        "A".to_string(),
        1,
        "a".to_string(),
        "p".to_string(),
        3,
        "월ab:cd-10:30(E1 - 101)".to_string(),
    );
    assert!(matches!(r, Err(ScheduleError::BadTimeFormat)));
    let r = Subject::new(
        1,
        "A".to_string(),
        1,
        "a".to_string(),
        "p".to_string(),
        3,
        "월08:00-10:30(E1 - 101)".to_string(),
    );
    assert!(matches!(r, Err(ScheduleError::IntervalOutOfRange)));
}

#[test]
fn saturday_fragments_keep_their_room_but_no_weekday() {
    let s = Subject::new(
        1,
        "A".to_string(),
        1,
        "a".to_string(),
        "p".to_string(),
        3,
        "토09:00-10:30(E1 - 101)".to_string(),
    )
    .unwrap();
    assert_eq!(s.place, vec!["E1 - 101".to_string()]);
    assert_eq!(s.time_bit, [0, 0, 0, 0, 0]);
}

#[test]
fn conflict_tests_share_a_block() {
    let a = [0b111u64, 0, 0, 0, 0];
    let b = [0b110u64, 0, 0, 0, 0];
    let c = [0u64, 0b1, 0, 0, 0];
    assert!(is_conflict(&a, &b));
    assert!(!is_conflict(&a, &c));
    // Symmetry, and self conflict for any occupied pattern.
    assert_eq!(is_conflict(&a, &c), is_conflict(&c, &a));
    assert!(is_conflict(&a, &a));
    assert!(!is_conflict(&[0, 0, 0, 0, 0], &[0, 0, 0, 0, 0]));
}

#[test]
fn merge_unions_disjoint_patterns() {
    let a = [0b111u64, 0, 0, 0, 0];
    let c = [0u64, 0b1, 0, 0, 0];
    assert_eq!(merge_time_bit(&a, &c), Some([0b111, 0b1, 0, 0, 0]));
    let b = [0b110u64, 0, 0, 0, 0];
    assert_eq!(merge_time_bit(&a, &b), None);
}

#[test]
fn hamming_weight_counts_occupied_blocks() {
    assert_eq!(hamming_weight(&[0, 0, 0, 0, 0]), 0);
    assert_eq!(hamming_weight(&[0b111, 0b1, 0, 0, u64::MAX]), 68);
}

#[test]
fn to_array_renders_the_compact_row() {
    let s = Subject::new(
        1,
        "A".to_string(),
        1,
        "Alg".to_string(),
        "Kim".to_string(),
        3,
        "월09:00-10:30(E1 - 101)".to_string(),
    )
    .unwrap();
    assert_eq!(
        s.to_array(),
        "[0,\"A\",1,\"Alg\",\"Kim\",3,[\"E1-101\"],{\"월\":[[540,630]]}]"
    );
}

#[test]
fn zipped_json_wraps_body_and_header() {
    let s = Subject::new(
        1,
        "A".to_string(),
        1,
        "Alg".to_string(),
        "Kim".to_string(),
        3,
        "월09:00-10:30(E1 - 101)".to_string(),
    )
    .unwrap();
    let got = Subject::zipped_json(&vec![s]);
    let want = format!(
        "{{\"body\":[{}],\"head\":[\"No\",\"과목번호\",\"분반\",\"교과목명\",\"담당교수\",\"학점\",\"강의실\",\"시간\"]}}",
        "[0,\"A\",1,\"Alg\",\"Kim\",3,[\"E1-101\"],{\"월\":[[540,630]]}]"
    );
    assert_eq!(got, want);
}
