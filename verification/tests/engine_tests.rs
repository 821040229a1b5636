use timetable::combinator::SubjectCombinator;
use timetable::errors::{BuildError, QueryErrorKind};
use timetable::subject::Subject;

/// A catalog entry built directly, with only the fields the engine reads.
fn bare_subject(number: u32, code: &str, class_num: u8, time_bit: [u64; 5]) -> Subject {
    Subject {
        number,
        code: code.to_string(),
        class_num,
        class_name: String::new(),
        prof: String::new(),
        credit: 3,
        time_place: String::new(),
        place: Vec::new(),
        time_tuple: [Vec::new(), Vec::new(), Vec::new(), Vec::new(), Vec::new()],
        time_bit,
    }
}

/// The catalog of the worked example: course "A" with two Monday sections
/// and course "B" with one Monday section between them.
fn example_catalog() -> Vec<Subject> {
    vec![
        // A section 1: Monday 09:00-10:30, blocks 0..3
        Subject::new(
            1,
            "A".to_string(),
            1,
            "a one".to_string(),
            "p1".to_string(),
            3,
            "월09:00-10:30(E1 - 101)".to_string(),
        )
        .unwrap(),
        // A section 2: Monday 10:30-12:00, blocks 3..6
        Subject::new(
            2,
            "A".to_string(),
            2,
            "a two".to_string(),
            "p1".to_string(),
            3,
            "월10:30-12:00(E1 - 101)".to_string(),
        )
        .unwrap(),
        // B section 1: Monday 09:30-10:00, block 1
        Subject::new(
            3,
            "B".to_string(),
            1,
            "b one".to_string(),
            "p2".to_string(),
            3,
            "월09:30-10:00(E2 - 202)".to_string(),
        )
        .unwrap(),
    ]
}

#[test]
fn example_selected_avoids_conflict() {
    let engine = SubjectCombinator::new(example_catalog()).unwrap();
    let fix: Vec<(String, usize)> = vec![];
    let req = vec!["A".to_string()];
    let sel = vec!["B".to_string()];
    let got = engine.combinate_subjects(&fix, &req, &sel).unwrap().unwrap();
    // A-section-1 conflicts with B, so exactly one combination holds both
    // A and B: A-section-2 with B.  The bare required-only combinations
    // also survive, and the newest partial comes first.
    assert_eq!(got, vec![vec![1usize, 2usize], vec![1usize], vec![0usize]]);
    let with_b = got.iter().filter(|c| c.contains(&2usize)).count();
    assert_eq!(with_b, 1);
}

#[test]
fn example_fixed_conflicting_required_no_solution() {
    let engine = SubjectCombinator::new(example_catalog()).unwrap();
    // A-section-1 occupies B's only block: requiring B cannot be satisfied.
    let fix = vec![("A".to_string(), 0usize)];
    let req = vec!["B".to_string()];
    let sel: Vec<String> = vec![];
    let got = engine.combinate_subjects(&fix, &req, &sel).unwrap();
    assert!(got.is_none());
}

#[test]
fn fixed_conflict_rejected_whatever_else_is_asked() {
    let engine = SubjectCombinator::new(example_catalog()).unwrap();
    // A-section-1 and B conflict; fixing both yields no solution even with
    // further required and selected codes.
    let fix = vec![("A".to_string(), 0usize), ("B".to_string(), 0usize)];
    let req = vec!["A".to_string()];
    let sel = vec!["A".to_string()];
    let got = engine.combinate_subjects(&fix, &req, &sel).unwrap();
    assert!(got.is_none());
}

#[test]
fn no_optional_combination_always_present() {
    let engine = SubjectCombinator::new(example_catalog()).unwrap();
    let fix: Vec<(String, usize)> = vec![];
    let req = vec!["A".to_string()];
    let sel = vec!["B".to_string()];
    let got = engine.combinate_subjects(&fix, &req, &sel).unwrap().unwrap();
    // Both bare required-only combinations survive the optional phase.
    assert!(got.contains(&vec![0usize]));
    assert!(got.contains(&vec![1usize]));
}

#[test]
fn repeated_queries_agree() {
    let engine = SubjectCombinator::new(example_catalog()).unwrap();
    let fix: Vec<(String, usize)> = vec![];
    let req = vec!["A".to_string(), "B".to_string()];
    let sel = vec!["A".to_string()];
    let first = engine.combinate_subjects(&fix, &req, &sel).unwrap().unwrap();
    let second = engine.combinate_subjects(&fix, &req, &sel).unwrap().unwrap();
    assert_eq!(first, second);
}

#[test]
fn unknown_codes_are_reported_with_their_list() {
    let engine = SubjectCombinator::new(example_catalog()).unwrap();
    let fix: Vec<(String, usize)> = vec![];
    let req = vec!["Z".to_string()];
    let sel: Vec<String> = vec![];
    let e = engine.combinate_subjects(&fix, &req, &sel).unwrap_err();
    assert_eq!(e.kind, QueryErrorKind::UnknownRequiredCode);
    assert_eq!(e.code, "Z");

    let e = engine
        .combinate_subjects(&fix, &vec![], &vec!["Q".to_string()])
        .unwrap_err();
    assert_eq!(e.kind, QueryErrorKind::UnknownSelectedCode);
    assert_eq!(e.code, "Q");

    let e = engine
        .combinate_subjects(&vec![("Y".to_string(), 0)], &vec![], &vec![])
        .unwrap_err();
    assert_eq!(e.kind, QueryErrorKind::UnknownFixedCode);
    assert_eq!(e.code, "Y");

    let e = engine
        .combinate_subjects(&vec![("A".to_string(), 5)], &vec![], &vec![])
        .unwrap_err();
    assert_eq!(e.kind, QueryErrorKind::InvalidFixedPosition);
    assert_eq!(e.code, "A");
}

#[test]
fn capacity_boundary_builds_at_256_and_fails_at_257() {
    let mut subs = Vec::new();
    for i in 0..256u64 {
        subs.push(bare_subject(i as u32 + 1, "C", (i % 200) as u8, [i, 0, 0, 0, 0]));
    }
    assert!(SubjectCombinator::new(subs.clone()).is_ok());
    subs.push(bare_subject(257, "C", 201, [256, 0, 0, 0, 0]));
    match SubjectCombinator::new(subs) {
        Err(BuildError::TooManyPatterns) => {}
        _ => panic!("a 257th distinct pattern must be refused"),
    }
}

#[test]
fn ranked_query_orders_by_occupied_time() {
    // C1 occupies three blocks, D1 one block; with both required, the single
    // combination is unchanged; with D selected, the lighter combination
    // (without D) comes first.
    let subs = vec![
        bare_subject(1, "C", 1, [0b111, 0, 0, 0, 0]),
        bare_subject(2, "D", 1, [0, 0b1000, 0, 0, 0]),
    ];
    let engine = SubjectCombinator::new(subs).unwrap();
    let fix: Vec<(String, usize)> = vec![];
    let req = vec!["C".to_string()];
    let sel = vec!["D".to_string()];
    let got = engine.comb_sub(&fix, &req, &sel).unwrap().unwrap();
    assert_eq!(got, vec![vec![0usize], vec![0usize, 1usize]]);
}

#[test]
fn rank_combinations_sorts_ascending() {
    let subs = vec![
        bare_subject(1, "C", 1, [0b1111, 0, 0, 0, 0]),
        bare_subject(2, "D", 1, [0, 0b1, 0, 0, 0]),
    ];
    let engine = SubjectCombinator::new(subs).unwrap();
    let combos = vec![vec![0usize], vec![1usize], vec![0usize, 1usize]];
    let ranked = engine.rank_combinations(&combos);
    assert_eq!(
        ranked,
        vec![vec![1usize], vec![0usize], vec![0usize, 1usize]]
    );
}
