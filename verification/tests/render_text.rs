use problem_tracker::problem::Problem;
use problem_tracker::store::ProblemTracker;

fn two_sum() -> Problem {
    let mut p = Problem::new("Two Sum");
    p.category = Some("Arrays".to_string());
    p.difficulty = Some("Easy".to_string());
    p
}

#[test]
fn scenario_two_sum_renders_header_and_not_attempted() {
    let mut t = ProblemTracker::new();
    let id = t.add_problem(two_sum()).unwrap();
    let got = t.get_problem(id).unwrap();
    assert_eq!(got.link, None);
    assert_eq!(got.pattern, None);
    assert_eq!(got.comments, None);
    assert!(!got.should_solve_again);
    let text = got.to_text();
    assert_eq!(
        text,
        format!("Problem #{}: Two Sum (Easy) - Category: Arrays\n  \n  Solve times: Not attempted", id)
    );
}

#[test]
fn scenario_two_updates_render_two_values_and_placeholder() {
    let mut t = ProblemTracker::new();
    let id = t.add_problem(two_sum()).unwrap();
    t.update_solve_time(id, 1, 15).unwrap();
    t.update_solve_time(id, 2, 10).unwrap();
    let text = t.get_problem(id).unwrap().to_text();
    assert!(text.contains("Solve times: 15min, 10min, -"));
}

#[test]
fn scenario_toggle_adds_review_marker() {
    let mut t = ProblemTracker::new();
    let id = t.add_problem(two_sum()).unwrap();
    let before = t.get_problem(id).unwrap();
    assert!(!before.to_text().contains("[REVIEW NEEDED]"));
    t.toggle_review_flag(id).unwrap();
    let after = t.get_problem(id).unwrap();
    assert!(after.should_solve_again);
    assert!(after.to_text().ends_with("\n  [REVIEW NEEDED]"));
}

#[test]
fn renders_every_optional_part_when_present() {
    let mut p = Problem::new("Clone Graph");
    p.id = Some(12345);
    p.link = Some("https://example.com/cg".to_string());
    p.category = Some("Graphs".to_string());
    p.pattern = Some("DFS".to_string());
    p.difficulty = Some("Medium".to_string());
    p.time_to_solve_1st = Some(30);
    p.time_to_solve_2nd = Some(20);
    p.time_to_solve_3rd = Some(10);
    p.comments = Some("review adjacency handling".to_string());
    p.should_solve_again = true;
    assert_eq!(
        p.to_text(),
        "Problem #12345: Clone Graph (Medium) - Category: Graphs - Pattern: DFS\n  \
         Link: https://example.com/cg\n  \
         Solve times: 30min, 20min, 10min\n  \
         Comments: review adjacency handling\n  \
         [REVIEW NEEDED]"
    );
}

#[test]
fn renders_placeholder_id_and_unknown_difficulty() {
    let p = Problem::new("Unsaved");
    assert_eq!(p.to_text(), "Problem #0: Unsaved (Unknown)\n  \n  Solve times: Not attempted");
}

#[test]
fn renders_one_value_and_two_placeholders() {
    let mut p = Problem::new("Single attempt");
    p.id = Some(2);
    p.time_to_solve_1st = Some(5);
    assert_eq!(p.to_text(), "Problem #2: Single attempt (Unknown)\n  \n  Solve times: 5min, -, -");
}

#[test]
fn gap_in_attempts_renders_placeholders_from_first_absent_slot() {
    // The slots are inspected left to right as a fixed tuple: from the
    // first absent slot onward only placeholders are shown, whatever the
    // later slots hold.
    let mut p = Problem::new("Odd slots");
    p.id = Some(3);
    p.time_to_solve_2nd = Some(8);
    assert_eq!(p.to_text(), "Problem #3: Odd slots (Unknown)\n  \n  Solve times: -, -, -");
    let mut q = Problem::new("Odd");
    q.id = Some(1);
    q.time_to_solve_1st = Some(5);
    q.time_to_solve_3rd = Some(7);
    assert_eq!(q.to_text(), "Problem #1: Odd (Unknown)\n  \n  Solve times: 5min, -, -");
}

#[test]
fn renders_negative_minutes_with_sign() {
    let mut p = Problem::new("Adjusted clock");
    p.id = Some(4);
    p.time_to_solve_1st = Some(-5);
    assert_eq!(
        p.to_text(),
        "Problem #4: Adjusted clock (Unknown)\n  \n  Solve times: -5min, -, -"
    );
}

#[test]
fn renders_extreme_minute_values() {
    let mut p = Problem::new("Extremes");
    p.id = Some(5);
    p.time_to_solve_1st = Some(i64::MIN);
    p.time_to_solve_2nd = Some(i64::MAX);
    p.time_to_solve_3rd = Some(0);
    assert_eq!(
        p.to_text(),
        "Problem #5: Extremes (Unknown)\n  \n  Solve times: \
         -9223372036854775808min, 9223372036854775807min, 0min"
    );
}
