use problem_tracker::problem::Problem;
use problem_tracker::store::{ProblemTracker, StoreError};

fn sample(description: &str) -> Problem {
    Problem::new(description)
}

fn two_sum() -> Problem {
    let mut p = Problem::new("Two Sum");
    p.category = Some("Arrays".to_string());
    p.difficulty = Some("Easy".to_string());
    p
}

#[test]
fn add_then_get_returns_equal_fields() {
    let mut t = ProblemTracker::new();
    let mut p = sample("Reverse Linked List");
    p.link = Some("https://example.com/rll".to_string());
    p.category = Some("Linked Lists".to_string());
    p.pattern = Some("Two Pointers".to_string());
    p.difficulty = Some("Medium".to_string());
    p.time_to_solve_1st = Some(25);
    p.comments = Some("tricky".to_string());
    p.should_solve_again = true;
    let id = t.add_problem(p).unwrap();
    assert!(id > 0);
    let got = t.get_problem(id).unwrap();
    assert_eq!(got.id, Some(id));
    assert_eq!(got.description, "Reverse Linked List");
    assert_eq!(got.link, Some("https://example.com/rll".to_string()));
    assert_eq!(got.category, Some("Linked Lists".to_string()));
    assert_eq!(got.pattern, Some("Two Pointers".to_string()));
    assert_eq!(got.difficulty, Some("Medium".to_string()));
    assert_eq!(got.time_to_solve_1st, Some(25));
    assert_eq!(got.time_to_solve_2nd, None);
    assert_eq!(got.time_to_solve_3rd, None);
    assert_eq!(got.comments, Some("tricky".to_string()));
    assert!(got.should_solve_again);
    let id2 = t.add_problem(sample("Another")).unwrap();
    assert!(id2 > 0);
    assert_ne!(id, id2);
}

#[test]
fn add_rejects_empty_description() {
    let mut t = ProblemTracker::new();
    let r = t.add_problem(sample(""));
    assert_eq!(r, Err(StoreError::StorageError));
    assert!(t.get_all_problems().unwrap().is_empty());
}

#[test]
fn delete_then_get_not_found() {
    let mut t = ProblemTracker::new();
    let id = t.add_problem(sample("To be removed")).unwrap();
    t.delete_problem(id).unwrap();
    assert_eq!(t.get_problem(id).err(), Some(StoreError::NotFound));
}

#[test]
fn deleted_id_is_not_reused() {
    let mut t = ProblemTracker::new();
    let id1 = t.add_problem(sample("first")).unwrap();
    t.delete_problem(id1).unwrap();
    let id2 = t.add_problem(sample("second")).unwrap();
    assert!(id2 > id1);
}

#[test]
fn toggle_twice_restores_flag() {
    let mut t = ProblemTracker::new();
    let mut p = sample("flagged");
    p.should_solve_again = true;
    let id_flagged = t.add_problem(p).unwrap();
    let id_plain = t.add_problem(sample("plain")).unwrap();
    for id in [id_flagged, id_plain] {
        let before = t.get_problem(id).unwrap().should_solve_again;
        t.toggle_review_flag(id).unwrap();
        assert_eq!(t.get_problem(id).unwrap().should_solve_again, !before);
        t.toggle_review_flag(id).unwrap();
        assert_eq!(t.get_problem(id).unwrap().should_solve_again, before);
    }
}

#[test]
fn update_solve_time_sets_exactly_one_slot() {
    let mut t = ProblemTracker::new();
    let id = t.add_problem(sample("timed")).unwrap();
    t.update_solve_time(id, 2, 42).unwrap();
    let got = t.get_problem(id).unwrap();
    assert_eq!(got.time_to_solve_1st, None);
    assert_eq!(got.time_to_solve_2nd, Some(42));
    assert_eq!(got.time_to_solve_3rd, None);
    t.update_solve_time(id, 1, 7).unwrap();
    t.update_solve_time(id, 3, 9).unwrap();
    let got = t.get_problem(id).unwrap();
    assert_eq!(got.time_to_solve_1st, Some(7));
    assert_eq!(got.time_to_solve_2nd, Some(42));
    assert_eq!(got.time_to_solve_3rd, Some(9));
}

#[test]
fn update_solve_time_rejects_bad_attempt() {
    let mut t = ProblemTracker::new();
    let id = t.add_problem(sample("timed")).unwrap();
    assert_eq!(t.update_solve_time(id, 0, 5), Err(StoreError::InvalidArgument));
    assert_eq!(t.update_solve_time(id, 4, 5), Err(StoreError::InvalidArgument));
    let got = t.get_problem(id).unwrap();
    assert_eq!(got.time_to_solve_1st, None);
    assert_eq!(got.time_to_solve_2nd, None);
    assert_eq!(got.time_to_solve_3rd, None);
}

#[test]
fn update_solve_time_on_missing_id_is_noop() {
    let mut t = ProblemTracker::new();
    let id = t.add_problem(sample("only one")).unwrap();
    t.update_solve_time(id + 100, 1, 5).unwrap();
    let got = t.get_problem(id).unwrap();
    assert_eq!(got.time_to_solve_1st, None);
}

#[test]
fn get_all_is_ordered_by_ascending_id() {
    let mut t = ProblemTracker::new();
    let a = t.add_problem(sample("a")).unwrap();
    let b = t.add_problem(sample("b")).unwrap();
    let c = t.add_problem(sample("c")).unwrap();
    let all = t.get_all_problems().unwrap();
    let ids: Vec<i64> = all.iter().map(|p| p.id.unwrap()).collect();
    assert_eq!(ids, vec![a, b, c]);
}

#[test]
fn review_filter_returns_flagged_only() {
    let mut t = ProblemTracker::new();
    let mut p = sample("needs work");
    p.should_solve_again = true;
    let flagged = t.add_problem(p).unwrap();
    t.add_problem(sample("done")).unwrap();
    let review = t.get_problems_to_review().unwrap();
    assert_eq!(review.len(), 1);
    assert_eq!(review[0].id, Some(flagged));
}

#[test]
fn filters_match_exactly() {
    let mut t = ProblemTracker::new();
    let mut p = sample("graph walk");
    p.category = Some("Graphs".to_string());
    p.pattern = Some("BFS".to_string());
    p.difficulty = Some("Hard".to_string());
    let id = t.add_problem(p).unwrap();
    t.add_problem(sample("no labels")).unwrap();
    let by_cat = t.get_problems_by_category("Graphs").unwrap();
    assert_eq!(by_cat.len(), 1);
    assert_eq!(by_cat[0].id, Some(id));
    let by_pat = t.get_problems_by_pattern("BFS").unwrap();
    assert_eq!(by_pat.len(), 1);
    assert_eq!(by_pat[0].id, Some(id));
    let by_diff = t.get_problems_by_difficulty("Hard").unwrap();
    assert_eq!(by_diff.len(), 1);
    assert_eq!(by_diff[0].id, Some(id));
    assert!(t.get_problems_by_category("Graph").unwrap().is_empty());
    assert!(t.get_problems_by_pattern("DFS").unwrap().is_empty());
    assert!(t.get_problems_by_difficulty("hard").unwrap().is_empty());
}

#[test]
fn search_matches_substring_of_four_fields() {
    let mut t = ProblemTracker::new();
    let id_desc = t.add_problem(sample("rotate the matrix")).unwrap();
    let mut p = sample("plain");
    p.category = Some("matrix tricks".to_string());
    let id_cat = t.add_problem(p).unwrap();
    let mut p = sample("another");
    p.pattern = Some("matrix walk".to_string());
    let id_pat = t.add_problem(p).unwrap();
    let mut p = sample("last");
    p.comments = Some("see matrix notes".to_string());
    let id_com = t.add_problem(p).unwrap();
    t.add_problem(sample("unrelated")).unwrap();
    let hits = t.search_problems("matrix").unwrap();
    let ids: Vec<i64> = hits.iter().map(|p| p.id.unwrap()).collect();
    assert_eq!(ids, vec![id_desc, id_cat, id_pat, id_com]);
}

#[test]
fn search_is_case_sensitive() {
    let mut t = ProblemTracker::new();
    t.add_problem(sample("Two Sum")).unwrap();
    assert!(t.search_problems("two").unwrap().is_empty());
    assert_eq!(t.search_problems("Two").unwrap().len(), 1);
}

#[test]
fn search_empty_keyword_matches_everything() {
    let mut t = ProblemTracker::new();
    t.add_problem(sample("one")).unwrap();
    t.add_problem(sample("two")).unwrap();
    assert_eq!(t.search_problems("").unwrap().len(), 2);
}

#[test]
fn from_rows_accepts_sorted_rows_and_continues_ids() {
    let mut a = sample("restored");
    a.id = Some(3);
    let mut b = sample("kept");
    b.id = Some(7);
    let mut t = ProblemTracker::from_rows(vec![a, b]).unwrap();
    assert_eq!(t.get_problem(3).unwrap().description, "restored");
    assert_eq!(t.get_problem(7).unwrap().description, "kept");
    let next = t.add_problem(sample("new")).unwrap();
    assert_eq!(next, 8);
}

#[test]
fn from_rows_rejects_bad_rows() {
    let no_id = sample("missing id");
    assert_eq!(ProblemTracker::from_rows(vec![no_id]).err(), Some(StoreError::StorageError));
    let mut zero = sample("zero id");
    zero.id = Some(0);
    assert_eq!(ProblemTracker::from_rows(vec![zero]).err(), Some(StoreError::StorageError));
    let mut x = sample("x");
    x.id = Some(5);
    let mut y = sample("y");
    y.id = Some(5);
    assert_eq!(ProblemTracker::from_rows(vec![x, y]).err(), Some(StoreError::StorageError));
    let mut u = sample("u");
    u.id = Some(9);
    let mut v = sample("v");
    v.id = Some(2);
    assert_eq!(ProblemTracker::from_rows(vec![u, v]).err(), Some(StoreError::StorageError));
}

#[test]
fn scenario_get_by_category_is_case_sensitive() {
    let mut t = ProblemTracker::new();
    t.add_problem(two_sum()).unwrap();
    let hit = t.get_problems_by_category("Arrays").unwrap();
    assert_eq!(hit.len(), 1);
    assert_eq!(hit[0].description, "Two Sum");
    assert!(t.get_problems_by_category("arrays").unwrap().is_empty());
}

#[test]
fn scenario_delete_missing_id_is_not_a_crash() {
    let mut t = ProblemTracker::new();
    let id = t.add_problem(two_sum()).unwrap();
    assert_eq!(t.get_problem(9999).err(), Some(StoreError::NotFound));
    t.delete_problem(9999).unwrap();
    assert_eq!(t.get_all_problems().unwrap().len(), 1);
    assert_eq!(t.get_problem(id).unwrap().description, "Two Sum");
}
