//! The `Problem` record and its mathematical model.

use vstd::prelude::*;
use vstd::string::*;

verus! {

/// Mathematical value of a tracked practice problem: text fields as
/// sequences of characters, optional fields as `Option` (absence is
/// distinct from an empty string), times in minutes as integers.
#[verifier::ext_equal]
pub ghost struct ProblemModel {
    pub id: Option<int>,
    pub description: Seq<char>,
    pub link: Option<Seq<char>>,
    pub category: Option<Seq<char>>,
    pub pattern: Option<Seq<char>>,
    pub difficulty: Option<Seq<char>>,
    pub time_to_solve_1st: Option<int>,
    pub time_to_solve_2nd: Option<int>,
    pub time_to_solve_3rd: Option<int>,
    pub comments: Option<Seq<char>>,
    pub should_solve_again: bool,
}

/// A practice problem. `id` is absent until the record is inserted into a
/// store, which assigns it. Every optional field distinguishes "not set"
/// from "set to an empty string".
pub struct Problem {
    pub id: Option<i64>,
    pub description: String,
    pub link: Option<String>,
    pub category: Option<String>,
    pub pattern: Option<String>,
    pub difficulty: Option<String>,
    pub time_to_solve_1st: Option<i64>,
    pub time_to_solve_2nd: Option<i64>,
    pub time_to_solve_3rd: Option<i64>,
    pub comments: Option<String>,
    pub should_solve_again: bool,
}

pub open spec fn view_opt_text(o: Option<String>) -> Option<Seq<char>> {
    match o {
        Some(s) => Some(s@),
        None => None,
    }
}

pub open spec fn view_opt_minutes(o: Option<i64>) -> Option<int> {
    match o {
        Some(n) => Some(n as int),
        None => None,
    }
}

impl View for Problem {
    type V = ProblemModel;

    open spec fn view(&self) -> ProblemModel {
        ProblemModel {
            id: match self.id {
                Some(n) => Some(n as int),
                None => None,
            },
            description: self.description@,
            link: view_opt_text(self.link),
            category: view_opt_text(self.category),
            pattern: view_opt_text(self.pattern),
            difficulty: view_opt_text(self.difficulty),
            time_to_solve_1st: view_opt_minutes(self.time_to_solve_1st),
            time_to_solve_2nd: view_opt_minutes(self.time_to_solve_2nd),
            time_to_solve_3rd: view_opt_minutes(self.time_to_solve_3rd),
            comments: view_opt_text(self.comments),
            should_solve_again: self.should_solve_again,
        }
    }
}

impl Problem {
    /// A fresh, not yet persisted problem: only the description is set,
    /// the review flag defaults to false.
    pub fn new(description: &str) -> (p: Problem)
        ensures
            p@.id is None,
            p@.description == description@,
            p@.link is None,
            p@.category is None,
            p@.pattern is None,
            p@.difficulty is None,
            p@.time_to_solve_1st is None,
            p@.time_to_solve_2nd is None,
            p@.time_to_solve_3rd is None,
            p@.comments is None,
            p@.should_solve_again == false,
    {
        Problem {
            id: None,
            description: String::from_str(description),
            link: None,
            category: None,
            pattern: None,
            difficulty: None,
            time_to_solve_1st: None,
            time_to_solve_2nd: None,
            time_to_solve_3rd: None,
            comments: None,
            should_solve_again: false,
        }
    }
}

fn clone_opt_text(o: &Option<String>) -> (r: Option<String>)
    ensures
        view_opt_text(r) == view_opt_text(*o),
{
    match o {
        Some(s) => Some(s.clone()),
        None => None,
    }
}

impl Clone for Problem {
    fn clone(&self) -> (r: Self)
        ensures
            r@ == self@,
    {
        let r = Problem {
            id: self.id,
            description: self.description.clone(),
            link: clone_opt_text(&self.link),
            category: clone_opt_text(&self.category),
            pattern: clone_opt_text(&self.pattern),
            difficulty: clone_opt_text(&self.difficulty),
            time_to_solve_1st: self.time_to_solve_1st,
            time_to_solve_2nd: self.time_to_solve_2nd,
            time_to_solve_3rd: self.time_to_solve_3rd,
            comments: clone_opt_text(&self.comments),
            should_solve_again: self.should_solve_again,
        };
        proof {
            assert(r@ =~= self@);
        }
        r
    }
}

} // verus!
