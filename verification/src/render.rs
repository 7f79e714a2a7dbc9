//! Deterministic multi-line text rendering of a `Problem`.
//!
//! The layout, in order: a header line with id, description and difficulty
//! (the literal `Unknown` when difficulty is absent), extended with the
//! category and the pattern when present; an indented line carrying the
//! link when present; a solve-times line showing the three attempt slots
//! left to right, where the first absent slot and every slot after it
//! render as `-` whatever they hold, and three absent slots render as a
//! single `Not attempted`; a
//! comments line when present; and a review marker line when the review
//! flag is set.

use crate::problem::{Problem, ProblemModel};
use crate::text::{spec_decimal_int, decimal_i64};
use vstd::prelude::*;
use vstd::string::*;

verus! {

/// The id shown in the header: the assigned id, or zero for a record that
/// was never persisted.
pub open spec fn spec_shown_id(p: ProblemModel) -> int {
    match p.id {
        Some(n) => n,
        None => 0,
    }
}

/// The header line: id, description, difficulty, then category and
/// pattern when present.
pub open spec fn spec_header(p: ProblemModel) -> Seq<char> {
    "Problem #"@ + spec_decimal_int(spec_shown_id(p)) + ": "@ + p.description + " ("@ + (match p
        .difficulty {
        Some(d) => d,
        None => "Unknown"@,
    }) + ")"@ + (match p.category {
        Some(c) => " - Category: "@ + c,
        None => Seq::<char>::empty(),
    }) + (match p.pattern {
        Some(t) => " - Pattern: "@ + t,
        None => Seq::<char>::empty(),
    })
}

/// The three attempt slots, inspected left to right as a fixed-order
/// tuple: a minute value per present slot up to the first absent slot,
/// then a placeholder for that slot and every later one, whatever they
/// hold; `Not attempted` only when all three slots are absent.
pub open spec fn spec_times(p: ProblemModel) -> Seq<char> {
    match (p.time_to_solve_1st, p.time_to_solve_2nd, p.time_to_solve_3rd) {
        (None, None, None) => "Not attempted"@,
        (None, _, _) => "-, -, -"@,
        (Some(t1), None, _) => spec_decimal_int(t1) + "min, -, -"@,
        (Some(t1), Some(t2), None) => spec_decimal_int(t1) + "min, "@ + spec_decimal_int(t2)
            + "min, -"@,
        (Some(t1), Some(t2), Some(t3)) => spec_decimal_int(t1) + "min, "@ + spec_decimal_int(t2)
            + "min, "@ + spec_decimal_int(t3) + "min"@,
    }
}

/// The full rendered text of one problem.
pub open spec fn spec_render(p: ProblemModel) -> Seq<char> {
    spec_header(p) + "\n  "@ + (match p.link {
        Some(l) => "Link: "@ + l,
        None => Seq::<char>::empty(),
    }) + "\n  Solve times: "@ + spec_times(p) + (match p.comments {
        Some(c) => "\n  Comments: "@ + c,
        None => Seq::<char>::empty(),
    }) + (if p.should_solve_again {
        "\n  [REVIEW NEEDED]"@
    } else {
        Seq::<char>::empty()
    })
}

impl Problem {
    /// The rendered text block for terminal display; a pure function of
    /// the record's value.
    #[verifier::rlimit(100)]
    pub fn to_text(&self) -> (r: String)
        ensures
            r@ == spec_render(self@),
    {
        let mut out = String::from_str("Problem #");
        let shown_id: i64 = match self.id {
            Some(n) => n,
            None => 0,
        };
        let id_text = decimal_i64(shown_id);
        out.append(id_text.as_str());
        out.append(": ");
        out.append(self.description.as_str());
        out.append(" (");
        match &self.difficulty {
            Some(d) => out.append(d.as_str()),
            None => out.append("Unknown"),
        }
        out.append(")");
        match &self.category {
            Some(c) => {
                out.append(" - Category: ");
                out.append(c.as_str());
            },
            None => {},
        }
        match &self.pattern {
            Some(t) => {
                out.append(" - Pattern: ");
                out.append(t.as_str());
            },
            None => {},
        }
        proof {
            assert(out@ =~= spec_header(self@));
        }
        out.append("\n  ");
        match &self.link {
            Some(l) => {
                out.append("Link: ");
                out.append(l.as_str());
            },
            None => {},
        }
        out.append("\n  Solve times: ");
        let ghost before_times = out@;
        match (self.time_to_solve_1st, self.time_to_solve_2nd, self.time_to_solve_3rd) {
            (None, None, None) => {
                out.append("Not attempted");
            },
            (None, _, _) => {
                out.append("-, -, -");
            },
            (Some(t1), None, _) => {
                let a = decimal_i64(t1);
                out.append(a.as_str());
                out.append("min, -, -");
            },
            (Some(t1), Some(t2), None) => {
                let a = decimal_i64(t1);
                out.append(a.as_str());
                out.append("min, ");
                let b = decimal_i64(t2);
                out.append(b.as_str());
                out.append("min, -");
            },
            (Some(t1), Some(t2), Some(t3)) => {
                let a = decimal_i64(t1);
                out.append(a.as_str());
                out.append("min, ");
                let b = decimal_i64(t2);
                out.append(b.as_str());
                out.append("min, ");
                let c = decimal_i64(t3);
                out.append(c.as_str());
                out.append("min");
            },
        }
        proof {
            assert(out@ =~= before_times + spec_times(self@));
        }
        match &self.comments {
            Some(c) => {
                out.append("\n  Comments: ");
                out.append(c.as_str());
            },
            None => {},
        }
        if self.should_solve_again {
            out.append("\n  [REVIEW NEEDED]");
        }
        proof {
            assert(out@ =~= spec_render(self@));
        }
        out
    }
}

} // verus!
