//! The in-memory problem store: CRUD and query operations over a sequence
//! of problems kept in ascending id order, with ids assigned by a
//! monotone counter and never reused.

use crate::problem::{Problem, ProblemModel};
use crate::text::{contains_substring, is_substring_of};
use vstd::prelude::*;
use vstd::seq_lib::*;
use vstd::string::*;

verus! {

/// The errors a store operation can report: a missing id, an argument
/// outside its allowed range, or a constraint violation such as an empty
/// description.
#[derive(Clone, Copy, Debug, PartialEq, Eq, Structural)]
pub enum StoreError {
    NotFound,
    InvalidArgument,
    StorageError,
}

/// The mathematical value of a sequence of problems.
pub open spec fn models(s: Seq<Problem>) -> Seq<ProblemModel> {
    s.map_values(|p: Problem| p@)
}

/// Mathematical state of a store: the records in order, and the next id
/// to assign.
#[verifier::ext_equal]
pub ghost struct TrackerModel {
    pub problems: Seq<ProblemModel>,
    pub next_id: int,
}

/// Ids are strictly increasing along the sequence.
pub open spec fn ids_strictly_increasing(s: Seq<ProblemModel>) -> bool {
    forall|i: int, j: int|
        #![trigger s[i], s[j]]
        0 <= i < j < s.len() ==> s[i].id->Some_0 < s[j].id->Some_0
}

/// Well-formed store state: every record carries a positive id below the
/// next id to assign, and the records are sorted by ascending id.
pub open spec fn wf_model(s: Seq<ProblemModel>, next_id: int) -> bool {
    &&& 1 <= next_id
    &&& forall|i: int|
        0 <= i < s.len() ==> (#[trigger] s[i]).id is Some && 0 < s[i].id->Some_0 < next_id
    &&& ids_strictly_increasing(s)
}

/// The first record with the given id, searching from the front.
pub open spec fn spec_find(s: Seq<ProblemModel>, id: int) -> Option<ProblemModel>
    decreases s.len(),
{
    if s.len() == 0 {
        None
    } else if s[0].id == Some(id) {
        Some(s[0])
    } else {
        spec_find(s.drop_first(), id)
    }
}

/// The record as stored after assigning it an id.
pub open spec fn with_id(p: ProblemModel, id: int) -> ProblemModel {
    ProblemModel { id: Some(id), ..p }
}

/// The record with its review flag flipped.
pub open spec fn flip_review(p: ProblemModel) -> ProblemModel {
    ProblemModel { should_solve_again: !p.should_solve_again, ..p }
}

/// The attempt slot of a record addressed by ordinal 1, 2 or 3.
pub open spec fn spec_slot(p: ProblemModel, attempt: int) -> Option<int> {
    if attempt == 1 {
        p.time_to_solve_1st
    } else if attempt == 2 {
        p.time_to_solve_2nd
    } else {
        p.time_to_solve_3rd
    }
}

/// The record with the addressed attempt slot set to the given minutes.
pub open spec fn set_slot(p: ProblemModel, attempt: int, minutes: int) -> ProblemModel {
    if attempt == 1 {
        ProblemModel { time_to_solve_1st: Some(minutes), ..p }
    } else if attempt == 2 {
        ProblemModel { time_to_solve_2nd: Some(minutes), ..p }
    } else {
        ProblemModel { time_to_solve_3rd: Some(minutes), ..p }
    }
}

/// Pointwise effect of a review-flag toggle addressed at `id`.
pub open spec fn toggle_fn(id: int) -> spec_fn(ProblemModel) -> ProblemModel {
    |p: ProblemModel|
        if p.id == Some(id) {
            flip_review(p)
        } else {
            p
        }
}

/// Effect of a review-flag toggle on the whole sequence.
pub open spec fn spec_toggle_all(s: Seq<ProblemModel>, id: int) -> Seq<ProblemModel> {
    s.map_values(toggle_fn(id))
}

/// Pointwise effect of a solve-time update addressed at `id`.
pub open spec fn set_time_fn(id: int, attempt: int, minutes: int) -> spec_fn(
    ProblemModel,
) -> ProblemModel {
    |p: ProblemModel|
        if p.id == Some(id) {
            set_slot(p, attempt, minutes)
        } else {
            p
        }
}

/// Effect of a solve-time update on the whole sequence.
pub open spec fn spec_set_all(
    s: Seq<ProblemModel>,
    id: int,
    attempt: int,
    minutes: int,
) -> Seq<ProblemModel> {
    s.map_values(set_time_fn(id, attempt, minutes))
}

/// Keeps the records whose id differs from the given one.
pub open spec fn not_id_pred(id: int) -> spec_fn(ProblemModel) -> bool {
    |p: ProblemModel| p.id != Some(id)
}

/// Keeps the records flagged for review.
pub open spec fn review_pred() -> spec_fn(ProblemModel) -> bool {
    |p: ProblemModel| p.should_solve_again
}

/// Keeps the records whose category is exactly the given label.
pub open spec fn category_pred(c: Seq<char>) -> spec_fn(ProblemModel) -> bool {
    |p: ProblemModel| p.category == Some(c)
}

/// Keeps the records whose pattern is exactly the given label.
pub open spec fn pattern_pred(c: Seq<char>) -> spec_fn(ProblemModel) -> bool {
    |p: ProblemModel| p.pattern == Some(c)
}

/// Keeps the records whose difficulty is exactly the given label.
pub open spec fn difficulty_pred(c: Seq<char>) -> spec_fn(ProblemModel) -> bool {
    |p: ProblemModel| p.difficulty == Some(c)
}

/// A record matches a keyword when the keyword is a (case-sensitive)
/// substring of its description, category, pattern or comments.
pub open spec fn matches_keyword(p: ProblemModel, kw: Seq<char>) -> bool {
    ||| is_substring_of(kw, p.description)
    ||| (p.category matches Some(c) && is_substring_of(kw, c))
    ||| (p.pattern matches Some(c) && is_substring_of(kw, c))
    ||| (p.comments matches Some(c) && is_substring_of(kw, c))
}

/// Keeps the records matching a keyword.
pub open spec fn search_pred(kw: Seq<char>) -> spec_fn(ProblemModel) -> bool {
    |p: ProblemModel| matches_keyword(p, kw)
}

/// `filter` over a sequence extended by one element keeps the old result
/// and appends the element exactly when it satisfies the predicate.
pub proof fn lemma_filter_push<A>(s: Seq<A>, x: A, pred: spec_fn(A) -> bool)
    ensures
        s.push(x).filter(pred) == (if pred(x) {
            s.filter(pred).push(x)
        } else {
            s.filter(pred)
        }),
{
    reveal(Seq::filter);
    assert(s.push(x).drop_last() =~= s);
}

/// Filtering a well-formed store state leaves a well-formed store state:
/// the surviving records keep their ids, bounds and relative order.
pub proof fn lemma_filter_keeps_wf(s: Seq<ProblemModel>, next_id: int, pred: spec_fn(ProblemModel) -> bool)
    requires
        wf_model(s, next_id),
    ensures
        wf_model(s.filter(pred), next_id),
    decreases s.len(),
{
    broadcast use group_filter_ensures, Seq::lemma_filter_contains_rev, Seq::lemma_index_contains;

    reveal(Seq::filter);
    let f = s.filter(pred);
    assert forall|i: int| 0 <= i < f.len() implies (#[trigger] f[i]).id is Some && 0
        < f[i].id->Some_0 < next_id by {
        assert(f.contains(f[i]));
        assert(s.contains(f[i]));
        let k = choose|k: int| 0 <= k < s.len() && s[k] == f[i];
        assert(s[k].id is Some);
    }
    if s.len() > 0 {
        let d = s.drop_last();
        assert(wf_model(d, next_id)) by {
            assert(forall|i: int| 0 <= i < d.len() ==> d[i] == s[i]);
        }
        lemma_filter_keeps_wf(d, next_id, pred);
        let fd = d.filter(pred);
        if pred(s.last()) {
            assert(f == fd.push(s.last()));
            assert forall|i: int| 0 <= i < fd.len() implies (#[trigger] fd[i]).id->Some_0
                < s.last().id->Some_0 by {
                assert(fd.contains(fd[i]));
                assert(d.contains(fd[i]));
                let k = choose|k: int| 0 <= k < d.len() && d[k] == fd[i];
                assert(s[k] == d[k]);
                assert(s[k].id->Some_0 < s[s.len() - 1].id->Some_0);
            }
            assert(ids_strictly_increasing(f)) by {
                assert forall|i: int, j: int|
                    #![trigger f[i], f[j]]
                    0 <= i < j < f.len() implies f[i].id->Some_0 < f[j].id->Some_0 by {
                    if j < f.len() - 1 {
                        assert(f[i] == fd[i] && f[j] == fd[j]);
                    } else {
                        assert(f[j] == s.last());
                        assert(f[i] == fd[i]);
                    }
                }
            }
        } else {
            assert(f == fd);
        }
    }
}

/// Two store states with pointwise equal ids are well formed together.
pub proof fn lemma_wf_same_ids(s1: Seq<ProblemModel>, s2: Seq<ProblemModel>, next_id: int)
    requires
        wf_model(s1, next_id),
        s2.len() == s1.len(),
        forall|i: int| 0 <= i < s1.len() ==> (#[trigger] s2[i]).id == s1[i].id,
    ensures
        wf_model(s2, next_id),
{
    assert forall|i: int| 0 <= i < s2.len() implies (#[trigger] s2[i]).id is Some && 0
        < s2[i].id->Some_0 < next_id by {
        assert(s1[i].id is Some);
    }
    assert forall|i: int, j: int|
        #![trigger s2[i], s2[j]]
        0 <= i < j < s2.len() implies s2[i].id->Some_0 < s2[j].id->Some_0 by {
        assert(s1[i].id->Some_0 < s1[j].id->Some_0);
    }
}

/// A search from the front misses an id exactly when no record carries it.
pub proof fn lemma_find_none_iff(s: Seq<ProblemModel>, id: int)
    ensures
        spec_find(s, id) is None <==> (forall|j: int|
            0 <= j < s.len() ==> (#[trigger] s[j]).id != Some(id)),
    decreases s.len(),
{
    if s.len() > 0 {
        let d = s.drop_first();
        lemma_find_none_iff(d, id);
        if spec_find(s, id) is None {
            assert forall|j: int| 0 <= j < s.len() implies (#[trigger] s[j]).id != Some(id) by {
                if j > 0 {
                    assert(d[j - 1] == s[j]);
                }
            }
        }
        if forall|j: int| 0 <= j < s.len() ==> (#[trigger] s[j]).id != Some(id) {
            assert forall|j: int| 0 <= j < d.len() implies (#[trigger] d[j]).id != Some(id) by {
                assert(d[j] == s[j + 1]);
            }
            assert(spec_find(d, id) is None);
        }
    }
}

/// Appending a record under an id that no present record carries makes
/// that record the one a search finds.
pub proof fn lemma_find_push_fresh(s: Seq<ProblemModel>, q: ProblemModel, id: int)
    requires
        forall|j: int| 0 <= j < s.len() ==> (#[trigger] s[j]).id != Some(id),
        q.id == Some(id),
    ensures
        spec_find(s.push(q), id) == Some(q),
    decreases s.len(),
{
    let t = s.push(q);
    if s.len() == 0 {
        assert(t[0] == q);
    } else {
        assert(t[0] == s[0]);
        assert(t.drop_first() =~= s.drop_first().push(q));
        assert(forall|j: int| 0 <= j < s.drop_first().len() ==> s.drop_first()[j] == s[j + 1]);
        lemma_find_push_fresh(s.drop_first(), q, id);
    }
}

/// Rows loaded from outside form a valid store state: every row carries a
/// positive id with room left above it, in strictly ascending order.
pub open spec fn rows_well_formed(s: Seq<ProblemModel>) -> bool {
    &&& forall|i: int|
        0 <= i < s.len() ==> (#[trigger] s[i]).id is Some && 0 < s[i].id->Some_0 < i64::MAX
    &&& ids_strictly_increasing(s)
}

/// The in-memory problem store. Records are kept sorted by ascending id;
/// `next_id` is the id the next insertion receives, strictly above every
/// id ever assigned, so ids are never reused after a delete.
pub struct ProblemTracker {
    pub problems: Vec<Problem>,
    pub next_id: i64,
}

impl View for ProblemTracker {
    type V = TrackerModel;

    open spec fn view(&self) -> TrackerModel {
        TrackerModel { problems: models(self.problems@), next_id: self.next_id as int }
    }
}

impl ProblemTracker {
    /// Well-formed store.
    pub open spec fn wf(&self) -> bool {
        wf_model(self@.problems, self@.next_id)
    }

    /// An empty store; the first insertion receives id 1.
    pub fn new() -> (t: ProblemTracker)
        ensures
            t.wf(),
            t@.problems == Seq::<ProblemModel>::empty(),
            t@.next_id == 1,
    {
        let t = ProblemTracker { problems: Vec::new(), next_id: 1 };
        proof {
            assert(models(t.problems@) =~= Seq::<ProblemModel>::empty());
        }
        t
    }

    /// A store rebuilt from rows already carrying ids (as read back from
    /// durable storage, in ascending id order). Rejects rows without an
    /// id, with a non-positive id, out of order, or leaving no id to
    /// assign next.
    pub fn from_rows(rows: Vec<Problem>) -> (r: Result<ProblemTracker, StoreError>)
        ensures
            r matches Ok(t) ==> {
                &&& t.wf()
                &&& rows_well_formed(models(rows@))
                &&& t@.problems == models(rows@)
                &&& t@.next_id == (if models(rows@).len() == 0 {
                    1int
                } else {
                    models(rows@).last().id->Some_0 + 1
                })
            },
            r matches Err(e) ==> !rows_well_formed(models(rows@)) && e is StorageError,
    {
        let ghost m = models(rows@);
        let n = rows.len();
        let mut last_id: i64 = 0;
        let mut i: usize = 0;
        while i < n
            invariant
                n == rows.len(),
                m == models(rows@),
                i <= n,
                0 <= last_id < i64::MAX,
                forall|j: int|
                    0 <= j < i ==> (#[trigger] m[j]).id is Some && 0 < m[j].id->Some_0 < i64::MAX,
                forall|j: int, k: int|
                    #![trigger m[j], m[k]]
                    0 <= j < k < i ==> m[j].id->Some_0 < m[k].id->Some_0,
                i > 0 ==> m[i - 1].id->Some_0 == last_id as int,
                i == 0 ==> last_id == 0,
            decreases n - i,
        {
            match rows[i].id {
                Some(v) => {
                    if v <= last_id {
                        proof {
                            if i == 0 {
                                assert(m[0].id->Some_0 <= 0);
                            } else {
                                assert(!ids_strictly_increasing(m)) by {
                                    assert(m[i - 1].id->Some_0 >= m[i as int].id->Some_0);
                                }
                            }
                        }
                        return Err(StoreError::StorageError);
                    }
                    if v == i64::MAX {
                        return Err(StoreError::StorageError);
                    }
                    last_id = v;
                },
                None => {
                    return Err(StoreError::StorageError);
                },
            }
            i += 1;
        }
        let t = ProblemTracker { problems: rows, next_id: last_id + 1 };
        proof {
            assert(t.wf()) by {
                assert forall|j: int| 0 <= j < m.len() implies (#[trigger] m[j]).id is Some && 0
                    < m[j].id->Some_0 < last_id + 1 by {
                    if j < m.len() - 1 {
                        assert(m[j].id->Some_0 < m[m.len() - 1].id->Some_0);
                    }
                }
            }
        }
        Ok(t)
    }

    /// The id the next insertion will receive.
    pub fn next_id(&self) -> (r: i64)
        ensures
            r as int == self@.next_id,
    {
        self.next_id
    }

    /// Inserts a new record: it receives the next id — a positive id no
    /// present record carries — and goes to the end, keeping the sequence
    /// sorted. Rejects an empty description and leaves the store
    /// unchanged in that case.
    pub fn add_problem(&mut self, problem: Problem) -> (r: Result<i64, StoreError>)
        requires
            old(self).wf(),
            old(self)@.next_id < i64::MAX,
        ensures
            final(self).wf(),
            r is Ok <==> problem@.description.len() > 0,
            r matches Ok(id) ==> {
                &&& id as int == old(self)@.next_id
                &&& 0 < id
                &&& forall|j: int|
                    0 <= j < old(self)@.problems.len() ==> (#[trigger] old(
                        self,
                    )@.problems[j]).id != Some(id as int)
                &&& final(self)@.problems == old(self)@.problems.push(with_id(problem@, id as int))
                &&& final(self)@.next_id == old(self)@.next_id + 1
            },
            r matches Err(e) ==> *final(self) == *old(self) && e is StorageError,
    {
        if problem.description.as_str().is_empty() {
            return Err(StoreError::StorageError);
        }
        let ghost m = models(self.problems@);
        let id = self.next_id;
        let mut stored = problem;
        stored.id = Some(id);
        let ghost q = stored@;
        self.next_id = id + 1;
        self.problems.push(stored);
        proof {
            let m2 = m.push(q);
            assert(q =~= with_id(problem@, id as int));
            assert(models(self.problems@) =~= m2);
            assert forall|j: int| 0 <= j < m.len() implies (#[trigger] m[j]).id != Some(
                id as int,
            ) by {
                assert(m[j].id->Some_0 < id as int);
            }
            assert(wf_model(m2, id as int + 1)) by {
                assert forall|k: int| 0 <= k < m2.len() implies (#[trigger] m2[k]).id is Some && 0
                    < m2[k].id->Some_0 < id as int + 1 by {
                    if k < m.len() {
                        assert(m2[k] == m[k]);
                    } else {
                        assert(m2[k] == q);
                    }
                }
                assert forall|k: int, l: int|
                    #![trigger m2[k], m2[l]]
                    0 <= k < l < m2.len() implies m2[k].id->Some_0 < m2[l].id->Some_0 by {
                    assert(m2[k] == m[k]);
                    if l < m.len() {
                        assert(m2[l] == m[l]);
                    } else {
                        assert(m2[l] == q);
                        assert(m[k].id->Some_0 < id as int);
                    }
                }
            }
        }
        Ok(id)
    }

    /// The record carrying the given id, or `NotFound`.
    pub fn get_problem(&self, id: i64) -> (r: Result<Problem, StoreError>)
        ensures
            r matches Ok(p) ==> spec_find(self@.problems, id as int) == Some(p@),
            r matches Err(e) ==> spec_find(self@.problems, id as int) is None && e is NotFound,
    {
        let ghost m = models(self.problems@);
        let n = self.problems.len();
        let mut i: usize = 0;
        proof {
            assert(m.skip(0) =~= m);
        }
        while i < n
            invariant
                n == self.problems.len(),
                m == models(self.problems@),
                i <= n,
                spec_find(m, id as int) == spec_find(m.skip(i as int), id as int),
            decreases n - i,
        {
            let found: bool = match self.problems[i].id {
                Some(pid) => pid == id,
                None => false,
            };
            proof {
                let tail = m.skip(i as int);
                assert(tail.len() == n - i);
                assert(tail[0] == m[i as int]);
            }
            if found {
                let p = self.problems[i].clone();
                proof {
                    assert(m[i as int].id == Some(id as int));
                    assert(spec_find(m.skip(i as int), id as int) == Some(m[i as int]));
                }
                return Ok(p);
            }
            proof {
                let tail = m.skip(i as int);
                assert(m[i as int].id != Some(id as int));
                assert(tail.drop_first() =~= m.skip(i as int + 1));
                assert(spec_find(tail, id as int) == spec_find(m.skip(i as int + 1), id as int));
            }
            i += 1;
        }
        proof {
            assert(m.skip(n as int) =~= Seq::<ProblemModel>::empty());
            assert(spec_find(m, id as int) is None);
        }
        Err(StoreError::NotFound)
    }

    /// All records, in ascending id order.
    pub fn get_all_problems(&self) -> (r: Result<Vec<Problem>, StoreError>)
        ensures
            r is Ok,
            r matches Ok(v) ==> models(v@) == self@.problems,
    {
        let ghost m = models(self.problems@);
        let mut out: Vec<Problem> = Vec::new();
        let n = self.problems.len();
        let mut i: usize = 0;
        proof {
            assert(models(out@) =~= m.subrange(0, 0));
        }
        while i < n
            invariant
                n == self.problems.len(),
                m == models(self.problems@),
                i <= n,
                models(out@) == m.subrange(0, i as int),
            decreases n - i,
        {
            let ghost prev = models(out@);
            out.push(self.problems[i].clone());
            proof {
                assert(models(out@) =~= prev.push(m[i as int]));
                assert(m.subrange(0, i + 1 as int) =~= m.subrange(0, i as int).push(m[i as int]));
                assert(models(out@) =~= m.subrange(0, i + 1 as int));
            }
            i += 1;
        }
        proof {
            assert(m.subrange(0, n as int) =~= m);
        }
        Ok(out)
    }

    /// All records flagged for review, in ascending id order.
    pub fn get_problems_to_review(&self) -> (r: Result<Vec<Problem>, StoreError>)
        ensures
            r is Ok,
            r matches Ok(v) ==> models(v@) == self@.problems.filter(review_pred()),
    {
        let ghost m = models(self.problems@);
        let ghost pred = review_pred();
        let mut out: Vec<Problem> = Vec::new();
        let n = self.problems.len();
        let mut i: usize = 0;
        proof {
            reveal(Seq::filter);
            assert(m.subrange(0, 0) =~= Seq::<ProblemModel>::empty());
            assert(models(out@) =~= m.subrange(0, 0).filter(pred));
        }
        while i < n
            invariant
                n == self.problems.len(),
                m == models(self.problems@),
                pred == review_pred(),
                i <= n,
                models(out@) == m.subrange(0, i as int).filter(pred),
            decreases n - i,
        {
            let keep = self.problems[i].should_solve_again;
            let ghost prev = models(out@);
            if keep {
                out.push(self.problems[i].clone());
                proof {
                    assert(models(out@) =~= prev.push(m[i as int]));
                }
            }
            proof {
                assert(pred(m[i as int]) == keep);
                lemma_filter_push(m.subrange(0, i as int), m[i as int], pred);
                assert(m.subrange(0, i + 1 as int) =~= m.subrange(0, i as int).push(m[i as int]));
                assert(models(out@) == m.subrange(0, i + 1 as int).filter(pred));
            }
            i += 1;
        }
        proof {
            assert(m.subrange(0, n as int) =~= m);
        }
        Ok(out)
    }

    /// Records whose category equals the given label exactly
    /// (case-sensitive), in ascending id order.
    pub fn get_problems_by_category(&self, category: &str) -> (r: Result<Vec<Problem>, StoreError>)
        ensures
            r is Ok,
            r matches Ok(v) ==> models(v@) == self@.problems.filter(category_pred(category@)),
    {
        let wanted = String::from_str(category);
        let ghost m = models(self.problems@);
        let ghost pred = category_pred(category@);
        let mut out: Vec<Problem> = Vec::new();
        let n = self.problems.len();
        let mut i: usize = 0;
        proof {
            reveal(Seq::filter);
            assert(m.subrange(0, 0) =~= Seq::<ProblemModel>::empty());
            assert(models(out@) =~= m.subrange(0, 0).filter(pred));
        }
        while i < n
            invariant
                n == self.problems.len(),
                m == models(self.problems@),
                pred == category_pred(category@),
                wanted@ == category@,
                i <= n,
                models(out@) == m.subrange(0, i as int).filter(pred),
            decreases n - i,
        {
            let keep: bool = match &self.problems[i].category {
                Some(c) => *c == wanted,
                None => false,
            };
            let ghost prev = models(out@);
            if keep {
                out.push(self.problems[i].clone());
                proof {
                    assert(models(out@) =~= prev.push(m[i as int]));
                }
            }
            proof {
                assert(pred(m[i as int]) == keep);
                lemma_filter_push(m.subrange(0, i as int), m[i as int], pred);
                assert(m.subrange(0, i + 1 as int) =~= m.subrange(0, i as int).push(m[i as int]));
                assert(models(out@) == m.subrange(0, i + 1 as int).filter(pred));
            }
            i += 1;
        }
        proof {
            assert(m.subrange(0, n as int) =~= m);
        }
        Ok(out)
    }

    /// Records whose pattern equals the given label exactly
    /// (case-sensitive), in ascending id order.
    pub fn get_problems_by_pattern(&self, pattern: &str) -> (r: Result<Vec<Problem>, StoreError>)
        ensures
            r is Ok,
            r matches Ok(v) ==> models(v@) == self@.problems.filter(pattern_pred(pattern@)),
    {
        let wanted = String::from_str(pattern);
        let ghost m = models(self.problems@);
        let ghost pred = pattern_pred(pattern@);
        let mut out: Vec<Problem> = Vec::new();
        let n = self.problems.len();
        let mut i: usize = 0;
        proof {
            reveal(Seq::filter);
            assert(m.subrange(0, 0) =~= Seq::<ProblemModel>::empty());
            assert(models(out@) =~= m.subrange(0, 0).filter(pred));
        }
        while i < n
            invariant
                n == self.problems.len(),
                m == models(self.problems@),
                pred == pattern_pred(pattern@),
                wanted@ == pattern@,
                i <= n,
                models(out@) == m.subrange(0, i as int).filter(pred),
            decreases n - i,
        {
            let keep: bool = match &self.problems[i].pattern {
                Some(c) => *c == wanted,
                None => false,
            };
            let ghost prev = models(out@);
            if keep {
                out.push(self.problems[i].clone());
                proof {
                    assert(models(out@) =~= prev.push(m[i as int]));
                }
            }
            proof {
                assert(pred(m[i as int]) == keep);
                lemma_filter_push(m.subrange(0, i as int), m[i as int], pred);
                assert(m.subrange(0, i + 1 as int) =~= m.subrange(0, i as int).push(m[i as int]));
                assert(models(out@) == m.subrange(0, i + 1 as int).filter(pred));
            }
            i += 1;
        }
        proof {
            assert(m.subrange(0, n as int) =~= m);
        }
        Ok(out)
    }

    /// Records whose difficulty equals the given label exactly
    /// (case-sensitive), in ascending id order.
    pub fn get_problems_by_difficulty(&self, difficulty: &str) -> (r: Result<
        Vec<Problem>,
        StoreError,
    >)
        ensures
            r is Ok,
            r matches Ok(v) ==> models(v@) == self@.problems.filter(difficulty_pred(difficulty@)),
    {
        let wanted = String::from_str(difficulty);
        let ghost m = models(self.problems@);
        let ghost pred = difficulty_pred(difficulty@);
        let mut out: Vec<Problem> = Vec::new();
        let n = self.problems.len();
        let mut i: usize = 0;
        proof {
            reveal(Seq::filter);
            assert(m.subrange(0, 0) =~= Seq::<ProblemModel>::empty());
            assert(models(out@) =~= m.subrange(0, 0).filter(pred));
        }
        while i < n
            invariant
                n == self.problems.len(),
                m == models(self.problems@),
                pred == difficulty_pred(difficulty@),
                wanted@ == difficulty@,
                i <= n,
                models(out@) == m.subrange(0, i as int).filter(pred),
            decreases n - i,
        {
            let keep: bool = match &self.problems[i].difficulty {
                Some(c) => *c == wanted,
                None => false,
            };
            let ghost prev = models(out@);
            if keep {
                out.push(self.problems[i].clone());
                proof {
                    assert(models(out@) =~= prev.push(m[i as int]));
                }
            }
            proof {
                assert(pred(m[i as int]) == keep);
                lemma_filter_push(m.subrange(0, i as int), m[i as int], pred);
                assert(m.subrange(0, i + 1 as int) =~= m.subrange(0, i as int).push(m[i as int]));
                assert(models(out@) == m.subrange(0, i + 1 as int).filter(pred));
            }
            i += 1;
        }
        proof {
            assert(m.subrange(0, n as int) =~= m);
        }
        Ok(out)
    }

    /// Records matching the keyword — a case-sensitive substring of the
    /// description, category, pattern or comments — in ascending id
    /// order.
    pub fn search_problems(&self, keyword: &str) -> (r: Result<Vec<Problem>, StoreError>)
        ensures
            r is Ok,
            r matches Ok(v) ==> models(v@) == self@.problems.filter(search_pred(keyword@)),
    {
        let ghost m = models(self.problems@);
        let ghost pred = search_pred(keyword@);
        let mut out: Vec<Problem> = Vec::new();
        let n = self.problems.len();
        let mut i: usize = 0;
        proof {
            reveal(Seq::filter);
            assert(m.subrange(0, 0) =~= Seq::<ProblemModel>::empty());
            assert(models(out@) =~= m.subrange(0, 0).filter(pred));
        }
        while i < n
            invariant
                n == self.problems.len(),
                m == models(self.problems@),
                pred == search_pred(keyword@),
                i <= n,
                models(out@) == m.subrange(0, i as int).filter(pred),
            decreases n - i,
        {
            let mut keep = contains_substring(self.problems[i].description.as_str(), keyword);
            if !keep {
                keep = match &self.problems[i].category {
                    Some(c) => contains_substring(c.as_str(), keyword),
                    None => false,
                };
            }
            if !keep {
                keep = match &self.problems[i].pattern {
                    Some(c) => contains_substring(c.as_str(), keyword),
                    None => false,
                };
            }
            if !keep {
                keep = match &self.problems[i].comments {
                    Some(c) => contains_substring(c.as_str(), keyword),
                    None => false,
                };
            }
            let ghost prev = models(out@);
            if keep {
                out.push(self.problems[i].clone());
                proof {
                    assert(models(out@) =~= prev.push(m[i as int]));
                }
            }
            proof {
                assert(pred(m[i as int]) == keep);
                lemma_filter_push(m.subrange(0, i as int), m[i as int], pred);
                assert(m.subrange(0, i + 1 as int) =~= m.subrange(0, i as int).push(m[i as int]));
                assert(models(out@) == m.subrange(0, i + 1 as int).filter(pred));
            }
            i += 1;
        }
        proof {
            assert(m.subrange(0, n as int) =~= m);
        }
        Ok(out)
    }

    /// Sets the attempt slot addressed by ordinal 1, 2 or 3 of the record
    /// carrying the given id, leaving the other two slots and every other
    /// record unchanged; a no-op when no record carries the id. An
    /// ordinal outside {1, 2, 3} is rejected and mutates nothing.
    pub fn update_solve_time(&mut self, id: i64, attempt: usize, minutes: i64) -> (r: Result<
        (),
        StoreError,
    >)
        requires
            old(self).wf(),
        ensures
            final(self).wf(),
            r is Ok <==> 1 <= attempt <= 3,
            r is Ok ==> final(self)@.problems == spec_set_all(
                old(self)@.problems,
                id as int,
                attempt as int,
                minutes as int,
            ) && final(self)@.next_id == old(self)@.next_id,
            r matches Err(e) ==> *final(self) == *old(self) && e is InvalidArgument,
    {
        if attempt < 1 || attempt > 3 {
            return Err(StoreError::InvalidArgument);
        }
        let ghost m0 = models(self.problems@);
        let ghost f = set_time_fn(id as int, attempt as int, minutes as int);
        let n = self.problems.len();
        let mut i: usize = 0;
        while i < n
            invariant
                1 <= attempt <= 3,
                n == self.problems.len(),
                m0 == models(old(self).problems@),
                m0.len() == n,
                old(self).problems@.len() == n,
                f == set_time_fn(id as int, attempt as int, minutes as int),
                self.next_id == old(self).next_id,
                i <= n,
                forall|j: int| 0 <= j < i ==> models(self.problems@)[j] == f(m0[j]),
                forall|j: int| i <= j < n ==> self.problems@[j] == old(self).problems@[j],
            decreases n - i,
        {
            let matches_id: bool = match self.problems[i].id {
                Some(pid) => pid == id,
                None => false,
            };
            let ghost before = self.problems@;
            if matches_id {
                if attempt == 1 {
                    self.problems[i].time_to_solve_1st = Some(minutes);
                } else if attempt == 2 {
                    self.problems[i].time_to_solve_2nd = Some(minutes);
                } else {
                    self.problems[i].time_to_solve_3rd = Some(minutes);
                }
            }
            proof {
                assert(before[i as int]@ == m0[i as int]);
                if matches_id {
                    assert(m0[i as int].id == Some(id as int));
                    assert(f(m0[i as int]) == set_slot(
                        m0[i as int],
                        attempt as int,
                        minutes as int,
                    ));
                    assert(self.problems@ == before.update(i as int, self.problems@[i as int]));
                    assert(self.problems@[i as int]@ =~= set_slot(
                        m0[i as int],
                        attempt as int,
                        minutes as int,
                    ));
                } else {
                    assert(m0[i as int].id != Some(id as int));
                    assert(f(m0[i as int]) == m0[i as int]);
                }
                assert(models(self.problems@)[i as int] == self.problems@[i as int]@);
                assert(models(self.problems@)[i as int] == f(m0[i as int]));
                assert forall|j: int| i + 1 <= j < n implies self.problems@[j] == old(
                    self,
                ).problems@[j] by {
                    assert(self.problems@[j] == before[j]);
                }
                assert forall|j: int| 0 <= j < i + 1 implies models(self.problems@)[j] == f(
                    m0[j],
                ) by {
                    if j < i {
                        assert(self.problems@[j] == before[j]);
                        assert(models(before)[j] == f(m0[j]));
                        assert(models(self.problems@)[j] == self.problems@[j]@);
                    }
                }
            }
            i += 1;
        }
        proof {
            let m1 = models(self.problems@);
            assert(m1 =~= spec_set_all(m0, id as int, attempt as int, minutes as int));
            assert forall|j: int| 0 <= j < m0.len() implies (#[trigger] m1[j]).id == m0[j].id by {
                assert(m1[j] == f(m0[j]));
            }
            lemma_wf_same_ids(m0, m1, old(self)@.next_id);
        }
        Ok(())
    }

    /// Flips the review flag of the record carrying the given id, leaving
    /// every other field and record unchanged; a no-op when no record
    /// carries it.
    pub fn toggle_review_flag(&mut self, id: i64) -> (r: Result<(), StoreError>)
        requires
            old(self).wf(),
        ensures
            final(self).wf(),
            r is Ok,
            final(self)@.problems == spec_toggle_all(old(self)@.problems, id as int),
            final(self)@.next_id == old(self)@.next_id,
    {
        let ghost m0 = models(self.problems@);
        let ghost f = toggle_fn(id as int);
        let n = self.problems.len();
        let mut i: usize = 0;
        while i < n
            invariant
                n == self.problems.len(),
                m0 == models(old(self).problems@),
                m0.len() == n,
                old(self).problems@.len() == n,
                f == toggle_fn(id as int),
                self.next_id == old(self).next_id,
                i <= n,
                forall|j: int| 0 <= j < i ==> models(self.problems@)[j] == f(m0[j]),
                forall|j: int| i <= j < n ==> self.problems@[j] == old(self).problems@[j],
            decreases n - i,
        {
            let matches_id: bool = match self.problems[i].id {
                Some(pid) => pid == id,
                None => false,
            };
            let ghost before = self.problems@;
            if matches_id {
                let cur = self.problems[i].should_solve_again;
                self.problems[i].should_solve_again = !cur;
            }
            proof {
                assert(before[i as int]@ == m0[i as int]);
                if matches_id {
                    assert(m0[i as int].id == Some(id as int));
                    assert(f(m0[i as int]) == flip_review(m0[i as int]));
                    assert(self.problems@ == before.update(i as int, self.problems@[i as int]));
                    assert(self.problems@[i as int]@ =~= flip_review(m0[i as int]));
                } else {
                    assert(m0[i as int].id != Some(id as int));
                    assert(f(m0[i as int]) == m0[i as int]);
                }
                assert(models(self.problems@)[i as int] == self.problems@[i as int]@);
                assert(models(self.problems@)[i as int] == f(m0[i as int]));
                assert forall|j: int| i + 1 <= j < n implies self.problems@[j] == old(
                    self,
                ).problems@[j] by {
                    assert(self.problems@[j] == before[j]);
                }
                assert forall|j: int| 0 <= j < i + 1 implies models(self.problems@)[j] == f(
                    m0[j],
                ) by {
                    if j < i {
                        assert(self.problems@[j] == before[j]);
                        assert(models(before)[j] == f(m0[j]));
                        assert(models(self.problems@)[j] == self.problems@[j]@);
                    }
                }
            }
            i += 1;
        }
        proof {
            let m1 = models(self.problems@);
            assert(m1 =~= spec_toggle_all(m0, id as int));
            assert forall|j: int| 0 <= j < m0.len() implies (#[trigger] m1[j]).id == m0[j].id by {
                assert(m1[j] == f(m0[j]));
            }
            lemma_wf_same_ids(m0, m1, old(self)@.next_id);
        }
        Ok(())
    }

    /// Removes the record carrying the given id permanently; a no-op
    /// when no record carries it. The next id to assign stays unchanged,
    /// so a deleted id is never reused.
    pub fn delete_problem(&mut self, id: i64) -> (r: Result<(), StoreError>)
        requires
            old(self).wf(),
        ensures
            final(self).wf(),
            r is Ok,
            final(self)@.problems == old(self)@.problems.filter(not_id_pred(id as int)),
            final(self)@.next_id == old(self)@.next_id,
    {
        let ghost m = models(self.problems@);
        let ghost pred = not_id_pred(id as int);
        let mut out: Vec<Problem> = Vec::new();
        let n = self.problems.len();
        let mut i: usize = 0;
        proof {
            reveal(Seq::filter);
            assert(m.subrange(0, 0) =~= Seq::<ProblemModel>::empty());
            assert(models(out@) =~= m.subrange(0, 0).filter(pred));
        }
        while i < n
            invariant
                n == self.problems.len(),
                m == models(old(self).problems@),
                self.problems@ == old(self).problems@,
                self.next_id == old(self).next_id,
                pred == not_id_pred(id as int),
                i <= n,
                models(out@) == m.subrange(0, i as int).filter(pred),
            decreases n - i,
        {
            let matches_id: bool = match self.problems[i].id {
                Some(pid) => pid == id,
                None => false,
            };
            let ghost prev = models(out@);
            if !matches_id {
                out.push(self.problems[i].clone());
                proof {
                    assert(models(out@) =~= prev.push(m[i as int]));
                }
            }
            proof {
                assert(pred(m[i as int]) == !matches_id);
                lemma_filter_push(m.subrange(0, i as int), m[i as int], pred);
                assert(m.subrange(0, i + 1 as int) =~= m.subrange(0, i as int).push(m[i as int]));
                assert(models(out@) == m.subrange(0, i + 1 as int).filter(pred));
            }
            i += 1;
        }
        self.problems = out;
        proof {
            assert(m.subrange(0, n as int) =~= m);
            lemma_filter_keeps_wf(m, old(self)@.next_id, pred);
        }
        Ok(())
    }
}

/// Adding a record with a non-empty description and then looking its id
/// up returns the same record with only the id changed; the assigned id
/// is positive and was not carried by any record present before.
pub proof fn lemma_add_then_get(s: Seq<ProblemModel>, next_id: int, p: ProblemModel)
    requires
        wf_model(s, next_id),
        p.description.len() > 0,
    ensures
        ({
            let q = with_id(p, next_id);
            let t = s.push(q);
            &&& spec_find(t, next_id) == Some(q)
            &&& q.id == Some(next_id)
            &&& 0 < next_id
            &&& q.description == p.description
            &&& q.link == p.link
            &&& q.category == p.category
            &&& q.pattern == p.pattern
            &&& q.difficulty == p.difficulty
            &&& q.time_to_solve_1st == p.time_to_solve_1st
            &&& q.time_to_solve_2nd == p.time_to_solve_2nd
            &&& q.time_to_solve_3rd == p.time_to_solve_3rd
            &&& q.comments == p.comments
            &&& q.should_solve_again == p.should_solve_again
            &&& forall|j: int| 0 <= j < s.len() ==> (#[trigger] s[j]).id != Some(next_id)
        }),
{
    let q = with_id(p, next_id);
    assert forall|j: int| 0 <= j < s.len() implies (#[trigger] s[j]).id != Some(next_id) by {
        assert(s[j].id->Some_0 < next_id);
    }
    lemma_find_push_fresh(s, q, next_id);
}

/// After a delete, a lookup of the deleted id finds nothing.
pub proof fn lemma_delete_then_get(s: Seq<ProblemModel>, id: int)
    ensures
        spec_find(s.filter(not_id_pred(id)), id) is None,
{
    broadcast use group_filter_ensures;

    let pred = not_id_pred(id);
    let f = s.filter(pred);
    lemma_find_none_iff(f, id);
    assert forall|j: int| 0 <= j < f.len() implies (#[trigger] f[j]).id != Some(id) by {
        assert(pred(f[j]));
    }
}

/// Toggling the review flag of one id twice restores every record.
pub proof fn lemma_toggle_twice_restores(s: Seq<ProblemModel>, id: int)
    ensures
        spec_toggle_all(spec_toggle_all(s, id), id) == s,
{
    let f = toggle_fn(id);
    let t1 = spec_toggle_all(s, id);
    let t2 = spec_toggle_all(t1, id);
    assert forall|j: int| 0 <= j < s.len() implies t2[j] == s[j] by {
        assert(t1[j] == f(s[j]));
        assert(t2[j] == f(t1[j]));
        if s[j].id == Some(id) {
            assert(t1[j] == flip_review(s[j]));
            assert(t1[j].id == s[j].id);
            assert(t2[j] == flip_review(flip_review(s[j])));
            assert(flip_review(flip_review(s[j])) =~= s[j]);
        }
    }
    assert(t2 =~= s);
}

/// A solve-time update with a valid ordinal sets exactly the addressed
/// slot of the record carrying the id and leaves the record's other two
/// slots, all its other fields, and every other record unchanged.
pub proof fn lemma_update_sets_exactly_one_slot(
    s: Seq<ProblemModel>,
    id: int,
    attempt: int,
    minutes: int,
    j: int,
)
    requires
        1 <= attempt <= 3,
        0 <= j < s.len(),
    ensures
        ({
            let t = spec_set_all(s, id, attempt, minutes);
            &&& t.len() == s.len()
            &&& (s[j].id != Some(id) ==> t[j] == s[j])
            &&& (s[j].id == Some(id) ==> {
                &&& spec_slot(t[j], attempt) == Some(minutes)
                &&& forall|a: int|
                    1 <= a <= 3 && a != attempt ==> spec_slot(t[j], a) == spec_slot(s[j], a)
                &&& t[j].id == s[j].id
                &&& t[j].description == s[j].description
                &&& t[j].link == s[j].link
                &&& t[j].category == s[j].category
                &&& t[j].pattern == s[j].pattern
                &&& t[j].difficulty == s[j].difficulty
                &&& t[j].comments == s[j].comments
                &&& t[j].should_solve_again == s[j].should_solve_again
            })
        }),
{
    let f = set_time_fn(id, attempt, minutes);
    let t = spec_set_all(s, id, attempt, minutes);
    assert(t[j] == f(s[j]));
}

/// A search returns exactly the records matching the keyword, in
/// ascending id order: every returned record matches and is stored,
/// every stored record that matches is returned, and ids ascend along
/// the result.
pub proof fn lemma_search_exact(s: Seq<ProblemModel>, next_id: int, kw: Seq<char>)
    requires
        wf_model(s, next_id),
    ensures
        ({
            let r = s.filter(search_pred(kw));
            &&& forall|i: int|
                0 <= i < r.len() ==> matches_keyword(#[trigger] r[i], kw) && s.contains(r[i])
            &&& forall|j: int|
                0 <= j < s.len() && matches_keyword(#[trigger] s[j], kw) ==> r.contains(s[j])
            &&& ids_strictly_increasing(r)
        }),
{
    broadcast use group_filter_ensures, Seq::lemma_filter_contains_rev, Seq::lemma_index_contains;

    let pred = search_pred(kw);
    let r = s.filter(pred);
    lemma_filter_keeps_wf(s, next_id, pred);
    assert forall|i: int| 0 <= i < r.len() implies matches_keyword(#[trigger] r[i], kw)
        && s.contains(r[i]) by {
        assert(pred(r[i]));
        assert(r.contains(r[i]));
    }
    assert forall|j: int|
        0 <= j < s.len() && matches_keyword(#[trigger] s[j], kw) implies r.contains(s[j]) by {
        assert(pred(s[j]));
    }
}

} // verus!
