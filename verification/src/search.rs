//! The similarity query engine: from the keyword distances that the store
//! computed for each student to the ranked list of matches.
//!
//! A distance is held as an unsigned integer that grows with it: the smaller
//! the number, the closer the keyword is to the query.

use vstd::prelude::*;

use crate::rank::{key_le, lemma_sort_by, rank_of, sort_by, sort_ranked, sorted_by, views, Ranked};

verus! {

/// One keyword of a matching student and its distance to the query.
#[derive(Debug, Clone, PartialEq, Eq)]
pub struct HitKeyword {
    pub keyword_id: i32,
    pub keyword_text: String,
    pub distance: u64,
}

/// A keyword hit as contracts see it.
pub struct HitKeywordView {
    pub keyword_id: int,
    pub keyword_text: Seq<char>,
    pub distance: nat,
}

impl View for HitKeyword {
    type V = HitKeywordView;

    open spec fn view(&self) -> HitKeywordView {
        HitKeywordView {
            keyword_id: self.keyword_id as int,
            keyword_text: self.keyword_text@,
            distance: self.distance as nat,
        }
    }
}

impl Ranked for HitKeyword {
    /// Keywords are ranked by distance, and by id among equal distances.
    open spec fn rank(v: HitKeywordView) -> (int, int) {
        (v.distance as int, v.keyword_id)
    }

    fn ranks_before(&self, other: &Self) -> (before: bool) {
        self.distance < other.distance || (self.distance == other.distance && self.keyword_id
            <= other.keyword_id)
    }
}

/// One student of a search result, with the keywords that justify the match.
#[derive(Debug, Clone, PartialEq, Eq)]
pub struct StudentListOutput {
    pub student_id: i32,
    pub student_name: String,
    pub keywords: Vec<HitKeyword>,
}

/// A student of a search result as contracts see it.
pub struct StudentView {
    pub student_id: int,
    pub student_name: Seq<char>,
    pub keywords: Seq<HitKeywordView>,
}

impl View for StudentListOutput {
    type V = StudentView;

    open spec fn view(&self) -> StudentView {
        StudentView {
            student_id: self.student_id as int,
            student_name: self.student_name@,
            keywords: views(self.keywords@),
        }
    }
}

/// The smallest distance among the keywords; 0 where there is none.
pub open spec fn best_distance(keywords: Seq<HitKeywordView>) -> int
    decreases keywords.len(),
{
    if keywords.len() == 0 {
        0
    } else if keywords.len() == 1 {
        keywords[0].distance as int
    } else {
        let before = best_distance(keywords.drop_last());
        if keywords.last().distance < before {
            keywords.last().distance as int
        } else {
            before
        }
    }
}

/// The best distance is the distance of one of the keywords, and none has a
/// smaller one.
pub proof fn lemma_best_distance(keywords: Seq<HitKeywordView>)
    requires
        keywords.len() > 0,
    ensures
        forall|i: int|
            0 <= i < keywords.len() ==> best_distance(keywords) <= (#[trigger] keywords[i]).distance,
        exists|i: int|
            0 <= i < keywords.len() && best_distance(keywords) == (#[trigger] keywords[i]).distance,
    decreases keywords.len(),
{
    if keywords.len() == 1 {
        assert(best_distance(keywords) == keywords[0].distance);
    } else {
        let front = keywords.drop_last();
        lemma_best_distance(front);
        let w = choose|i: int|
            0 <= i < front.len() && best_distance(front) == (#[trigger] front[i]).distance;
        assert(front[w] == keywords[w]);
        assert forall|i: int| 0 <= i < keywords.len() implies best_distance(keywords) <= (
        #[trigger] keywords[i]).distance by {
            if i < front.len() {
                assert(front[i] == keywords[i]);
            }
        }
        if keywords.last().distance < best_distance(front) {
            assert(best_distance(keywords) == keywords[keywords.len() - 1].distance);
        } else {
            assert(best_distance(keywords) == keywords[w].distance);
        }
    }
}

impl Ranked for StudentListOutput {
    /// Students are ranked by the best distance among their keywords, and by
    /// id among equal best distances.
    open spec fn rank(v: StudentView) -> (int, int) {
        (best_distance(v.keywords), v.student_id)
    }

    fn ranks_before(&self, other: &Self) -> (before: bool) {
        let mine: u64 = match self.best_distance() {
            Some(distance) => distance,
            None => 0,
        };
        let theirs: u64 = match other.best_distance() {
            Some(distance) => distance,
            None => 0,
        };
        mine < theirs || (mine == theirs && self.student_id <= other.student_id)
    }
}

/// The student has a keyword, and its keywords are in the order of their
/// ranks.
pub open spec fn presentable(student: StudentView) -> bool {
    student.keywords.len() > 0 && sorted_by(student.keywords, rank_of::<HitKeyword>())
}

impl StudentListOutput {
    /// The smallest distance among the student's keywords, if it has any.
    pub fn best_distance(&self) -> (best: Option<u64>)
        ensures
            best is None <==> self@.keywords.len() == 0,
            best matches Some(d) ==> d == best_distance(self@.keywords),
    {
        if self.keywords.len() == 0 {
            return None;
        }
        let mut best: u64 = self.keywords[0].distance;
        let mut i: usize = 1;
        assert(self@.keywords.take(1) =~= seq![self@.keywords[0]]);
        while i < self.keywords.len()
            invariant
                1 <= i <= self.keywords.len(),
                best == best_distance(self@.keywords.take(i as int)),
            decreases self.keywords.len() - i,
        {
            assert(self@.keywords.take(i + 1).drop_last() =~= self@.keywords.take(i as int));
            if self.keywords[i].distance < best {
                best = self.keywords[i].distance;
            }
            i = i + 1;
        }
        assert(self@.keywords.take(i as int) =~= self@.keywords);
        Some(best)
    }

    /// The student with its keywords sorted by distance, and by id among
    /// equal distances.
    pub fn with_sorted_keywords(self) -> (sorted: StudentListOutput)
        ensures
            sorted@ == (StudentView {
                keywords: sort_by(self@.keywords, rank_of::<HitKeyword>()),
                ..self@
            }),
            sorted_by(sorted@.keywords, rank_of::<HitKeyword>()),
            sorted.keywords@.to_multiset() == self.keywords@.to_multiset(),
    {
        let StudentListOutput { student_id, student_name, keywords } = self;
        let keywords = sort_ranked(keywords);
        StudentListOutput { student_id, student_name, keywords }
    }
}

/// What a candidate contributes to a ranking: nothing if it has no keyword,
/// else itself with its keywords sorted.
pub open spec fn prepared() -> spec_fn(StudentView) -> Option<StudentView> {
    |s: StudentView|
        if s.keywords.len() > 0 {
            Some(StudentView { keywords: sort_by(s.keywords, rank_of::<HitKeyword>()), ..s })
        } else {
            None
        }
}

/// The candidates that have a keyword, each with its keywords sorted, in the
/// order of their ranks.
pub open spec fn ranked(candidates: Seq<StudentView>) -> Seq<StudentView> {
    sort_by(candidates.filter_map(prepared()), rank_of::<StudentListOutput>())
}

/// The first `top_k` of a list: none of it if `top_k` is not positive, all of
/// it if it is no longer than `top_k`.
pub open spec fn top(list: Seq<StudentView>, top_k: int) -> Seq<StudentView> {
    if top_k <= 0 {
        Seq::empty()
    } else if top_k < list.len() {
        list.take(top_k)
    } else {
        list
    }
}

/// The result of a search over `candidates`.
pub open spec fn ranking(candidates: Seq<StudentView>, top_k: int) -> Seq<StudentView> {
    top(ranked(candidates), top_k)
}

/// The matches of a search are in the order of their ranks, each has a
/// keyword, the keywords of each are in the order of their ranks, and there
/// are no more matches than asked for.
pub proof fn lemma_ranking_ordered(candidates: Seq<StudentView>, top_k: int)
    ensures
        sorted_by(ranking(candidates, top_k), rank_of::<StudentListOutput>()),
        forall|i: int|
            0 <= i < ranking(candidates, top_k).len() ==> presentable(
                #[trigger] ranking(candidates, top_k)[i],
            ),
        top_k <= 0 ==> ranking(candidates, top_k).len() == 0,
        top_k > 0 ==> ranking(candidates, top_k).len() <= top_k,
{
    let matches = ranking(candidates, top_k);
    lemma_sort_by(candidates.filter_map(prepared()), rank_of::<StudentListOutput>());
    assert forall|i: int| 0 <= i < matches.len() implies presentable(#[trigger] matches[i]) by {
        lemma_ranking_origin(candidates, top_k, i);
        let j = choose|j: int|
            0 <= j < candidates.len() && (#[trigger] candidates[j]).keywords.len() > 0
                && prepared()(candidates[j]) == Some(matches[i]);
        lemma_sort_by(candidates[j].keywords, rank_of::<HitKeyword>());
    }
}

/// Every match is one of the candidates that have a keyword, with its
/// keywords sorted: a student without keywords is never a match.
pub proof fn lemma_ranking_origin(candidates: Seq<StudentView>, top_k: int, i: int)
    requires
        0 <= i < ranking(candidates, top_k).len(),
    ensures
        exists|j: int|
            0 <= j < candidates.len() && (#[trigger] candidates[j]).keywords.len() > 0
                && prepared()(candidates[j]) == Some(ranking(candidates, top_k)[i]),
{
    let eligible = candidates.filter_map(prepared());
    let all = ranked(candidates);
    let found = ranking(candidates, top_k)[i];
    lemma_sort_by(eligible, rank_of::<StudentListOutput>());
    assert(all[i] == found);
    assert(all.contains(found));
    vstd::seq_lib::to_multiset_contains(all, found);
    vstd::seq_lib::to_multiset_contains(eligible, found);
    candidates.lemma_filter_map_contains(prepared(), found);
    let row = choose|row: StudentView|
        #[trigger] candidates.contains(row) && prepared()(row) == Some(found);
    let j = choose|j: int| 0 <= j < candidates.len() && candidates[j] == row;
    assert(candidates[j].keywords.len() > 0);
}

/// No candidate that was left out for want of room ranks before a match.
pub proof fn lemma_ranking_is_best(candidates: Seq<StudentView>, top_k: int, i: int, j: int)
    requires
        0 <= i < ranking(candidates, top_k).len() <= j < ranked(candidates).len(),
    ensures
        ranking(candidates, top_k)[i] == ranked(candidates)[i],
        key_le(
            StudentListOutput::rank(ranked(candidates)[i]),
            StudentListOutput::rank(ranked(candidates)[j]),
        ),
{
    lemma_sort_by(candidates.filter_map(prepared()), rank_of::<StudentListOutput>());
}

/// The vector of a query text in the provider's answer to the request for
/// it: the one vector of the answer, and nothing if the answer does not hold
/// exactly one.
pub fn query_vector<V>(vectors: Vec<V>) -> (vector: Option<V>)
    ensures
        vectors@.len() == 1 ==> vector == Some(vectors@[0]),
        vectors@.len() != 1 ==> vector is None,
{
    let mut vectors = vectors;
    if vectors.len() == 1 {
        vectors.pop()
    } else {
        None
    }
}

/// Ranks the candidates that the store returned and keeps the best `top_k`.
///
/// A candidate without keywords is left out. The keywords of each match are
/// sorted by distance, and by keyword id among equal distances; the matches
/// are sorted by their best distance, and by student id among equal best
/// distances.
pub fn search(candidates: Vec<StudentListOutput>, top_k: i64) -> (matches: Vec<StudentListOutput>)
    ensures
        views(matches@) == ranking(views(candidates@), top_k as int),
        top_k <= 0 ==> matches@.len() == 0,
        top_k > 0 ==> matches@.len() <= top_k,
        matches@.len() <= candidates@.len(),
        sorted_by(views(matches@), rank_of::<StudentListOutput>()),
        forall|i: int| 0 <= i < matches@.len() ==> presentable((#[trigger] matches@[i])@),
{
    let mut eligible: Vec<StudentListOutput> = Vec::new();
    let ghost all = candidates@;
    assert(views(all).take(0).filter_map(prepared()) =~= views(eligible@));
    for candidate in it: candidates
        invariant
            it.seq() == all,
            eligible@.len() <= it.index(),
            views(eligible@) == views(all).take(it.index() as int).filter_map(prepared()),
            forall|i: int| 0 <= i < eligible@.len() ==> presentable((#[trigger] eligible@[i])@),
    {
        let ghost n = it.index() as int;
        let ghost before = eligible@;
        proof {
            views(all).lemma_filter_map_take_succ(prepared(), n);
            assert(views(all)[n] == candidate@);
        }
        if candidate.keywords.len() > 0 {
            let prepared = candidate.with_sorted_keywords();
            proof {
                lemma_sort_by(candidate@.keywords, rank_of::<HitKeyword>());
            }
            eligible.push(prepared);
            assert(views(eligible@) =~= views(before) + seq![prepared@]);
        }
    }
    proof {
        assert(views(all).take(all.len() as int) =~= views(all));
    }
    let mut matches = sort_ranked(eligible);
    if top_k <= 0 {
        let none: Vec<StudentListOutput> = Vec::new();
        assert(views(none@) =~= Seq::<StudentView>::empty());
        return none;
    }
    let ghost full = matches@;
    if (top_k as u64) < (matches.len() as u64) {
        matches.truncate(top_k as usize);
        assert(views(matches@) =~= views(full).take(top_k as int));
    }
    assert forall|i: int| 0 <= i < matches@.len() implies presentable((#[trigger] matches@[i])@) by {
        assert(matches@[i] == full[i]);
        assert(full.to_multiset().count(full[i]) > 0) by {
            vstd::seq_lib::to_multiset_contains(full, full[i]);
            assert(full.contains(full[i]));
        }
        vstd::seq_lib::to_multiset_contains(eligible@, full[i]);
        let j = choose|j: int| 0 <= j < eligible@.len() && eligible@[j] == full[i];
        assert(presentable(eligible@[j]@));
    }
    matches
}

} // verus!
