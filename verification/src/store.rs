//! What a write does to the rows, and what a later selection then finds.
//!
//! An update goes to the row with its id. Ids are unique among the rows of a
//! kind; where they are, a row that was written is not selected again and
//! every other selected row still is.

use vstd::prelude::*;

use crate::model::{
    first_with, lemma_first_with, pending_views, EmbeddingUpdate, Keyword, Pending, Student,
    StudentKeyword,
};
use crate::select::{keyword_pending, pending_keywords, pending_students, student_pending};
use crate::batch::lemma_batch_count_zero;
use crate::sync::{
    embed_count, initial, is_run, lemma_run, lemma_run_stores, stored, Action, Event, SyncState,
};

verus! {

/// No two rows have the same id.
pub open spec fn unique_ids<A>(rows: Seq<A>, id_of: spec_fn(A) -> int) -> bool {
    forall|i: int, j: int| 0 <= i < j < rows.len() ==> id_of(rows[i]) != id_of(rows[j])
}

/// The id of a keyword.
pub open spec fn keyword_id<V>() -> spec_fn(Keyword<V>) -> int {
    |k: Keyword<V>| k.id as int
}

/// The id of a student.
pub open spec fn student_id<V>() -> spec_fn(Student<V>) -> int {
    |s: Student<V>| s.id as int
}

/// The keywords after one update: the first keyword with the update's id
/// has its vector, and nothing else has changed.
pub open spec fn keyword_written<V>(keywords: Seq<Keyword<V>>, update: EmbeddingUpdate<V>) -> Seq<
    Keyword<V>,
> {
    let at = first_with(keywords, keyword_id(), update.id as int);
    if at < keywords.len() {
        keywords.update(at, Keyword { embedding: Some(update.vector), ..keywords[at] })
    } else {
        keywords
    }
}

/// The students after one update: the first student with the update's id
/// has its vector, and nothing else has changed.
pub open spec fn student_written<V>(students: Seq<Student<V>>, update: EmbeddingUpdate<V>) -> Seq<
    Student<V>,
> {
    let at = first_with(students, student_id(), update.id as int);
    if at < students.len() {
        students.update(
            at,
            Student { keyword_list_embedding: Some(update.vector), ..students[at] },
        )
    } else {
        students
    }
}

/// The keywords after a run of updates, applied in order.
pub open spec fn keywords_written<V>(
    keywords: Seq<Keyword<V>>,
    updates: Seq<EmbeddingUpdate<V>>,
) -> Seq<Keyword<V>>
    decreases updates.len(),
{
    if updates.len() == 0 {
        keywords
    } else {
        keyword_written(keywords_written(keywords, updates.drop_last()), updates.last())
    }
}

/// The students after a run of updates, applied in order.
pub open spec fn students_written<V>(
    students: Seq<Student<V>>,
    updates: Seq<EmbeddingUpdate<V>>,
) -> Seq<Student<V>>
    decreases updates.len(),
{
    if updates.len() == 0 {
        students
    } else {
        student_written(students_written(students, updates.drop_last()), updates.last())
    }
}

/// Writes the vector of an update to the keyword with its id. Returns
/// whether there is such a keyword.
pub fn write_keyword_embedding<V>(
    keywords: &mut Vec<Keyword<V>>,
    update: EmbeddingUpdate<V>,
) -> (written: bool)
    ensures
        final(keywords)@ == keyword_written(old(keywords)@, update),
        written == (first_with(old(keywords)@, keyword_id(), update.id as int) < old(
            keywords,
        )@.len()),
{
    let mut at: usize = 0;
    while at < keywords.len() && keywords[at].id != update.id
        invariant
            at <= keywords.len(),
            keywords@ == old(keywords)@,
            forall|i: int| 0 <= i < at ==> keyword_id::<V>()(#[trigger] keywords@[i]) != update.id,
        decreases keywords.len() - at,
    {
        at = at + 1;
    }
    proof {
        lemma_first_with(keywords@, keyword_id(), update.id as int);
        let found = first_with(keywords@, keyword_id(), update.id as int);
        if found < at {
            assert(keyword_id::<V>()(keywords@[found]) != update.id);
        }
        if at < found {
            assert(keyword_id::<V>()(keywords@[at as int]) != update.id);
        }
    }
    if at < keywords.len() {
        let row = keywords.remove(at);
        let Keyword { id, text, embedding: _ } = row;
        keywords.insert(at, Keyword { id, text, embedding: Some(update.vector) });
        assert(keywords@ =~= keyword_written(old(keywords)@, update));
        true
    } else {
        false
    }
}

/// Writes the vector of an update to the student with its id. Returns
/// whether there is such a student.
pub fn write_student_embedding<V>(
    students: &mut Vec<Student<V>>,
    update: EmbeddingUpdate<V>,
) -> (written: bool)
    ensures
        final(students)@ == student_written(old(students)@, update),
        written == (first_with(old(students)@, student_id(), update.id as int) < old(
            students,
        )@.len()),
{
    let mut at: usize = 0;
    while at < students.len() && students[at].id != update.id
        invariant
            at <= students.len(),
            students@ == old(students)@,
            forall|i: int| 0 <= i < at ==> student_id::<V>()(#[trigger] students@[i]) != update.id,
        decreases students.len() - at,
    {
        at = at + 1;
    }
    proof {
        lemma_first_with(students@, student_id(), update.id as int);
        let found = first_with(students@, student_id(), update.id as int);
        if found < at {
            assert(student_id::<V>()(students@[found]) != update.id);
        }
        if at < found {
            assert(student_id::<V>()(students@[at as int]) != update.id);
        }
    }
    if at < students.len() {
        let row = students.remove(at);
        let Student { id, name, keyword_list_embedding: _ } = row;
        students.insert(at, Student { id, name, keyword_list_embedding: Some(update.vector) });
        assert(students@ =~= student_written(old(students)@, update));
        true
    } else {
        false
    }
}

/// Rows of which none is selected give an empty selection.
pub proof fn lemma_none_selected<A, B>(rows: Seq<A>, select: spec_fn(A) -> Option<B>)
    requires
        forall|i: int| 0 <= i < rows.len() ==> select(#[trigger] rows[i]) is None,
    ensures
        rows.filter_map(select) == Seq::<B>::empty(),
    decreases rows.len(),
{
    if rows.len() > 0 {
        let front = rows.drop_last();
        assert forall|i: int| 0 <= i < front.len() implies select(#[trigger] front[i]) is None by {
            assert(front[i] == rows[i]);
        }
        lemma_none_selected(front, select);
    }
}

/// Where the row at `at` is the first that is selected, what it contributes
/// heads the selection; and if that row is replaced by one that is not
/// selected, the selection loses its head and nothing else.
pub proof fn lemma_first_selected<A, B>(
    rows: Seq<A>,
    select: spec_fn(A) -> Option<B>,
    at: int,
    row: A,
)
    requires
        0 <= at < rows.len(),
        forall|i: int| 0 <= i < at ==> select(#[trigger] rows[i]) is None,
        select(rows[at]) is Some,
        select(row) is None,
    ensures
        rows.filter_map(select).len() >= 1,
        rows.filter_map(select)[0] == select(rows[at])->0,
        rows.update(at, row).filter_map(select) == rows.filter_map(select).drop_first(),
    decreases rows.len(),
{
    let front = rows.drop_last();
    let changed = rows.update(at, row);
    if at == rows.len() - 1 {
        assert forall|i: int| 0 <= i < front.len() implies select(#[trigger] front[i]) is None by {
            assert(front[i] == rows[i]);
        }
        lemma_none_selected(front, select);
        assert(changed.drop_last() =~= front);
        assert(rows.filter_map(select) =~= seq![select(rows[at])->0]);
        assert(changed.filter_map(select) =~= rows.filter_map(select).drop_first());
    } else {
        assert forall|i: int| 0 <= i < at implies select(#[trigger] front[i]) is None by {
            assert(front[i] == rows[i]);
        }
        assert(front[at] == rows[at]);
        lemma_first_selected(front, select, at, row);
        assert(changed.drop_last() =~= front.update(at, row));
        assert(changed.last() == rows.last());
        assert(changed.filter_map(select) =~= rows.filter_map(select).drop_first());
    }
}

/// The index of the first row that is selected; the number of rows if none
/// is.
pub open spec fn first_selected<A, B>(rows: Seq<A>, select: spec_fn(A) -> Option<B>) -> int
    decreases rows.len(),
{
    if rows.len() > 0 && select(rows.first()) is None {
        1 + first_selected(rows.drop_first(), select)
    } else {
        0
    }
}

/// No row before the first selected one is selected, and unless the
/// selection is empty there is a first selected row.
pub proof fn lemma_first_selected_index<A, B>(rows: Seq<A>, select: spec_fn(A) -> Option<B>)
    ensures
        0 <= first_selected(rows, select) <= rows.len(),
        forall|i: int|
            0 <= i < first_selected(rows, select) ==> select(#[trigger] rows[i]) is None,
        first_selected(rows, select) < rows.len() ==> select(
            rows[first_selected(rows, select)],
        ) is Some,
        rows.filter_map(select).len() > 0 ==> first_selected(rows, select) < rows.len(),
    decreases rows.len(),
{
    if rows.len() > 0 && select(rows.first()) is None {
        let rest = rows.drop_first();
        lemma_first_selected_index(rest, select);
        let at = first_selected(rest, select);
        assert forall|i: int| 0 <= i < at + 1 implies select(#[trigger] rows[i]) is None by {
            if i > 0 {
                assert(rows[i] == rest[i - 1]);
            }
        }
        if at + 1 < rows.len() {
            assert(rows[at + 1] == rest[at]);
        }
    }
    if first_selected(rows, select) == rows.len() {
        lemma_none_selected(rows, select);
    }
}

/// Writing the vector of the first pending keyword takes it off the
/// selection and leaves the rest of the selection as it was.
pub proof fn lemma_keyword_written<V>(keywords: Seq<Keyword<V>>, update: EmbeddingUpdate<V>)
    requires
        unique_ids(keywords, keyword_id()),
        pending_keywords(keywords).len() > 0,
        pending_keywords(keywords)[0].id == update.id,
    ensures
        keyword_written(keywords, update).len() == keywords.len(),
        unique_ids(keyword_written(keywords, update), keyword_id()),
        pending_keywords(keyword_written(keywords, update)) == pending_keywords(
            keywords,
        ).drop_first(),
{
    let select = keyword_pending::<V>();
    lemma_first_selected_index(keywords, select);
    let first = first_selected(keywords, select);
    lemma_first_with(keywords, keyword_id(), update.id as int);
    let at = first_with(keywords, keyword_id(), update.id as int);
    let row = Keyword { embedding: Some(update.vector), ..keywords[first] };
    lemma_first_selected(keywords, select, first, row);
    assert(keyword_id::<V>()(keywords[first]) == update.id);
    if at < first {
        assert(keyword_id::<V>()(keywords[at]) != keyword_id::<V>()(keywords[first]));
    }
    let after = keyword_written(keywords, update);
    assert forall|i: int, j: int| 0 <= i < j < after.len() implies keyword_id::<V>()(after[i])
        != keyword_id::<V>()(after[j]) by {
        assert(keyword_id::<V>()(after[i]) == keyword_id::<V>()(keywords[i]));
        assert(keyword_id::<V>()(after[j]) == keyword_id::<V>()(keywords[j]));
    }
}

/// Writing the vector of the first pending student takes it off the
/// selection and leaves the rest of the selection as it was.
pub proof fn lemma_student_written<V>(
    students: Seq<Student<V>>,
    relations: Seq<StudentKeyword>,
    keywords: Seq<Keyword<V>>,
    update: EmbeddingUpdate<V>,
)
    requires
        unique_ids(students, student_id()),
        pending_students(students, relations, keywords).len() > 0,
        pending_students(students, relations, keywords)[0].id == update.id,
    ensures
        student_written(students, update).len() == students.len(),
        unique_ids(student_written(students, update), student_id()),
        pending_students(student_written(students, update), relations, keywords)
            == pending_students(students, relations, keywords).drop_first(),
{
    let select = student_pending::<V>(relations, keywords);
    lemma_first_selected_index(students, select);
    let first = first_selected(students, select);
    lemma_first_with(students, student_id(), update.id as int);
    let at = first_with(students, student_id(), update.id as int);
    let row = Student { keyword_list_embedding: Some(update.vector), ..students[first] };
    lemma_first_selected(students, select, first, row);
    assert(student_id::<V>()(students[first]) == update.id);
    if at < first {
        assert(student_id::<V>()(students[at]) != student_id::<V>()(students[first]));
    }
    let after = student_written(students, update);
    assert forall|i: int, j: int| 0 <= i < j < after.len() implies student_id::<V>()(after[i])
        != student_id::<V>()(after[j]) by {
        assert(student_id::<V>()(after[i]) == student_id::<V>()(students[i]));
        assert(student_id::<V>()(after[j]) == student_id::<V>()(students[j]));
    }
}

/// The updates go, in order, to the entities at the front of the selection.
pub open spec fn front_of<V>(updates: Seq<EmbeddingUpdate<V>>, selected: Seq<Pending>) -> bool {
    &&& updates.len() <= selected.len()
    &&& forall|i: int| 0 <= i < updates.len() ==> (#[trigger] updates[i]).id == selected[i].id
}

/// After updates for the keywords at the front of a selection have been
/// written, a new selection finds the selected keywords behind them and
/// nothing else. With all of them written it finds nothing: a second run on
/// unchanged rows has nothing to write.
pub proof fn lemma_keywords_selected_again<V>(
    keywords: Seq<Keyword<V>>,
    selected: Seq<Pending>,
    updates: Seq<EmbeddingUpdate<V>>,
)
    requires
        unique_ids(keywords, keyword_id()),
        pending_views(selected) == pending_keywords(keywords),
        front_of(updates, selected),
    ensures
        keywords_written(keywords, updates).len() == keywords.len(),
        unique_ids(keywords_written(keywords, updates), keyword_id()),
        pending_keywords(keywords_written(keywords, updates)) == pending_views(
            selected.skip(updates.len() as int),
        ),
    decreases updates.len(),
{
    let done = updates.len() as int;
    if done == 0 {
        assert(selected.skip(0) =~= selected);
    } else {
        let earlier = updates.drop_last();
        assert forall|i: int| 0 <= i < earlier.len() implies (#[trigger] earlier[i]).id
            == selected[i].id by {
            assert(earlier[i] == updates[i]);
        }
        lemma_keywords_selected_again(keywords, selected, earlier);
        let update = updates.last();
        assert(update == updates[done - 1]);
        assert(pending_views(selected.skip(done - 1))[0] == selected[done - 1]@);
        lemma_keyword_written(keywords_written(keywords, earlier), update);
        assert(pending_views(selected.skip(done - 1)).drop_first() =~= pending_views(
            selected.skip(done),
        ));
    }
}

/// After updates for the students at the front of a selection have been
/// written, a new selection finds the selected students behind them and
/// nothing else. With all of them written it finds nothing.
pub proof fn lemma_students_selected_again<V>(
    students: Seq<Student<V>>,
    relations: Seq<StudentKeyword>,
    keywords: Seq<Keyword<V>>,
    selected: Seq<Pending>,
    updates: Seq<EmbeddingUpdate<V>>,
)
    requires
        unique_ids(students, student_id()),
        pending_views(selected) == pending_students(students, relations, keywords),
        front_of(updates, selected),
    ensures
        students_written(students, updates).len() == students.len(),
        unique_ids(students_written(students, updates), student_id()),
        pending_students(students_written(students, updates), relations, keywords)
            == pending_views(selected.skip(updates.len() as int)),
    decreases updates.len(),
{
    let done = updates.len() as int;
    if done == 0 {
        assert(selected.skip(0) =~= selected);
    } else {
        let earlier = updates.drop_last();
        assert forall|i: int| 0 <= i < earlier.len() implies (#[trigger] earlier[i]).id
            == selected[i].id by {
            assert(earlier[i] == updates[i]);
        }
        lemma_students_selected_again(students, relations, keywords, selected, earlier);
        let update = updates.last();
        assert(update == updates[done - 1]);
        assert(pending_views(selected.skip(done - 1))[0] == selected[done - 1]@);
        lemma_student_written(students_written(students, earlier), relations, keywords, update);
        assert(pending_views(selected.skip(done - 1)).drop_first() =~= pending_views(
            selected.skip(done),
        ));
    }
}

/// However a run over the pending keywords went: once the updates that it
/// handed out for the entities before its cursor are written, a new
/// selection finds the keywords from the cursor on and nothing else. After a
/// run that reached its end these are all its updates, and the selection
/// finds nothing.
pub proof fn lemma_keywords_after_run<V>(
    keywords: Seq<Keyword<V>>,
    selected: Seq<Pending>,
    limit: nat,
    states: Seq<SyncState>,
    events: Seq<Event<V>>,
    actions: Seq<Action<V>>,
)
    requires
        unique_ids(keywords, keyword_id()),
        pending_views(selected) == pending_keywords(keywords),
        limit > 0,
        is_run(states, events, actions),
        states[0] == initial(selected, limit),
    ensures
        pending_keywords(
            keywords_written(keywords, stored(actions).take(states.last().cursor as int)),
        ) == pending_views(selected.skip(states.last().cursor as int)),
        states.last().phase is Finished ==> stored(actions).take(states.last().cursor as int)
            == stored(actions) && pending_keywords(
            keywords_written(keywords, stored(actions)),
        ).len() == 0,
{
    lemma_run_stores(selected, limit, states, events, actions);
    lemma_run(states, events, actions);
    let written = stored(actions).take(states.last().cursor as int);
    lemma_keywords_selected_again(keywords, selected, written);
    if states.last().phase is Finished {
        assert(written =~= stored(actions));
    }
}

/// However a run over the pending students went: once the updates that it
/// handed out for the entities before its cursor are written, a new
/// selection finds the students from the cursor on and nothing else. After a
/// run that reached its end these are all its updates, and the selection
/// finds nothing.
pub proof fn lemma_students_after_run<V>(
    students: Seq<Student<V>>,
    relations: Seq<StudentKeyword>,
    keywords: Seq<Keyword<V>>,
    selected: Seq<Pending>,
    limit: nat,
    states: Seq<SyncState>,
    events: Seq<Event<V>>,
    actions: Seq<Action<V>>,
)
    requires
        unique_ids(students, student_id()),
        pending_views(selected) == pending_students(students, relations, keywords),
        limit > 0,
        is_run(states, events, actions),
        states[0] == initial(selected, limit),
    ensures
        pending_students(
            students_written(students, stored(actions).take(states.last().cursor as int)),
            relations,
            keywords,
        ) == pending_views(selected.skip(states.last().cursor as int)),
        states.last().phase is Finished ==> stored(actions).take(states.last().cursor as int)
            == stored(actions) && pending_students(
            students_written(students, stored(actions)),
            relations,
            keywords,
        ).len() == 0,
{
    lemma_run_stores(selected, limit, states, events, actions);
    lemma_run(states, events, actions);
    let written = stored(actions).take(states.last().cursor as int);
    lemma_students_selected_again(students, relations, keywords, selected, written);
    if states.last().phase is Finished {
        assert(written =~= stored(actions));
    }
}

/// A run over nothing hands out no call and no update.
pub proof fn lemma_idle_run<V>(
    limit: nat,
    states: Seq<SyncState>,
    events: Seq<Event<V>>,
    actions: Seq<Action<V>>,
)
    requires
        limit > 0,
        is_run(states, events, actions),
        states[0] == initial(Seq::<Pending>::empty(), limit),
    ensures
        embed_count(actions) == 0,
        stored(actions).len() == 0,
{
    lemma_batch_count_zero(0, limit);
    lemma_run(states, events, actions);
    lemma_run_stores(Seq::<Pending>::empty(), limit, states, events, actions);
}

/// Synchronizing the keywords twice: when the first run has reached its end
/// and its updates are written, the second selection on the rows is empty,
/// and the second run hands out no call and no update.
pub proof fn lemma_second_keyword_run_is_idle<V>(
    keywords: Seq<Keyword<V>>,
    selected: Seq<Pending>,
    limit: nat,
    states: Seq<SyncState>,
    events: Seq<Event<V>>,
    actions: Seq<Action<V>>,
    again: Seq<Pending>,
    states_again: Seq<SyncState>,
    events_again: Seq<Event<V>>,
    actions_again: Seq<Action<V>>,
)
    requires
        unique_ids(keywords, keyword_id()),
        pending_views(selected) == pending_keywords(keywords),
        limit > 0,
        is_run(states, events, actions),
        states[0] == initial(selected, limit),
        states.last().phase is Finished,
        pending_views(again) == pending_keywords(keywords_written(keywords, stored(actions))),
        is_run(states_again, events_again, actions_again),
        states_again[0] == initial(again, limit),
    ensures
        again.len() == 0,
        embed_count(actions_again) == 0,
        stored(actions_again).len() == 0,
{
    lemma_keywords_after_run(keywords, selected, limit, states, events, actions);
    assert(pending_views(again).len() == 0);
    assert(again =~= Seq::<Pending>::empty());
    lemma_idle_run(limit, states_again, events_again, actions_again);
}

/// Synchronizing the students twice: when the first run has reached its end
/// and its updates are written, the second selection on the rows is empty,
/// and the second run hands out no call and no update.
pub proof fn lemma_second_student_run_is_idle<V>(
    students: Seq<Student<V>>,
    relations: Seq<StudentKeyword>,
    keywords: Seq<Keyword<V>>,
    selected: Seq<Pending>,
    limit: nat,
    states: Seq<SyncState>,
    events: Seq<Event<V>>,
    actions: Seq<Action<V>>,
    again: Seq<Pending>,
    states_again: Seq<SyncState>,
    events_again: Seq<Event<V>>,
    actions_again: Seq<Action<V>>,
)
    requires
        unique_ids(students, student_id()),
        pending_views(selected) == pending_students(students, relations, keywords),
        limit > 0,
        is_run(states, events, actions),
        states[0] == initial(selected, limit),
        states.last().phase is Finished,
        pending_views(again) == pending_students(
            students_written(students, stored(actions)),
            relations,
            keywords,
        ),
        is_run(states_again, events_again, actions_again),
        states_again[0] == initial(again, limit),
    ensures
        again.len() == 0,
        embed_count(actions_again) == 0,
        stored(actions_again).len() == 0,
{
    lemma_students_after_run(
        students,
        relations,
        keywords,
        selected,
        limit,
        states,
        events,
        actions,
    );
    assert(pending_views(again).len() == 0);
    assert(again =~= Seq::<Pending>::empty());
    lemma_idle_run(limit, states_again, events_again, actions_again);
}

} // verus!
