//! Which entities a run of the synchronizer takes up.
//!
//! A keyword is pending while it has no embedding. A student is pending
//! while it has no embedding and the texts of its keywords, joined by single
//! spaces, make a text that is not empty.

use vstd::prelude::*;
use vstd::string::StringExecFns;

use crate::model::{pending_views, Keyword, Pending, PendingView, Student, StudentKeyword};

verus! {

/// What a keyword contributes to the selection.
pub open spec fn keyword_pending<V>() -> spec_fn(Keyword<V>) -> Option<PendingView> {
    |k: Keyword<V>|
        if k.embedding is None {
            Some(PendingView { id: k.id as int, text: k.text@ })
        } else {
            None
        }
}

/// The keywords without an embedding, in the order of the rows.
pub open spec fn pending_keywords<V>(keywords: Seq<Keyword<V>>) -> Seq<PendingView> {
    keywords.filter_map(keyword_pending())
}

/// What a keyword row contributes to the texts of the keyword `keyword_id`.
pub open spec fn text_if_keyword<V>(keyword_id: i32) -> spec_fn(Keyword<V>) -> Option<Seq<char>> {
    |k: Keyword<V>|
        if k.id == keyword_id {
            Some(k.text@)
        } else {
            None
        }
}

/// The texts of the keywords associated with a student: for each association
/// of the student, in the order of the associations, the text of each keyword
/// row with the associated id.
pub open spec fn associated_texts<V>(
    student_id: i32,
    relations: Seq<StudentKeyword>,
    keywords: Seq<Keyword<V>>,
) -> Seq<Seq<char>>
    decreases relations.len(),
{
    if relations.len() == 0 {
        Seq::empty()
    } else {
        let before = associated_texts(student_id, relations.drop_last(), keywords);
        let last = relations.last();
        if last.student_id == student_id {
            before + keywords.filter_map(text_if_keyword(last.keyword_id))
        } else {
            before
        }
    }
}

/// The texts with a single space between each two.
pub open spec fn joined(texts: Seq<Seq<char>>) -> Seq<char>
    decreases texts.len(),
{
    if texts.len() == 0 {
        Seq::empty()
    } else if texts.len() == 1 {
        texts[0]
    } else {
        joined(texts.drop_last()) + seq![' '] + texts.last()
    }
}

/// The text from which a student's embedding is computed.
pub open spec fn composite<V>(
    student_id: i32,
    relations: Seq<StudentKeyword>,
    keywords: Seq<Keyword<V>>,
) -> Seq<char> {
    joined(associated_texts(student_id, relations, keywords))
}

/// What a student contributes to the selection.
pub open spec fn student_pending<V>(
    relations: Seq<StudentKeyword>,
    keywords: Seq<Keyword<V>>,
) -> spec_fn(Student<V>) -> Option<PendingView> {
    |s: Student<V>|
        if s.keyword_list_embedding is None && composite(s.id, relations, keywords).len() > 0 {
            Some(PendingView { id: s.id as int, text: composite(s.id, relations, keywords) })
        } else {
            None
        }
}

/// The students without an embedding whose composite text is not empty, in
/// the order of the rows.
pub open spec fn pending_students<V>(
    students: Seq<Student<V>>,
    relations: Seq<StudentKeyword>,
    keywords: Seq<Keyword<V>>,
) -> Seq<PendingView> {
    students.filter_map(student_pending(relations, keywords))
}

/// Selects the keywords that await an embedding.
pub fn select_pending_keywords<V>(keywords: &Vec<Keyword<V>>) -> (pending: Vec<Pending>)
    ensures
        pending_views(pending@) == pending_keywords(keywords@),
{
    let mut pending: Vec<Pending> = Vec::new();
    let mut i: usize = 0;
    while i < keywords.len()
        invariant
            i <= keywords.len(),
            pending_views(pending@) == pending_keywords(keywords@.take(i as int)),
        decreases keywords.len() - i,
    {
        proof {
            keywords@.lemma_filter_map_take_succ(keyword_pending(), i as int);
        }
        if keywords[i].embedding.is_none() {
            let ghost before = pending@;
            let item = Pending { id: keywords[i].id, text: keywords[i].text.clone() };
            pending.push(item);
            assert(pending_views(pending@) =~= pending_views(before) + seq![item@]);
        }
        i = i + 1;
    }
    assert(keywords@.take(i as int) =~= keywords@);
    pending
}

/// Appending one more text to a list appends it to the joined text, after a
/// space unless the list was empty.
pub proof fn lemma_joined_push(texts: Seq<Seq<char>>, text: Seq<char>)
    ensures
        joined(texts.push(text)) == if texts.len() == 0 {
            text
        } else {
            joined(texts) + seq![' '] + text
        },
{
    assert(texts.push(text).drop_last() =~= texts);
}

/// Computes the text from which the embedding of the student `student_id` is
/// computed.
pub fn composite_text<V>(
    student_id: i32,
    relations: &Vec<StudentKeyword>,
    keywords: &Vec<Keyword<V>>,
) -> (text: String)
    ensures
        text@ == composite(student_id, relations@, keywords@),
{
    let mut text = String::new();
    let mut first: bool = true;
    let ghost mut texts: Seq<Seq<char>> = Seq::empty();
    let mut i: usize = 0;
    while i < relations.len()
        invariant
            i <= relations.len(),
            texts == associated_texts(student_id, relations@.take(i as int), keywords@),
            text@ == joined(texts),
            first == (texts.len() == 0),
        decreases relations.len() - i,
    {
        assert(relations@.take(i + 1).drop_last() =~= relations@.take(i as int));
        if relations[i].student_id == student_id {
            let keyword_id: i32 = relations[i].keyword_id;
            let ghost before = texts;
            let mut j: usize = 0;
            while j < keywords.len()
                invariant
                    j <= keywords.len(),
                    texts == before + keywords@.take(j as int).filter_map(
                        text_if_keyword(keyword_id),
                    ),
                    text@ == joined(texts),
                    first == (texts.len() == 0),
                decreases keywords.len() - j,
            {
                proof {
                    keywords@.lemma_filter_map_take_succ(text_if_keyword(keyword_id), j as int);
                }
                if keywords[j].id == keyword_id {
                    proof {
                        lemma_joined_push(texts, keywords@[j as int].text@);
                        reveal_strlit(" ");
                        assert(" "@ =~= seq![' ']);
                    }
                    if !first {
                        text.append(" ");
                    }
                    text.append(keywords[j].text.as_str());
                    first = false;
                    proof {
                        texts = texts.push(keywords@[j as int].text@);
                    }
                }
                j = j + 1;
            }
            assert(keywords@.take(j as int) =~= keywords@);
        }
        i = i + 1;
    }
    assert(relations@.take(i as int) =~= relations@);
    text
}

/// The student is associated with a keyword.
pub open spec fn has_keywords(student_id: int, relations: Seq<StudentKeyword>) -> bool {
    exists|i: int| 0 <= i < relations.len() && (#[trigger] relations[i]).student_id == student_id
}

/// A student without associations has no text to embed.
pub proof fn lemma_without_keywords_no_text<V>(
    student_id: i32,
    relations: Seq<StudentKeyword>,
    keywords: Seq<Keyword<V>>,
)
    requires
        !has_keywords(student_id as int, relations),
    ensures
        associated_texts(student_id, relations, keywords).len() == 0,
        composite(student_id, relations, keywords).len() == 0,
    decreases relations.len(),
{
    if relations.len() > 0 {
        let front = relations.drop_last();
        assert(relations[relations.len() - 1].student_id != student_id);
        assert forall|i: int| 0 <= i < front.len() implies (#[trigger] front[i]).student_id
            != student_id by {
            assert(front[i] == relations[i]);
        }
        lemma_without_keywords_no_text(student_id, front, keywords);
    }
}

/// Every selected student is associated with a keyword and has a text that
/// is not empty: a student without keywords is never selected.
pub proof fn lemma_selected_students_have_keywords<V>(
    students: Seq<Student<V>>,
    relations: Seq<StudentKeyword>,
    keywords: Seq<Keyword<V>>,
    i: int,
)
    requires
        0 <= i < pending_students(students, relations, keywords).len(),
    ensures
        has_keywords(pending_students(students, relations, keywords)[i].id, relations),
        pending_students(students, relations, keywords)[i].text.len() > 0,
{
    let select = student_pending(relations, keywords);
    let selected = pending_students(students, relations, keywords);
    assert(selected.contains(selected[i]));
    students.lemma_filter_map_contains(select, selected[i]);
    let row = choose|row: Student<V>|
        #[trigger] students.contains(row) && select(row) == Some(selected[i]);
    if !has_keywords(row.id as int, relations) {
        lemma_without_keywords_no_text(row.id, relations, keywords);
    }
}

/// Selects the students that await an embedding, each with its composite
/// text.
pub fn select_pending_students<V>(
    students: &Vec<Student<V>>,
    relations: &Vec<StudentKeyword>,
    keywords: &Vec<Keyword<V>>,
) -> (pending: Vec<Pending>)
    ensures
        pending_views(pending@) == pending_students(students@, relations@, keywords@),
        forall|i: int|
            0 <= i < pending@.len() ==> has_keywords((#[trigger] pending@[i]).id as int, relations@)
                && pending@[i].text@.len() > 0,
{
    let mut pending: Vec<Pending> = Vec::new();
    let mut i: usize = 0;
    while i < students.len()
        invariant
            i <= students.len(),
            pending_views(pending@) == pending_students(
                students@.take(i as int),
                relations@,
                keywords@,
            ),
        decreases students.len() - i,
    {
        proof {
            students@.lemma_filter_map_take_succ(student_pending(relations@, keywords@), i as int);
        }
        if students[i].keyword_list_embedding.is_none() {
            let text = composite_text(students[i].id, relations, keywords);
            if !text.as_str().is_empty() {
                let ghost before = pending@;
                let item = Pending { id: students[i].id, text };
                pending.push(item);
                assert(pending_views(pending@) =~= pending_views(before) + seq![item@]);
            }
        }
        i = i + 1;
    }
    assert(students@.take(i as int) =~= students@);
    assert forall|i: int| 0 <= i < pending@.len() implies has_keywords(
        (#[trigger] pending@[i]).id as int,
        relations@,
    ) && pending@[i].text@.len() > 0 by {
        lemma_selected_students_have_keywords(students@, relations@, keywords@, i);
        assert(pending_views(pending@)[i] == pending@[i]@);
    }
    pending
}

} // verus!
