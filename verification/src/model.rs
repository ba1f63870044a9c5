//! The rows that the synchronizer reads and writes.
//!
//! A row's vector has the type `V`, which the library only moves around: an
//! absent vector means that the row has not been synchronized yet.

use vstd::prelude::*;

verus! {

/// The two kinds of entity that carry an embedding.
#[derive(Debug, Clone, Copy, PartialEq, Eq)]
pub enum EntityKind {
    Keyword,
    Student,
}

/// A keyword and, once synchronized, the embedding of its text.
#[derive(Debug, Clone, PartialEq)]
pub struct Keyword<V> {
    pub id: i32,
    pub text: String,
    pub embedding: Option<V>,
}

/// A student and, once synchronized, the embedding of the texts of all the
/// student's keywords, joined by single spaces.
#[derive(Debug, Clone, PartialEq)]
pub struct Student<V> {
    pub id: i32,
    pub name: String,
    pub keyword_list_embedding: Option<V>,
}

/// One association of a student with a keyword.
#[derive(Debug, Clone, Copy, PartialEq, Eq)]
pub struct StudentKeyword {
    pub student_id: i32,
    pub keyword_id: i32,
}

/// An entity that awaits its embedding: its id and the text to embed.
#[derive(Debug, Clone, PartialEq, Eq)]
pub struct Pending {
    pub id: i32,
    pub text: String,
}

/// A pending entity as contracts see it.
pub struct PendingView {
    pub id: int,
    pub text: Seq<char>,
}

impl View for Pending {
    type V = PendingView;

    open spec fn view(&self) -> PendingView {
        PendingView { id: self.id as int, text: self.text@ }
    }
}

/// The views of a run of pending entities, in order.
pub open spec fn pending_views(items: Seq<Pending>) -> Seq<PendingView> {
    items.map_values(|p: Pending| p@)
}

/// A vector to be written to the entity with the given id.
#[derive(Debug, Clone, PartialEq)]
pub struct EmbeddingUpdate<V> {
    pub id: i32,
    pub vector: V,
}

/// The id of a pending entity.
pub open spec fn pending_id() -> spec_fn(Pending) -> int {
    |p: Pending| p.id as int
}

/// The length of the text of a pending entity.
pub open spec fn text_len() -> spec_fn(Pending) -> int {
    |p: Pending| p.text@.len() as int
}

/// The index of the first row of which `of` gives `value`; the number of rows
/// if there is none.
pub open spec fn first_with<A>(rows: Seq<A>, of: spec_fn(A) -> int, value: int) -> int
    decreases rows.len(),
{
    if rows.len() > 0 && of(rows.first()) != value {
        1 + first_with(rows.drop_first(), of, value)
    } else {
        0
    }
}

/// The index of the first row with a value lies within the rows or just
/// behind them, no row before it has the value, and the row at it has.
pub proof fn lemma_first_with<A>(rows: Seq<A>, of: spec_fn(A) -> int, value: int)
    ensures
        0 <= first_with(rows, of, value) <= rows.len(),
        forall|i: int| 0 <= i < first_with(rows, of, value) ==> of(#[trigger] rows[i]) != value,
        first_with(rows, of, value) < rows.len() ==> of(rows[first_with(rows, of, value)])
            == value,
    decreases rows.len(),
{
    if rows.len() > 0 && of(rows.first()) != value {
        let rest = rows.drop_first();
        lemma_first_with(rest, of, value);
        let at = first_with(rest, of, value);
        assert forall|i: int| 0 <= i < at + 1 implies of(#[trigger] rows[i]) != value by {
            if i > 0 {
                assert(rows[i] == rest[i - 1]);
            }
        }
        if at + 1 < rows.len() {
            assert(rows[at + 1] == rest[at]);
        }
    }
}

/// The ids of a run of pending entities, in order.
pub open spec fn ids_of(items: Seq<Pending>) -> Seq<i32> {
    Seq::new(items.len(), |i: int| items[i].id)
}

/// The texts of a run of pending entities, in order.
pub open spec fn texts_of(items: Seq<Pending>) -> Seq<Seq<char>> {
    Seq::new(items.len(), |i: int| items[i].text@)
}

/// The characters of each string of a list, in order.
pub open spec fn text_views(texts: Seq<String>) -> Seq<Seq<char>> {
    Seq::new(texts.len(), |i: int| texts[i]@)
}

} // verus!
