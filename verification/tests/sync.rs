use async_openai::types::{CreateEmbeddingRequest, EmbeddingInput};
use embedding_sync::model::{
    EmbeddingUpdate, EntityKind, Keyword, Pending, Student, StudentKeyword,
};
use embedding_sync::select::select_pending_keywords;
use embedding_sync::store::{write_keyword_embedding, write_student_embedding};
use embedding_sync::sync::{
    insert_keyword_embeddings, insert_student_embeddings, synchronize, Action, Event, Phase,
    SyncError, Synchronizer,
};

struct Outcome {
    calls: Vec<Vec<i32>>,
    texts: Vec<Vec<String>>,
    writes: Vec<EmbeddingUpdate<Vec<f32>>>,
    end: Action<Vec<f32>>,
}

fn texts_in(request: &CreateEmbeddingRequest) -> Vec<String> {
    match &request.input {
        EmbeddingInput::StringArray(texts) => texts.clone(),
        other => panic!("not a list of texts: {:?}", other),
    }
}

fn embed(text: &str) -> Vec<f32> {
    vec![text.len() as f32, text.chars().count() as f32, 1.0]
}

fn drive(run: &mut Synchronizer, fail_on_call: Option<usize>) -> Outcome {
    let mut calls = Vec::new();
    let mut texts = Vec::new();
    let mut writes = Vec::new();
    let mut event = Event::Begin;
    loop {
        match run.step(event) {
            Action::Embed { ids, request } => {
                let batch = texts_in(&request);
                calls.push(ids);
                event = if fail_on_call == Some(calls.len()) {
                    Event::ProviderFailed
                } else {
                    Event::Embedded { vectors: batch.iter().map(|t| embed(t)).collect() }
                };
                texts.push(batch);
            }
            Action::Store { updates } => {
                writes.extend(updates);
                event = Event::Stored;
            }
            end => return Outcome { calls, texts, writes, end },
        }
    }
}

/// Hands `event` to the run, answers the request that follows with vectors
/// and returns the ids of the updates that the run then hands out.
fn drive_one_batch(run: &mut Synchronizer, event: Event<Vec<f32>>) -> Vec<i32> {
    let vectors = match run.step(event) {
        Action::Embed { request, .. } => texts_in(&request).iter().map(|t| embed(t)).collect(),
        other => panic!("expected a request, got {:?}", other),
    };
    match run.step(Event::Embedded { vectors }) {
        Action::Store { updates } => updates.iter().map(|u| u.id).collect(),
        other => panic!("expected updates, got {:?}", other),
    }
}

fn pending(n: i32) -> Vec<Pending> {
    (1..=n).map(|id| Pending { id, text: format!("text {}", id) }).collect()
}

fn keywords(texts: &[&str]) -> Vec<Keyword<Vec<f32>>> {
    texts
        .iter()
        .enumerate()
        .map(|(i, t)| Keyword { id: i as i32 + 1, text: t.to_string(), embedding: None })
        .collect()
}

#[test]
fn run_over_nothing_finishes_without_a_call() {
    let mut run = Synchronizer::new(Vec::new(), 1000).unwrap();
    let outcome = drive(&mut run, None);
    assert_eq!(outcome.end, Action::Finished);
    assert!(outcome.calls.is_empty());
    assert!(outcome.writes.is_empty());
    assert_eq!(run.calls(), 0);
    assert_eq!(run.phase(), Phase::Finished);
}

#[test]
fn batches_are_cut_at_the_limit() {
    let mut run = Synchronizer::new(pending(2500), 1000).unwrap();
    let outcome = drive(&mut run, None);
    assert_eq!(outcome.end, Action::Finished);
    let sizes: Vec<usize> = outcome.calls.iter().map(|ids| ids.len()).collect();
    assert_eq!(sizes, vec![1000, 1000, 500]);
    assert_eq!(run.calls(), 3);
    assert_eq!(outcome.writes.len(), 2500);
}

#[test]
fn number_of_calls_is_items_over_limit_rounded_up() {
    for (n, limit, expected) in
        [(0, 3, 0), (1, 3, 1), (2, 3, 1), (3, 3, 1), (4, 3, 2), (6, 3, 2), (7, 3, 3), (5, 1, 5)]
    {
        let mut run = Synchronizer::new(pending(n), limit).unwrap();
        let outcome = drive(&mut run, None);
        assert_eq!(outcome.end, Action::Finished);
        assert_eq!(outcome.calls.len(), expected);
        assert_eq!(run.calls(), expected);
        assert!(outcome.calls.iter().all(|ids| !ids.is_empty() && ids.len() <= limit));
        let all: Vec<i32> = outcome.calls.concat();
        assert_eq!(all, (1..=n).collect::<Vec<i32>>());
    }
}

#[test]
fn request_names_the_model_and_carries_the_texts_in_order() {
    let items = vec![
        Pending { id: 7, text: "機械学習".to_string() },
        Pending { id: 3, text: "自然言語処理".to_string() },
        Pending { id: 9, text: "料理".to_string() },
    ];
    let mut run = Synchronizer::new(items, 2).unwrap();
    match run.step::<Vec<f32>>(Event::Begin) {
        Action::Embed { ids, request } => {
            assert_eq!(ids, vec![7, 3]);
            assert_eq!(request.model, "text-embedding-ada-002");
            assert_eq!(
                request.input,
                EmbeddingInput::StringArray(vec![
                    "機械学習".to_string(),
                    "自然言語処理".to_string()
                ])
            );
            assert_eq!(request.encoding_format, None);
            assert_eq!(request.user, None);
            assert_eq!(request.dimensions, None);
        }
        other => panic!("expected a request, got {:?}", other),
    }
    assert_eq!(run.phase(), Phase::Embedding);
    assert_eq!(run.calls(), 1);
}

#[test]
fn vector_at_each_position_goes_to_the_id_at_that_position() {
    let items = vec![
        Pending { id: 30, text: "c".to_string() },
        Pending { id: 10, text: "aaa".to_string() },
        Pending { id: 20, text: "bb".to_string() },
    ];
    let mut run = Synchronizer::new(items, 1000).unwrap();
    assert!(matches!(run.step::<Vec<f32>>(Event::Begin), Action::Embed { .. }));
    let vectors = vec![vec![0.5f32], vec![1.5f32], vec![2.5f32]];
    let action = run.step(Event::Embedded { vectors });
    assert_eq!(
        action,
        Action::Store {
            updates: vec![
                EmbeddingUpdate { id: 30, vector: vec![0.5f32] },
                EmbeddingUpdate { id: 10, vector: vec![1.5f32] },
                EmbeddingUpdate { id: 20, vector: vec![2.5f32] },
            ]
        }
    );
    assert_eq!(run.phase(), Phase::Storing);
    assert_eq!(run.step::<Vec<f32>>(Event::Stored), Action::Finished);
}

#[test]
fn order_is_preserved_in_every_batch() {
    let mut run = Synchronizer::new(pending(7), 3).unwrap();
    let outcome = drive(&mut run, None);
    assert_eq!(outcome.writes.len(), 7);
    for (i, write) in outcome.writes.iter().enumerate() {
        assert_eq!(write.id, i as i32 + 1);
        assert_eq!(write.vector, embed(&format!("text {}", i + 1)));
    }
    assert_eq!(
        outcome.texts[2],
        vec!["text 7".to_string()]
    );
}

#[test]
fn provider_failure_on_second_of_three_batches() {
    let mut rows = keywords(&["a", "bb", "ccc", "dddd", "eeeee"]);
    let mut run = Synchronizer::new(select_pending_keywords(&rows), 2).unwrap();
    let outcome = drive(&mut run, Some(2));
    assert_eq!(outcome.end, Action::Failed { error: SyncError::Provider { ids: vec![3, 4] } });
    assert_eq!(outcome.calls, vec![vec![1, 2], vec![3, 4]]);
    let written: Vec<i32> = outcome.writes.iter().map(|w| w.id).collect();
    assert_eq!(written, vec![1, 2]);
    assert_eq!(run.phase(), Phase::Failed);
    assert_eq!(run.calls(), 2);
    assert_eq!(run.remaining_ids(), vec![3, 4, 5]);
    assert_eq!(
        run.step::<Vec<f32>>(Event::Begin),
        Action::Failed { error: SyncError::OutOfTurn }
    );
    assert_eq!(
        run.step::<Vec<f32>>(Event::Stored),
        Action::Failed { error: SyncError::OutOfTurn }
    );
    assert_eq!(run.calls(), 2);

    for write in outcome.writes {
        assert!(write_keyword_embedding(&mut rows, write));
    }
    let again = select_pending_keywords(&rows);
    let ids: Vec<i32> = again.iter().map(|p| p.id).collect();
    assert_eq!(ids, vec![3, 4, 5]);
    let mut rerun = Synchronizer::new(again, 2).unwrap();
    let second = drive(&mut rerun, None);
    assert_eq!(second.end, Action::Finished);
    assert_eq!(second.calls, vec![vec![3, 4], vec![5]]);
}

#[test]
fn second_run_on_unchanged_rows_writes_nothing() {
    let mut rows = keywords(&["機械学習", "自然言語処理", "料理"]);
    let mut first = insert_keyword_embeddings(&rows, Some("key")).unwrap();
    let outcome = drive(&mut first, None);
    assert_eq!(outcome.end, Action::Finished);
    assert_eq!(outcome.writes.len(), 3);
    for write in outcome.writes {
        assert!(write_keyword_embedding(&mut rows, write));
    }
    assert!(rows.iter().all(|k| k.embedding.is_some()));
    assert_eq!(rows[1].embedding, Some(embed("自然言語処理")));

    let mut second = insert_keyword_embeddings(&rows, Some("key")).unwrap();
    let outcome = drive(&mut second, None);
    assert_eq!(outcome.end, Action::Finished);
    assert!(outcome.calls.is_empty());
    assert!(outcome.writes.is_empty());
    assert_eq!(second.calls(), 0);
}

#[test]
fn student_run_embeds_the_joined_keyword_texts() {
    let rows = keywords(&["機械学習", "自然言語処理", "料理"]);
    let mut students: Vec<Student<Vec<f32>>> = vec![
        Student { id: 1, name: "S1".to_string(), keyword_list_embedding: None },
        Student { id: 2, name: "S2".to_string(), keyword_list_embedding: None },
        Student { id: 3, name: "S3".to_string(), keyword_list_embedding: None },
    ];
    let relations = vec![
        StudentKeyword { student_id: 1, keyword_id: 1 },
        StudentKeyword { student_id: 3, keyword_id: 3 },
        StudentKeyword { student_id: 1, keyword_id: 2 },
    ];
    let mut run = insert_student_embeddings(&students, &relations, &rows, Some("key")).unwrap();
    let outcome = drive(&mut run, None);
    assert_eq!(outcome.end, Action::Finished);
    assert_eq!(outcome.calls, vec![vec![1, 3]]);
    assert_eq!(
        outcome.texts,
        vec![vec!["機械学習 自然言語処理".to_string(), "料理".to_string()]]
    );
    for write in outcome.writes {
        assert!(write_student_embedding(&mut students, write));
    }
    assert_eq!(students[0].keyword_list_embedding, Some(embed("機械学習 自然言語処理")));
    assert_eq!(students[1].keyword_list_embedding, None);
    let mut again = insert_student_embeddings(&students, &relations, &rows, Some("key")).unwrap();
    let outcome = drive(&mut again, None);
    assert!(outcome.calls.is_empty());
}

#[test]
fn missing_credential_stops_before_anything_is_selected() {
    let rows = keywords(&["a"]);
    assert_eq!(
        insert_keyword_embeddings(&rows, None).err(),
        Some(SyncError::Configuration)
    );
    let students: Vec<Student<Vec<f32>>> = Vec::new();
    let relations: Vec<StudentKeyword> = Vec::new();
    assert_eq!(
        insert_student_embeddings(&students, &relations, &rows, None).err(),
        Some(SyncError::Configuration)
    );
}

#[test]
fn default_limit_is_one_thousand() {
    let rows: Vec<Keyword<Vec<f32>>> = (1..=1001)
        .map(|id| Keyword { id, text: format!("k{}", id), embedding: None })
        .collect();
    let mut run = insert_keyword_embeddings(&rows, Some("key")).unwrap();
    let outcome = drive(&mut run, None);
    let sizes: Vec<usize> = outcome.calls.iter().map(|ids| ids.len()).collect();
    assert_eq!(sizes, vec![1000, 1]);
}

#[test]
fn answer_of_the_wrong_length_fails_the_batch() {
    let mut run = Synchronizer::new(pending(3), 2).unwrap();
    assert!(matches!(run.step::<Vec<f32>>(Event::Begin), Action::Embed { .. }));
    let action = run.step(Event::Embedded { vectors: vec![vec![1.0f32]] });
    assert_eq!(action, Action::Failed { error: SyncError::Provider { ids: vec![1, 2] } });
    assert_eq!(run.phase(), Phase::Failed);
    assert_eq!(run.remaining_ids(), vec![1, 2, 3]);

    let mut run = Synchronizer::new(pending(1), 2).unwrap();
    assert!(matches!(run.step::<Vec<f32>>(Event::Begin), Action::Embed { .. }));
    let action = run.step(Event::Embedded { vectors: vec![vec![1.0f32], vec![2.0f32]] });
    assert_eq!(action, Action::Failed { error: SyncError::Provider { ids: vec![1] } });
}

#[test]
fn store_failure_names_the_entity() {
    let mut run = Synchronizer::new(pending(3), 2).unwrap();
    assert!(matches!(run.step::<Vec<f32>>(Event::Begin), Action::Embed { .. }));
    let vectors = vec![vec![1.0f32], vec![2.0f32]];
    assert!(matches!(run.step(Event::Embedded { vectors }), Action::Store { .. }));
    let action = run.step::<Vec<f32>>(Event::StoreFailed { id: 2 });
    assert_eq!(action, Action::Failed { error: SyncError::Store { id: 2 } });
    assert_eq!(run.phase(), Phase::Failed);
    assert_eq!(run.remaining_ids(), vec![2, 3]);
}

#[test]
fn store_failure_on_the_first_update_leaves_the_whole_batch() {
    let mut run = Synchronizer::new(pending(5), 2).unwrap();
    let first = drive_one_batch(&mut run, Event::Begin);
    assert_eq!(first, vec![1, 2]);
    let second = drive_one_batch(&mut run, Event::Stored);
    assert_eq!(second, vec![3, 4]);
    let action = run.step::<Vec<f32>>(Event::StoreFailed { id: 3 });
    assert_eq!(action, Action::Failed { error: SyncError::Store { id: 3 } });
    assert_eq!(run.remaining_ids(), vec![3, 4, 5]);
    assert_eq!(run.calls(), 2);
}

#[test]
fn store_failure_for_an_entity_outside_the_batch_is_out_of_turn() {
    let mut run = Synchronizer::new(pending(5), 2).unwrap();
    assert_eq!(drive_one_batch(&mut run, Event::Begin), vec![1, 2]);
    assert_eq!(drive_one_batch(&mut run, Event::Stored), vec![3, 4]);
    let action = run.step::<Vec<f32>>(Event::StoreFailed { id: 1 });
    assert_eq!(action, Action::Failed { error: SyncError::OutOfTurn });
    assert_eq!(run.phase(), Phase::Failed);
    assert_eq!(run.remaining_ids(), vec![3, 4, 5]);
}

#[test]
fn event_out_of_turn_aborts_the_run() {
    let mut run = Synchronizer::new(pending(2), 2).unwrap();
    assert_eq!(
        run.step::<Vec<f32>>(Event::Stored),
        Action::Failed { error: SyncError::OutOfTurn }
    );
    assert_eq!(run.phase(), Phase::Failed);

    let mut run = Synchronizer::new(pending(2), 2).unwrap();
    assert!(matches!(run.step::<Vec<f32>>(Event::Begin), Action::Embed { .. }));
    assert_eq!(
        run.step::<Vec<f32>>(Event::Begin),
        Action::Failed { error: SyncError::OutOfTurn }
    );
    assert_eq!(run.calls(), 1);
}

#[test]
fn finished_run_stays_finished() {
    let mut run = Synchronizer::new(pending(1), 5).unwrap();
    let outcome = drive(&mut run, None);
    assert_eq!(outcome.end, Action::Finished);
    assert_eq!(run.step::<Vec<f32>>(Event::Begin), Action::Finished);
    assert_eq!(run.step::<Vec<f32>>(Event::ProviderFailed), Action::Finished);
    assert_eq!(run.phase(), Phase::Finished);
    assert_eq!(run.calls(), 1);
    assert!(run.remaining_ids().is_empty());
}

#[test]
fn limit_of_zero_is_refused() {
    assert_eq!(Synchronizer::new(pending(3), 0).err(), Some(SyncError::Configuration));
    assert_eq!(Synchronizer::new(Vec::new(), 0).err(), Some(SyncError::Configuration));
    assert!(Synchronizer::new(pending(3), 1).is_ok());
}

#[test]
fn synchronize_twice_writes_nothing_the_second_time() {
    let mut rows = keywords(&["a", "bb", "ccc"]);
    let students: Vec<Student<Vec<f32>>> = Vec::new();
    let relations: Vec<StudentKeyword> = Vec::new();
    let mut first =
        synchronize(EntityKind::Keyword, &students, &relations, &rows, Some("key")).unwrap();
    let outcome = drive(&mut first, None);
    assert_eq!(outcome.calls, vec![vec![1, 2, 3]]);
    for write in outcome.writes {
        assert!(write_keyword_embedding(&mut rows, write));
    }
    let mut second =
        synchronize(EntityKind::Keyword, &students, &relations, &rows, Some("key")).unwrap();
    let outcome = drive(&mut second, None);
    assert_eq!(outcome.end, Action::Finished);
    assert!(outcome.calls.is_empty());
    assert!(outcome.writes.is_empty());
}

#[test]
fn synchronize_takes_up_the_entities_of_the_kind() {
    let rows = keywords(&["a", "bb"]);
    let students: Vec<Student<Vec<f32>>> = vec![
        Student { id: 10, name: "ten".to_string(), keyword_list_embedding: None },
        Student { id: 11, name: "eleven".to_string(), keyword_list_embedding: None },
    ];
    let relations = vec![StudentKeyword { student_id: 11, keyword_id: 2 }];
    let mut run =
        synchronize(EntityKind::Student, &students, &relations, &rows, Some("key")).unwrap();
    let outcome = drive(&mut run, None);
    assert_eq!(outcome.calls, vec![vec![11]]);
    assert_eq!(outcome.texts, vec![vec!["bb".to_string()]]);
    let mut run =
        synchronize(EntityKind::Keyword, &students, &relations, &rows, Some("key")).unwrap();
    let outcome = drive(&mut run, None);
    assert_eq!(outcome.calls, vec![vec![1, 2]]);
    assert_eq!(
        synchronize(EntityKind::Student, &students, &relations, &rows, None).err(),
        Some(SyncError::Configuration)
    );
}

#[test]
fn timeout_is_told_apart_from_failure() {
    let mut run = Synchronizer::new(pending(5), 2).unwrap();
    assert_eq!(drive_one_batch(&mut run, Event::Begin), vec![1, 2]);
    assert!(matches!(run.step::<Vec<f32>>(Event::Stored), Action::Embed { .. }));
    let action = run.step::<Vec<f32>>(Event::ProviderTimedOut);
    assert_eq!(action, Action::Failed { error: SyncError::Timeout { ids: vec![3, 4] } });
    assert_eq!(run.phase(), Phase::Failed);
    assert_eq!(run.remaining_ids(), vec![3, 4, 5]);
    assert_eq!(run.calls(), 2);

    let mut run = Synchronizer::new(pending(1), 2).unwrap();
    assert_eq!(
        run.step::<Vec<f32>>(Event::ProviderTimedOut),
        Action::Failed { error: SyncError::OutOfTurn }
    );
}

#[test]
fn empty_text_fails_its_batch_before_the_provider_is_called() {
    let items = vec![
        Pending { id: 1, text: "a".to_string() },
        Pending { id: 2, text: "b".to_string() },
        Pending { id: 3, text: "c".to_string() },
        Pending { id: 4, text: "".to_string() },
        Pending { id: 5, text: "".to_string() },
    ];
    let mut run = Synchronizer::new(items, 2).unwrap();
    let outcome = drive(&mut run, None);
    assert_eq!(outcome.end, Action::Failed { error: SyncError::Data { id: 4 } });
    assert_eq!(outcome.calls, vec![vec![1, 2]]);
    let written: Vec<i32> = outcome.writes.iter().map(|w| w.id).collect();
    assert_eq!(written, vec![1, 2]);
    assert_eq!(run.calls(), 1);
    assert_eq!(run.remaining_ids(), vec![3, 4, 5]);

    let mut run = Synchronizer::new(vec![Pending { id: 9, text: String::new() }], 2).unwrap();
    assert_eq!(
        run.step::<Vec<f32>>(Event::Begin),
        Action::Failed { error: SyncError::Data { id: 9 } }
    );
    assert_eq!(run.calls(), 0);
}
