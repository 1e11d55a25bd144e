use quiz_store::codec::decode;
use quiz_store::codec::encode;
use quiz_store::record::Error;
use quiz_store::record::Quiz;
use quiz_store::record::QuizPayload;
use quiz_store::store::open_pool;
use quiz_store::store::Store;

fn payload(question: &str, options: &[&str]) -> QuizPayload {
    QuizPayload {
        question: question.as_bytes().to_vec(),
        options: options.iter().map(|o| o.as_bytes().to_vec()).collect(),
    }
}

fn fresh_store() -> Store {
    let pool = open_pool();
    Store::open(&pool)
}

#[test]
fn create_assigns_first_id() {
    let mut store = fresh_store();
    let q = store.create_quiz(payload("Pick one", &["A", "B"]), 111).unwrap();
    assert_eq!(q.id, 1);
    assert_eq!(q.question, b"Pick one".to_vec());
    assert_eq!(q.options, vec![b"A".to_vec(), b"B".to_vec()]);
    assert_eq!(q.answers, vec![0, 0]);
    assert_eq!(q.created_at, 111);
    assert_eq!(q.updated_at, None);
    assert_eq!(store.id_counter(), 1);
}

#[test]
fn created_ids_increase_from_one() {
    let mut store = fresh_store();
    let a = store.create_quiz(payload("first", &["x"]), 1).unwrap();
    let b = store.create_quiz(payload("second", &["x"]), 2).unwrap();
    let c = store.create_quiz(payload("third", &["x"]), 3).unwrap();
    assert_eq!((a.id, b.id, c.id), (1, 2, 3));
    assert!(a.id < b.id && b.id < c.id);
    assert_eq!(store.id_counter(), 3);
}

#[test]
fn get_returns_what_was_stored() {
    let mut store = fresh_store();
    let created = store.create_quiz(payload("Pick one", &["A", "B"]), 5).unwrap();
    let fetched = store.get_quiz(1).unwrap();
    assert_eq!(fetched, created);
    assert_eq!(store._get_quiz(1), Some(fetched));
}

#[test]
fn get_missing_is_not_found() {
    let store = fresh_store();
    assert_eq!(store.get_quiz(1), Err(Error::NotFound));
    assert_eq!(store._get_quiz(1), None);
}

#[test]
fn vote_increments_tally_and_sets_update_time() {
    let mut store = fresh_store();
    store.create_quiz(payload("Pick one", &["A", "B"]), 111).unwrap();
    let q = store.answer_quiz(1, b"A".to_vec(), 222).unwrap();
    assert_eq!(q.answers, vec![1, 0]);
    assert_eq!(q.updated_at, Some(222));
    assert_eq!(store.get_quiz(1).unwrap(), q);
    let q2 = store.answer_quiz(1, b"A".to_vec(), 333).unwrap();
    assert_eq!(q2.answers, vec![2, 0]);
    assert_eq!(q2.updated_at, Some(333));
}

#[test]
fn vote_for_unknown_option_fails_and_changes_nothing() {
    let mut store = fresh_store();
    store.create_quiz(payload("Pick one", &["A", "B"]), 111).unwrap();
    let before = store.get_quiz(1).unwrap();
    assert_eq!(store.answer_quiz(1, b"C".to_vec(), 222), Err(Error::NotFound));
    assert_eq!(store.get_quiz(1).unwrap(), before);
}

#[test]
fn vote_on_missing_record_is_not_found() {
    let mut store = fresh_store();
    assert_eq!(store.answer_quiz(9, b"A".to_vec(), 1), Err(Error::NotFound));
}

#[test]
fn delete_returns_last_record_then_nothing_remains() {
    let mut store = fresh_store();
    store.create_quiz(payload("Pick one", &["A", "B"]), 111).unwrap();
    let voted = store.answer_quiz(1, b"A".to_vec(), 222).unwrap();
    let deleted = store.delete_quiz(1).unwrap();
    assert_eq!(deleted, voted);
    assert_eq!(store.get_quiz(1), Err(Error::NotFound));
    assert_eq!(store.delete_quiz(1), Err(Error::NotFound));
}

#[test]
fn delete_missing_is_not_found() {
    let mut store = fresh_store();
    assert_eq!(store.delete_quiz(42), Err(Error::NotFound));
}

#[test]
fn update_replaces_texts_and_resets_tallies() {
    let mut store = fresh_store();
    store.create_quiz(payload("Pick one", &["A", "B"]), 111).unwrap();
    store.answer_quiz(1, b"A".to_vec(), 222).unwrap();
    let q = store.update_quiz(1, payload("Pick again", &["X", "Y", "Z"]), 333).unwrap();
    assert_eq!(q.id, 1);
    assert_eq!(q.question, b"Pick again".to_vec());
    assert_eq!(q.options, vec![b"X".to_vec(), b"Y".to_vec(), b"Z".to_vec()]);
    assert_eq!(q.answers, vec![0, 0, 0]);
    assert_eq!(q.created_at, 111);
    assert_eq!(q.updated_at, Some(333));
    assert_eq!(store.get_quiz(1).unwrap(), q);
}

#[test]
fn update_missing_is_not_found() {
    let mut store = fresh_store();
    assert_eq!(store.update_quiz(7, payload("x", &[]), 1), Err(Error::NotFound));
}

#[test]
fn update_leaves_exactly_one_entry() {
    let mut store = fresh_store();
    store.create_quiz(payload("v1", &["A"]), 1).unwrap();
    let updated = store.update_quiz(1, payload("v2", &["A"]), 2).unwrap();
    let all = store.get_all_quiz().unwrap();
    assert_eq!(all.len(), 1);
    assert_eq!(all[0], updated);
    assert_eq!(all[0].question, b"v2".to_vec());
}

#[test]
fn get_all_on_empty_store_reports_nothing_to_list() {
    let store = fresh_store();
    assert_eq!(store.get_all_quiz(), Err(Error::NotFound));
}

#[test]
fn enumeration_is_ascending_by_id() {
    let mut store = fresh_store();
    store.create_quiz(payload("first", &["x"]), 1).unwrap();
    store.create_quiz(payload("second", &["x"]), 2).unwrap();
    store.create_quiz(payload("third", &["x"]), 3).unwrap();
    store.delete_quiz(2).unwrap();
    let all = store.get_all_quiz().unwrap();
    let ids: Vec<u64> = all.iter().map(|q| q.id).collect();
    assert_eq!(ids, vec![1, 3]);
    assert_eq!(all[0].question, b"first".to_vec());
    assert_eq!(all[1].question, b"third".to_vec());
}

#[test]
fn create_oversize_record_is_refused() {
    let mut store = fresh_store();
    let huge = "q".repeat(2000);
    assert!(store.create_quiz(payload(&huge, &["A"]), 1).is_none());
    assert_eq!(store.id_counter(), 0);
    assert_eq!(store.get_all_quiz(), Err(Error::NotFound));
}

#[test]
fn create_at_size_boundary() {
    // 33 fixed bytes plus the prompt fill the 1024-byte cap exactly.
    let mut store = fresh_store();
    let exact = "q".repeat(991);
    let q = store.create_quiz(payload(&exact, &[]), 1).unwrap();
    assert_eq!(q.id, 1);
    let over = "q".repeat(992);
    assert!(store.create_quiz(payload(&over, &[]), 1).is_none());
}

#[test]
fn update_oversize_record_is_refused() {
    let mut store = fresh_store();
    store.create_quiz(payload("small", &["A"]), 1).unwrap();
    let before = store.get_quiz(1).unwrap();
    let huge = "q".repeat(2000);
    assert_eq!(store.update_quiz(1, payload(&huge, &[]), 2), Err(Error::CapacityExceeded));
    assert_eq!(store.get_quiz(1).unwrap(), before);
}

#[test]
fn reopening_the_pool_keeps_counter_and_records() {
    let pool = open_pool();
    {
        let mut store = Store::open(&pool);
        store.create_quiz(payload("kept", &["A", "B"]), 9).unwrap();
        store.create_quiz(payload("also kept", &["C"]), 10).unwrap();
    }
    let reopened = Store::open(&pool);
    assert_eq!(reopened.id_counter(), 2);
    let q = reopened.get_quiz(1).unwrap();
    assert_eq!(q.question, b"kept".to_vec());
    let all = reopened.get_all_quiz().unwrap();
    assert_eq!(all.len(), 2);
}

#[test]
fn insert_then_get_round_trips_through_storage() {
    let mut store = fresh_store();
    let q = Quiz {
        id: 5,
        question: b"direct".to_vec(),
        options: vec![b"A".to_vec()],
        answers: vec![7],
        created_at: 40,
        updated_at: Some(41),
    };
    store.do_insert(&q);
    assert_eq!(store.get_quiz(5).unwrap(), q);
}

#[test]
fn insert_twice_keeps_only_the_second_value() {
    let mut store = fresh_store();
    let q1 = Quiz {
        id: 5,
        question: b"first".to_vec(),
        options: Vec::new(),
        answers: Vec::new(),
        created_at: 1,
        updated_at: None,
    };
    let q2 = Quiz {
        id: 5,
        question: b"second".to_vec(),
        options: Vec::new(),
        answers: Vec::new(),
        created_at: 2,
        updated_at: None,
    };
    store.do_insert(&q1);
    store.do_insert(&q2);
    assert_eq!(store.get_quiz(5).unwrap(), q2);
    let all = store.get_all_quiz().unwrap();
    assert_eq!(all.len(), 1);
    assert_eq!(all[0], q2);
}

#[test]
fn codec_round_trip_plain_record() {
    let q = Quiz {
        id: 7,
        question: b"Pick one".to_vec(),
        options: vec![b"A".to_vec(), b"Bee".to_vec(), b"".to_vec()],
        answers: vec![3, 0, 250],
        created_at: 123456789,
        updated_at: None,
    };
    let bytes = encode(&q);
    assert_eq!(decode(&bytes), Some(q));
}

#[test]
fn codec_round_trip_updated_record() {
    let q = Quiz {
        id: u64::MAX,
        question: Vec::new(),
        options: Vec::new(),
        answers: Vec::new(),
        created_at: 0,
        updated_at: Some(u64::MAX),
    };
    let bytes = encode(&q);
    assert_eq!(decode(&bytes), Some(q));
}

#[test]
fn codec_exact_bytes_of_minimal_record() {
    let q = Quiz {
        id: 1,
        question: Vec::new(),
        options: Vec::new(),
        answers: Vec::new(),
        created_at: 2,
        updated_at: None,
    };
    let bytes = encode(&q);
    let mut expected = vec![1, 0, 0, 0, 0, 0, 0, 0];
    expected.extend_from_slice(&[2, 0, 0, 0, 0, 0, 0, 0]);
    expected.extend_from_slice(&[0, 0, 0, 0, 0, 0, 0, 0, 0]);
    expected.extend_from_slice(&[0, 0, 0, 0]);
    expected.extend_from_slice(&[0, 0, 0, 0]);
    assert_eq!(bytes, expected);
}

#[test]
fn codec_encoded_length_formula() {
    // 33 fixed bytes, the prompt, four length bytes and four tally
    // bytes per label, and the label bytes themselves.
    let q = Quiz {
        id: 1,
        question: b"Q".to_vec(),
        options: vec![b"A".to_vec(), b"B".to_vec()],
        answers: vec![0, 0],
        created_at: 2,
        updated_at: Some(3),
    };
    assert_eq!(encode(&q).len(), 33 + 1 + (4 + 1) + (4 + 1) + 4 * 2);
}

#[test]
fn codec_rejects_truncated_bytes() {
    let q = Quiz {
        id: 7,
        question: b"Pick".to_vec(),
        options: vec![b"A".to_vec()],
        answers: vec![0],
        created_at: 1,
        updated_at: None,
    };
    let mut bytes = encode(&q);
    bytes.pop();
    assert_eq!(decode(&bytes), None);
    assert_eq!(decode(&Vec::new()), None);
}

#[test]
fn codec_rejects_trailing_bytes() {
    let q = Quiz {
        id: 7,
        question: b"Pick".to_vec(),
        options: vec![b"A".to_vec()],
        answers: vec![0],
        created_at: 1,
        updated_at: None,
    };
    let mut bytes = encode(&q);
    bytes.push(0);
    assert_eq!(decode(&bytes), None);
}

#[test]
fn codec_rejects_bad_update_tag() {
    let q = Quiz {
        id: 7,
        question: Vec::new(),
        options: Vec::new(),
        answers: Vec::new(),
        created_at: 1,
        updated_at: None,
    };
    let mut bytes = encode(&q);
    bytes[16] = 2;
    assert_eq!(decode(&bytes), None);
    let mut bytes2 = encode(&q);
    // A zero tag over a non-zero value is not an encoding either.
    bytes2[17] = 1;
    assert_eq!(decode(&bytes2), None);
}
