use basics::{DataType, KeyType, LookupResult, MemoryState, Record, RecordResult, Row, Tag};

fn num(i: i64) -> DataType {
    DataType::Int(i)
}

fn text(s: &str) -> DataType {
    DataType::Text(s.to_string())
}

fn key1(d: DataType) -> KeyType {
    KeyType::from(&[d]).unwrap()
}

fn found(r: LookupResult) -> Vec<Vec<DataType>> {
    match r {
        LookupResult::Found(rs) => rs.to_rows(),
        LookupResult::Missing => panic!("lookup hit a hole"),
    }
}

fn full_state() -> MemoryState {
    let mut s = MemoryState::new();
    s.add_key(&[0], None);
    s
}

#[test]
fn tag_id_returns_number() {
    assert_eq!(Tag(42).id(), 42);
}

#[test]
fn new_state_is_not_useful() {
    let mut s = MemoryState::new();
    assert!(!s.is_useful());
    s.add_key(&[0], None);
    assert!(s.is_useful());
    assert!(!s.is_partial());
    s.add_key(&[1], Some(vec![Tag(1)]));
    assert!(s.is_partial());
    assert_eq!(s.keys(), vec![vec![0], vec![1]]);
}

#[test]
fn add_same_columns_twice_keeps_one_index() {
    let mut s = full_state();
    s.add_key(&[0], None);
    assert_eq!(s.keys(), vec![vec![0]]);
}

#[test]
fn insert_then_lookup_round_trip() {
    let mut s = full_state();
    let mut batch = vec![Record::Positive(vec![num(1), text("a")]), Record::Positive(vec![num(1), text("c")])];
    s.process_records(&mut batch, None);
    assert_eq!(batch.len(), 2);
    assert_eq!(s.rows(), 2);
    let rows = found(s.lookup(&[0], &key1(num(1))));
    assert_eq!(rows, vec![vec![num(1), text("a")], vec![num(1), text("c")]]);
    assert_eq!(found(s.lookup(&[0], &key1(num(9)))).len(), 0);
}

#[test]
fn lookup_returns_borrowed_rows() {
    let mut s = full_state();
    let mut batch = vec![Record::Positive(vec![num(1), text("a")])];
    s.process_records(&mut batch, None);
    match s.lookup(&[0], &key1(num(1))) {
        LookupResult::Found(rs) => {
            assert_eq!(rs.len(), 1);
            assert!(matches!(rs, RecordResult::Borrowed(_)));
        }
        LookupResult::Missing => panic!("unexpected hole"),
    }
}

#[test]
fn negative_record_removes_first_equal_row() {
    let mut s = full_state();
    let mut batch = vec![
        Record::Positive(vec![num(1), text("a")]),
        Record::Positive(vec![num(1), text("b")]),
        Record::Positive(vec![num(1), text("a")]),
        Record::Negative(vec![num(1), text("a")]),
        Record::Negative(vec![num(1), text("zz")]),
    ];
    s.process_records(&mut batch, None);
    assert_eq!(s.rows(), 2);
    let rows = found(s.lookup(&[0], &key1(num(1))));
    assert_eq!(rows, vec![vec![num(1), text("b")], vec![num(1), text("a")]]);
}

#[test]
fn two_column_index_lookup() {
    let mut s = MemoryState::new();
    s.add_key(&[1, 0], None);
    let mut batch = vec![Record::Positive(vec![num(1), text("a")]), Record::Positive(vec![num(2), text("a")])];
    s.process_records(&mut batch, None);
    let k = KeyType::from(&[text("a"), num(2)]).unwrap();
    assert_eq!(found(s.lookup(&[1, 0], &k)), vec![vec![num(2), text("a")]]);
}

#[test]
fn hole_record_stripped_from_both_indices() {
    let t = Tag(3);
    let mut s = MemoryState::new();
    s.add_key(&[0], None);
    s.add_key(&[1], Some(vec![t]));
    s.mark_hole(&[text("x")], &t);
    let mut batch = vec![Record::Positive(vec![num(1), text("x")]), Record::Positive(vec![num(2), text("y")])];
    s.process_records(&mut batch, None);
    assert_eq!(batch.len(), 1);
    assert_eq!(s.rows(), 1);
    assert_eq!(found(s.lookup(&[0], &key1(num(1)))).len(), 0);
    assert!(matches!(s.lookup(&[1], &key1(text("x"))), LookupResult::Missing));
    assert_eq!(found(s.lookup(&[0], &key1(num(2)))), vec![vec![num(2), text("y")]]);
}

#[test]
fn partial_hole_scenario() {
    let t = Tag(7);
    let mut s = MemoryState::new();
    s.add_key(&[0], Some(vec![t]));
    s.mark_hole(&[num(5)], &t);
    let mut batch = vec![Record::Positive(vec![num(5), text("x")])];
    s.process_records(&mut batch, Some(t));
    assert!(batch.is_empty());
    assert!(matches!(s.lookup(&[0], &key1(num(5))), LookupResult::Missing));
    s.mark_filled(vec![num(5)], &t);
    let mut again = vec![Record::Positive(vec![num(5), text("x")])];
    s.process_records(&mut again, Some(t));
    assert_eq!(again.len(), 1);
    assert_eq!(found(s.lookup(&[0], &key1(num(5)))), vec![vec![num(5), text("x")]]);
}

#[test]
fn hole_then_fill_restores_lookup() {
    let t = Tag(2);
    let mut s = MemoryState::new();
    s.add_key(&[0], Some(vec![t]));
    let mut batch = vec![Record::Positive(vec![num(4), text("q")])];
    s.process_records(&mut batch, None);
    let before = found(s.lookup(&[0], &key1(num(4))));
    s.mark_hole(&[num(4)], &t);
    s.mark_hole(&[num(4)], &t);
    assert!(matches!(s.lookup(&[0], &key1(num(4))), LookupResult::Missing));
    s.mark_filled(vec![num(4)], &t);
    assert_eq!(found(s.lookup(&[0], &key1(num(4)))), before);
}

#[test]
fn hole_needs_every_tag_filled() {
    let (a, b) = (Tag(1), Tag(2));
    let mut s = MemoryState::new();
    s.add_key(&[0], Some(vec![a, b]));
    s.mark_hole(&[num(1)], &a);
    s.mark_hole(&[num(1)], &b);
    s.mark_filled(vec![num(1)], &a);
    assert!(matches!(s.lookup(&[0], &key1(num(1))), LookupResult::Missing));
    s.mark_filled(vec![num(1)], &b);
    assert_eq!(found(s.lookup(&[0], &key1(num(1)))).len(), 0);
}

#[test]
fn mark_filled_on_non_hole_is_noop() {
    let t = Tag(9);
    let mut s = MemoryState::new();
    s.add_key(&[0], Some(vec![t]));
    s.mark_filled(vec![num(3)], &t);
    assert_eq!(found(s.lookup(&[0], &key1(num(3)))).len(), 0);
}

#[test]
fn evict_scenario_full_index() {
    let mut s = full_state();
    let mut batch = vec![Record::Positive(vec![num(1), text("a")]), Record::Positive(vec![num(2), text("b")])];
    s.process_records(&mut batch, None);
    assert_eq!(found(s.lookup(&[0], &key1(num(1)))), vec![vec![num(1), text("a")]]);
    let size = Row(vec![num(1), text("a")]).deep_size_of();
    let (cols, keys, bytes) = s.evict_random_keys(1);
    assert_eq!(cols, vec![0]);
    assert_eq!(keys, vec![vec![num(1)]]);
    assert_eq!(bytes, size);
    assert_eq!(found(s.lookup(&[0], &key1(num(1)))).len(), 0);
    assert_eq!(found(s.lookup(&[0], &key1(num(2)))), vec![vec![num(2), text("b")]]);
}

#[test]
fn evict_partial_index_leaves_holes() {
    let t = Tag(4);
    let mut s = MemoryState::new();
    s.add_key(&[0], Some(vec![t]));
    s.add_key(&[1], None);
    let mut batch = vec![
        Record::Positive(vec![num(1), text("a")]),
        Record::Positive(vec![num(1), text("b")]),
        Record::Positive(vec![num(2), text("c")]),
    ];
    s.process_records(&mut batch, None);
    let (cols, keys, bytes) = s.evict_random_keys(1);
    assert_eq!(cols, vec![0]);
    assert_eq!(keys, vec![vec![num(1)]]);
    assert_eq!(bytes, 57 + 57);
    assert!(matches!(s.lookup(&[0], &key1(num(1))), LookupResult::Missing));
    assert_eq!(found(s.lookup(&[1], &key1(text("a")))).len(), 0);
    assert_eq!(s.rows(), 1);
}

#[test]
fn evict_more_keys_than_present() {
    let mut s = full_state();
    let mut batch = vec![Record::Positive(vec![num(1)]), Record::Positive(vec![num(2)]), Record::Positive(vec![num(1)])];
    s.process_records(&mut batch, None);
    let (_, keys, bytes) = s.evict_random_keys(5);
    assert_eq!(keys, vec![vec![num(1)], vec![num(2)]]);
    assert_eq!(bytes, 3 * 40);
    assert_eq!(s.rows(), 0);
}

#[test]
fn evict_keys_unknown_tag_is_none() {
    let mut s = full_state();
    assert!(s.evict_keys(&Tag(1), &[vec![num(1)]]).is_none());
}

#[test]
fn evict_keys_marks_holes() {
    let t = Tag(5);
    let mut s = MemoryState::new();
    s.add_key(&[0], None);
    s.add_key(&[1], Some(vec![t]));
    let mut batch = vec![Record::Positive(vec![num(1), text("k")]), Record::Positive(vec![num(2), text("m")])];
    s.process_records(&mut batch, None);
    let (cols, bytes) = s.evict_keys(&t, &[vec![text("k")]]).unwrap();
    assert_eq!(cols, vec![1]);
    assert_eq!(bytes, 57);
    assert!(matches!(s.lookup(&[1], &key1(text("k"))), LookupResult::Missing));
    assert_eq!(found(s.lookup(&[0], &key1(num(1)))).len(), 0);
    assert_eq!(s.rows(), 1);
}

#[test]
fn cloned_records_copies_all_rows() {
    let mut s = full_state();
    let mut batch = vec![Record::Positive(vec![num(1), text("a")]), Record::Positive(vec![num(2), text("b")])];
    s.process_records(&mut batch, None);
    assert_eq!(s.cloned_records(), vec![vec![num(1), text("a")], vec![num(2), text("b")]]);
}

#[test]
fn key_type_from_each_arity() {
    let vals = vec![num(1), num(2), num(3), num(4), num(5), num(6)];
    assert!(matches!(KeyType::from(&vals[..1]), Some(KeyType::Single(_))));
    assert!(matches!(KeyType::from(&vals[..2]), Some(KeyType::Double(_))));
    assert!(matches!(KeyType::from(&vals[..3]), Some(KeyType::Tri(_))));
    assert!(matches!(KeyType::from(&vals[..4]), Some(KeyType::Quad(_))));
    assert!(matches!(KeyType::from(&vals[..5]), Some(KeyType::Quin(_))));
    let k = KeyType::from(&vals[..6]).unwrap();
    assert!(matches!(k, KeyType::Sex(_)));
    assert_eq!(k.values(), vals);
    let three = KeyType::from(&vals[..3]).unwrap();
    assert_eq!(three.values(), vec![num(1), num(2), num(3)]);
}

#[test]
fn key_type_from_rejects_bad_arity() {
    let vals = vec![num(1); 7];
    assert!(KeyType::from(&vals[..0]).is_none());
    assert!(KeyType::from(&vals).is_none());
}

#[test]
fn deep_sizes() {
    assert_eq!(num(7).deep_size_of(), 16);
    assert_eq!(DataType::Null.deep_size_of(), 16);
    assert_eq!(text("abc").deep_size_of(), 19);
    assert_eq!(Row(vec![num(1), text("a")]).deep_size_of(), 57);
    assert_eq!(Row(vec![]).deep_size_of(), 24);
}

#[test]
fn data_type_equality() {
    assert!(text("a").same(&text("a")));
    assert!(!text("a").same(&text("b")));
    assert!(!num(1).same(&text("1")));
    assert_eq!(num(3), num(3));
    assert_ne!(num(3), DataType::Null);
}

#[test]
fn late_full_index_sees_existing_rows() {
    let mut s = full_state();
    let mut batch = vec![Record::Positive(vec![num(1), text("a")])];
    s.process_records(&mut batch, None);
    s.add_key(&[1], None);
    assert_eq!(found(s.lookup(&[1], &key1(text("a")))), vec![vec![num(1), text("a")]]);
}

#[test]
fn late_partial_index_starts_with_holes() {
    let t = Tag(8);
    let mut s = full_state();
    let mut batch = vec![Record::Positive(vec![num(1), text("a")])];
    s.process_records(&mut batch, None);
    s.add_key(&[1], Some(vec![t]));
    assert!(matches!(s.lookup(&[1], &key1(text("a"))), LookupResult::Missing));
    assert_eq!(found(s.lookup(&[1], &key1(text("b")))).len(), 0);
    s.mark_filled(vec![text("a")], &t);
    assert_eq!(found(s.lookup(&[1], &key1(text("a")))), vec![vec![num(1), text("a")]]);
}

fn insert_through<S: basics::State>(s: &mut S, rows: Vec<Vec<DataType>>) {
    let mut batch: Vec<Record> = rows.into_iter().map(Record::Positive).collect();
    basics::State::process_records(s, &mut batch, None);
}

#[test]
fn state_capability_on_memory_state() {
    let mut s = MemoryState::new();
    basics::State::add_key(&mut s, &[0], None);
    assert!(basics::State::is_useful(&s));
    insert_through(&mut s, vec![vec![num(1), text("a")], vec![num(2), text("b")]]);
    assert_eq!(basics::State::rows(&s), 2);
    assert_eq!(basics::State::keys(&s), vec![vec![0]]);
    match basics::State::lookup(&s, &[0], &key1(num(2))) {
        LookupResult::Found(rs) => assert_eq!(rs.to_rows(), vec![vec![num(2), text("b")]]),
        LookupResult::Missing => panic!("unexpected hole"),
    }
    let (_, keys, _) = basics::State::evict_random_keys(&mut s, 1);
    assert_eq!(keys, vec![vec![num(1)]]);
    assert_eq!(basics::State::cloned_records(&s), vec![vec![num(2), text("b")]]);
}
