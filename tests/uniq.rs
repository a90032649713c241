use xsv_core::record::Record;
use xsv_core::select::{resolve, ColumnRef, SelectError, Selection};
use xsv_core::uniq::{calculate_hash, join_fields, uniq, Deduper, KeySet, Stream};

fn rec(fields: &[&str]) -> Record {
    Record::new(fields.iter().map(|f| f.as_bytes().to_vec()).collect())
}

fn name(s: &str) -> ColumnRef {
    ColumnRef::Name(s.as_bytes().to_vec())
}

fn text(out: &[Record]) -> Vec<Vec<String>> {
    out.iter()
        .map(|r| r.fields.iter().map(|f| String::from_utf8(f.clone()).unwrap()).collect())
        .collect()
}

fn stream(header: &[&str], refs: Vec<ColumnRef>, rows: &[&[&str]]) -> Stream {
    let h = rec(header);
    let selection = resolve(&h, &refs).unwrap();
    Stream { header: Some(h), selection, rows: rows.iter().map(|r| rec(r)).collect() }
}

fn whole(header: &[&str], rows: &[&[&str]]) -> Stream {
    let h = rec(header);
    let selection = Selection::all(h.len());
    Stream { header: Some(h), selection, rows: rows.iter().map(|r| rec(r)).collect() }
}

#[test]
fn same_row_in_two_streams() {
    let streams = vec![whole(&["a", "b"], &[&["1", "2"]]), whole(&["a", "b"], &[&["1", "2"]])];
    let out = uniq(&streams);
    assert_eq!(text(&out), vec![vec!["a", "b"], vec!["1", "2"]]);
}

#[test]
fn selected_column_decides() {
    let streams = vec![stream(&["a", "b"], vec![name("a")], &[&["1", "2"], &["1", "3"]])];
    let out = uniq(&streams);
    assert_eq!(text(&out), vec![vec!["a", "b"], vec!["1", "2"]]);
}

#[test]
fn first_occurrences_in_order() {
    let rows: &[&[&str]] = &[&["x", "1"], &["y", "2"], &["x", "3"], &["z", "4"], &["y", "5"]];
    let streams = vec![stream(&["k", "v"], vec![name("k")], rows)];
    let out = uniq(&streams);
    assert_eq!(
        text(&out),
        vec![vec!["k", "v"], vec!["x", "1"], vec!["y", "2"], vec!["z", "4"]]
    );
}

#[test]
fn streams_with_different_column_order() {
    let s0 = stream(&["a", "b"], vec![name("a")], &[&["1", "p"], &["2", "q"]]);
    let s1 = stream(&["b", "a"], vec![name("a")], &[&["r", "2"], &["s", "3"]]);
    let out = uniq(&vec![s0, s1]);
    assert_eq!(
        text(&out),
        vec![vec!["a", "b"], vec!["1", "p"], vec!["2", "q"], vec!["s", "3"]]
    );
}

#[test]
fn output_not_longer_than_input() {
    let distinct = vec![whole(&["a"], &[&["1"], &["2"], &["3"]])];
    assert_eq!(uniq(&distinct).len(), 1 + 3);
    let repeated = vec![whole(&["a"], &[&["1"], &["2"], &["1"]])];
    assert_eq!(uniq(&repeated).len(), 1 + 2);
}

#[test]
fn deduplicating_output_again_changes_nothing() {
    let rows: &[&[&str]] = &[&["x", "1"], &["y", "2"], &["x", "3"], &["y", "2"]];
    let first = uniq(&vec![stream(&["k", "v"], vec![name("k")], rows)]);
    let h = first[0].duplicate();
    let sel = resolve(&h, &vec![name("k")]).unwrap();
    let again = uniq(&vec![Stream {
        header: Some(h),
        selection: sel,
        rows: first[1..].iter().map(|r| r.duplicate()).collect(),
    }]);
    assert_eq!(text(&again), text(&first));
}

#[test]
fn no_streams_no_output() {
    assert!(uniq(&Vec::new()).is_empty());
}

#[test]
fn headerless_streams() {
    let s = Stream {
        header: None,
        selection: Selection::all(1),
        rows: vec![rec(&["1"]), rec(&["1"]), rec(&["2"])],
    };
    assert_eq!(text(&uniq(&vec![s])), vec![vec!["1"], vec!["2"]]);
}

#[test]
fn field_boundaries_are_kept_apart() {
    let rows: &[&[&str]] = &[&["ab", "c"], &["a", "bc"]];
    let out = uniq(&vec![whole(&["x", "y"], rows)]);
    assert_eq!(out.len(), 3);
}

#[test]
fn deduper_decisions() {
    let mut d = Deduper::new();
    assert!(d.begin_stream());
    let sel = Selection::all(2);
    assert!(d.offer(&rec(&["1", "2"]), &sel));
    assert!(!d.offer(&rec(&["1", "2"]), &sel));
    assert!(!d.begin_stream());
    assert!(d.offer(&rec(&["1", "3"]), &sel));
}

#[test]
fn key_set_membership() {
    let mut s = KeySet::new();
    assert!(s.insert(vec![b"a".to_vec()]));
    assert!(s.insert(vec![b"a".to_vec(), b"b".to_vec()]));
    assert!(!s.insert(vec![b"a".to_vec()]));
    assert!(s.insert(vec![]));
    assert!(!s.insert(vec![]));
}

#[test]
fn hash_depends_on_bytes() {
    assert_eq!(calculate_hash(b"1\x002\x00"), calculate_hash(b"1\x002\x00"));
    assert_ne!(calculate_hash(b"1\x002\x00"), calculate_hash(b"1\x003\x00"));
    let mut h = std::collections::hash_map::DefaultHasher::new();
    std::hash::Hasher::write(&mut h, b"abc");
    assert_eq!(calculate_hash(b"abc"), std::hash::Hasher::finish(&h));
}

#[test]
fn joined_fields() {
    assert_eq!(join_fields(&vec![b"1".to_vec(), b"23".to_vec()]), b"1\x0023\x00".to_vec());
    assert_eq!(join_fields(&vec![]), Vec::<u8>::new());
}

#[test]
fn resolve_names_and_positions() {
    let h = rec(&["a", "b", "a"]);
    let sel = resolve(&h, &vec![name("b"), ColumnRef::Index(0), name("a"), ColumnRef::Index(2)])
        .unwrap();
    assert_eq!(sel.indices, vec![1, 0, 0, 2]);
    let projected = sel.project(&rec(&["x", "y", "z"]));
    assert_eq!(projected, vec![b"y".to_vec(), b"x".to_vec(), b"x".to_vec(), b"z".to_vec()]);
}

#[test]
fn unknown_column() {
    let h = rec(&["a", "b"]);
    match resolve(&h, &vec![name("a"), name("c"), ColumnRef::Index(9)]) {
        Err(SelectError::UnknownColumn(n)) => assert_eq!(n, b"c".to_vec()),
        other => panic!("unexpected: {:?}", other.is_ok()),
    }
}

#[test]
fn position_out_of_range() {
    let h = rec(&["a", "b"]);
    match resolve(&h, &vec![ColumnRef::Index(2), name("zz")]) {
        Err(SelectError::InvalidRange(i)) => assert_eq!(i, 2),
        other => panic!("unexpected: {:?}", other.is_ok()),
    }
}

#[test]
fn selection_width() {
    let sel = Selection::all(3);
    assert_eq!(sel.indices, vec![0, 1, 2]);
    assert!(sel.fits_width(3));
    assert!(!sel.fits_width(2));
    assert_eq!(Selection::all(0).len(), 0);
}
