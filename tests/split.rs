use xsv_core::record::Record;
use xsv_core::split::{split, Chunk, SplitError, Splitter, Step};

fn rec(fields: &[&str]) -> Record {
    Record::new(fields.iter().map(|f| f.as_bytes().to_vec()).collect())
}

fn rows(n: usize) -> Vec<Record> {
    (0..n).map(|i| rec(&[&format!("r{}", i)])).collect()
}

fn fields_of(lines: &[Record]) -> Vec<Vec<Vec<u8>>> {
    lines.iter().map(|r| r.fields.clone()).collect()
}

fn data_lens(chunks: &[Chunk], with_header: bool) -> Vec<usize> {
    chunks
        .iter()
        .map(|c| c.lines.len() - if with_header { 1 } else { 0 })
        .collect()
}

#[test]
fn three_records_in_chunks_of_two() {
    let input = rows(3);
    let chunks = split(&input, None, 2).unwrap();
    assert_eq!(chunks.len(), 2);
    assert_eq!(chunks[0].start, 0);
    assert_eq!(fields_of(&chunks[0].lines), fields_of(&input[0..2]));
    assert_eq!(chunks[1].start, 2);
    assert_eq!(fields_of(&chunks[1].lines), fields_of(&input[2..3]));
}

#[test]
fn empty_input_makes_no_chunk() {
    for size in [1usize, 2, 500] {
        let chunks = split(&Vec::new(), None, size).unwrap();
        assert!(chunks.is_empty());
        let h = rec(&["a", "b"]);
        let chunks = split(&Vec::new(), Some(&h), size).unwrap();
        assert!(chunks.is_empty());
    }
}

#[test]
fn zero_size_is_refused() {
    assert!(matches!(split(&rows(3), None, 0), Err(SplitError::ZeroSize)));
    assert!(matches!(Splitter::new(0), Err(SplitError::ZeroSize)));
}

#[test]
fn chunk_counts_and_sizes() {
    for len in 0usize..12 {
        for size in 1usize..6 {
            let chunks = split(&rows(len), None, size).unwrap();
            let expected = (len + size - 1) / size;
            assert_eq!(chunks.len(), expected);
            let lens = data_lens(&chunks, false);
            for (k, l) in lens.iter().enumerate() {
                assert_eq!(chunks[k].start, k * size);
                if k + 1 < lens.len() {
                    assert_eq!(*l, size);
                } else if len % size == 0 {
                    assert_eq!(*l, size);
                } else {
                    assert_eq!(*l, len % size);
                }
            }
        }
    }
}

#[test]
fn seven_records_in_chunks_of_three() {
    let chunks = split(&rows(7), None, 3).unwrap();
    assert_eq!(data_lens(&chunks, false), vec![3, 3, 1]);
    let starts: Vec<usize> = chunks.iter().map(|c| c.start).collect();
    assert_eq!(starts, vec![0, 3, 6]);
}

#[test]
fn header_leads_every_chunk() {
    let h = rec(&["name", "n"]);
    let input = rows(5);
    let chunks = split(&input, Some(&h), 2).unwrap();
    assert_eq!(chunks.len(), 3);
    assert_eq!(data_lens(&chunks, true), vec![2, 2, 1]);
    for c in &chunks {
        assert_eq!(c.lines[0].fields, h.fields);
        let headers = c.lines.iter().filter(|r| r.fields == h.fields).count();
        assert_eq!(headers, 1);
    }
    assert_eq!(fields_of(&chunks[2].lines[1..]), fields_of(&input[4..5]));
}

#[test]
fn splitter_steps() {
    let mut sp = Splitter::new(2).unwrap();
    assert!(!sp.finish());
    assert_eq!(sp.next_record(), Step::Open(0));
    assert!(sp.finish());
    assert_eq!(sp.next_record(), Step::Write);
    assert_eq!(sp.next_record(), Step::Rotate(2));
    assert_eq!(sp.next_record(), Step::Write);
    assert_eq!(sp.next_record(), Step::Rotate(4));
    assert!(sp.finish());
}
