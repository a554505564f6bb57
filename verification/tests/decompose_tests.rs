use sparser::decompose_ascii_rawfilters::decompose;

fn contains(hay: &[u8], needle: &[u8]) -> bool {
    if needle.is_empty() {
        return true;
    }
    if needle.len() > hay.len() {
        return false;
    }
    (0..=hay.len() - needle.len()).any(|i| &hay[i..i + needle.len()] == needle)
}

#[test]
fn test_decompose_sliding_windows() {
    let preds = vec![b"Donald Trump".to_vec()];
    let table = decompose(preds);
    let expected: Vec<&[u8]> = vec![
        b"Dona", b"onal", b"nald", b"ald ", b"ld T", b"d Tr", b" Tru", b"Trum", b"rump",
    ];
    assert_eq!(table.num_strings, 9);
    assert_eq!(table.region.len(), 9);
    for (i, e) in expected.iter().enumerate() {
        assert_eq!(&table.region[i][..], *e);
        assert_eq!(table.sources[i], 0);
    }
}

#[test]
fn test_decompose_short_predicate() {
    let preds = vec![b"ab".to_vec(), b"wxyz".to_vec()];
    let table = decompose(preds);
    assert_eq!(table.num_strings, 2);
    assert_eq!(&table.region[0][..], b"ab");
    assert_eq!(table.sources[0], 0);
    assert_eq!(&table.region[1][..], b"wxyz");
    assert_eq!(table.sources[1], 1);
}

#[test]
fn test_decompose_soundness() {
    // Every emitted raw filter is a substring of its source predicate.
    let preds = vec![b"alpha".to_vec(), b"be".to_vec(), b"gammagamma".to_vec()];
    let table = decompose(preds);
    assert_eq!(table.region.len(), table.sources.len());
    for i in 0..table.region.len() {
        let src = table.sources[i];
        assert!(src < table.strings.len());
        assert!(contains(&table.strings[src], &table.region[i]));
    }
}
