use rgvg::{
    locate_entry, parse_u32, store_encode, store_read, text_entry, text_entry_line, CgVgError,
};

fn records() -> Vec<(String, u32)> {
    vec![
        ("src/main.rs".to_string(), 12),
        ("docs/a b.md".to_string(), 1),
        ("é/ü.txt".to_string(), 4_000_000_000),
    ]
}

#[test]
fn store_round_trip() {
    let recs = records();
    let (data, index) = store_encode(&recs).unwrap();
    for (i, rec) in recs.iter().enumerate() {
        assert_eq!(Ok(rec.clone()), store_read(i as u32, &index, &data));
    }
    assert_eq!(
        Err(CgVgError::LoadIndexOob(3, 3)),
        store_read(3, &index, &data)
    );
}

#[test]
fn store_layout_is_fixed() {
    let (data, index) = store_encode(&vec![("ab".to_string(), 7)]).unwrap();
    assert_eq!(
        vec![2, 0, 0, 0, 0, 0, 0, 0, b'a', b'b', 7, 0, 0, 0],
        data
    );
    assert_eq!(
        vec![1, 0, 0, 0, 0, 0, 0, 0, 14, 0, 0, 0, 0, 0, 0, 0],
        index
    );
}

#[test]
fn store_empty() {
    let (data, index) = store_encode(&vec![]).unwrap();
    assert!(data.is_empty());
    assert_eq!(Err(CgVgError::LoadIndexOob(0, 0)), store_read(0, &index, &data));
}

#[test]
fn store_corrupt_index() {
    let (data, index) = store_encode(&records()).unwrap();
    assert_eq!(Err(CgVgError::CorruptIndex), store_read(0, &index[..3], &data));
    assert_eq!(Err(CgVgError::CorruptIndex), store_read(2, &index, &data[..10]));
}

#[test]
fn locate_entry_windows() {
    let offsets = vec![5usize, 9, 9, 20];
    assert_eq!(Ok((0, 5)), locate_entry(0, &offsets, 20));
    assert_eq!(Ok((5, 9)), locate_entry(1, &offsets, 20));
    assert_eq!(Ok((9, 9)), locate_entry(2, &offsets, 20));
    assert_eq!(Err(CgVgError::CorruptIndex), locate_entry(3, &offsets, 19));
    assert_eq!(Err(CgVgError::LoadIndexOob(4, 4)), locate_entry(4, &offsets, 20));
    assert_eq!(Err(CgVgError::CorruptIndex), locate_entry(1, &vec![5, 3], 20));
}

#[test]
fn text_store_lines() {
    assert_eq!("12 src/main.rs", text_entry_line(&"src/main.rs".to_string(), 12));
    let lines: Vec<String> = records()
        .iter()
        .map(|(p, l)| text_entry_line(p, *l))
        .collect();
    for (i, rec) in records().iter().enumerate() {
        assert_eq!(Ok(rec.clone()), text_entry(i as u32, &lines));
    }
    assert_eq!(Err(CgVgError::LoadIndexOob(3, 3)), text_entry(3, &lines));
}

#[test]
fn text_store_bad_lines() {
    let lines = vec![
        "nospace".to_string(),
        "x12 a".to_string(),
        " a".to_string(),
        "99999999999 a".to_string(),
        "+7 a b".to_string(),
    ];
    assert_eq!(Err(CgVgError::LoadIndexFormat), text_entry(0, &lines));
    assert_eq!(Err(CgVgError::LoadIndexFormat), text_entry(1, &lines));
    assert_eq!(Err(CgVgError::LoadIndexFormat), text_entry(2, &lines));
    assert_eq!(Err(CgVgError::LoadIndexFormat), text_entry(3, &lines));
    assert_eq!(Ok(("a b".to_string(), 7)), text_entry(4, &lines));
}

#[test]
fn parse_u32_values() {
    let p = |s: &str| parse_u32(&s.chars().collect::<Vec<char>>());
    assert_eq!(Some(0), p("0"));
    assert_eq!(Some(42), p("+42"));
    assert_eq!(Some(u32::MAX), p("4294967295"));
    assert_eq!(None, p("4294967296"));
    assert_eq!(None, p(""));
    assert_eq!(None, p("+"));
    assert_eq!(None, p("-1"));
    assert_eq!(None, p("1a"));
}
