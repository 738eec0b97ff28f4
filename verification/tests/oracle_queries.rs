use continuation_engine::{fixture_channel, respond, DataTable, FieldElement, QueryError};

fn fe(n: u64) -> FieldElement {
    FieldElement::from_u64(n)
}

fn table_with(channel: u64, values: &[u64]) -> DataTable {
    let mut t = DataTable::new();
    let data: Vec<FieldElement> = values.iter().map(|v| fe(*v)).collect();
    t.set_channel(fe(channel), data);
    t
}

#[test]
fn data_query_returns_each_element() {
    let t = table_with(7, &[10, 20, 30]);
    let mut out = Vec::new();
    for (i, expected) in [(0u64, 10u64), (1, 20), (2, 30)] {
        let q = format!("\"data\", {}, 7", i).into_bytes();
        let r = respond(&q, &t, &mut out).unwrap();
        assert_eq!(r, Some(fe(expected)));
    }
    assert!(out.is_empty());
}

#[test]
fn data_query_past_the_end_is_out_of_bounds() {
    let t = table_with(7, &[10, 20, 30]);
    let mut out = Vec::new();
    let e = respond(&b"\"data\", 3, 7".to_vec(), &t, &mut out).unwrap_err();
    assert_eq!(
        e,
        QueryError::IndexOutOfBounds { name: b"data".to_vec(), index: 3, len: 3 }
    );
    let e = respond(&b"\"data\", 700, 7".to_vec(), &t, &mut out).unwrap_err();
    assert_eq!(
        e,
        QueryError::IndexOutOfBounds { name: b"data".to_vec(), index: 700, len: 3 }
    );
}

#[test]
fn unknown_channel_is_reported() {
    let t = table_with(7, &[10]);
    let mut out = Vec::new();
    let e = respond(&b"\"data\", 0, 9".to_vec(), &t, &mut out).unwrap_err();
    assert_eq!(e, QueryError::UnknownChannel { channel: 9 });
}

#[test]
fn input_query_reads_the_zero_channel() {
    let t = table_with(0, &[42, 43]);
    let mut out = Vec::new();
    let r = respond(&b"\"input\", 0".to_vec(), &t, &mut out).unwrap();
    assert_eq!(r, Some(fe(42)));
    let r = respond(&b"\"input\", 1".to_vec(), &t, &mut out).unwrap();
    assert_eq!(r, Some(fe(43)));
    let e = respond(&b"\"input\", 2".to_vec(), &t, &mut out).unwrap_err();
    assert_eq!(
        e,
        QueryError::IndexOutOfBounds { name: b"input".to_vec(), index: 2, len: 2 }
    );
}

#[test]
fn print_char_answers_zero_and_emits_each_time() {
    let t = DataTable::new();
    let mut out = Vec::new();
    let q = b"\"print_char\", 65".to_vec();
    let r = respond(&q, &t, &mut out).unwrap();
    assert_eq!(r, Some(fe(0)));
    assert_eq!(out, vec![65]);
    // A second call emits again: the dispatcher caches nothing, so the
    // engine must service each call site at most once per cycle.
    let r = respond(&q, &t, &mut out).unwrap();
    assert_eq!(r, Some(fe(0)));
    assert_eq!(out, vec![65, 65]);
}

#[test]
fn print_char_codes_cover_a_byte() {
    let t = DataTable::new();
    let mut out = Vec::new();
    assert_eq!(respond(&b"\"print_char\", 0".to_vec(), &t, &mut out).unwrap(), Some(fe(0)));
    assert_eq!(respond(&b"\"print_char\", 255".to_vec(), &t, &mut out).unwrap(), Some(fe(0)));
    assert_eq!(out, vec![0, 255]);
    let e = respond(&b"\"print_char\", 256".to_vec(), &t, &mut out).unwrap_err();
    assert!(matches!(e, QueryError::Parse(_)));
    assert_eq!(out, vec![0, 255]);
}

#[test]
fn hint_round_trips() {
    let t = DataTable::new();
    let mut out = Vec::new();
    let r = respond(&b"\"hint\", 0x62".to_vec(), &t, &mut out).unwrap();
    let v = r.unwrap();
    assert_eq!(v.val(), 0x62);
    // Re-encode the answered element canonically and ask again: the same
    // canonical field value comes back.
    let mut again = b"\"hint\", ".to_vec();
    again.extend_from_slice(&v.to_decimal());
    let r2 = respond(&again, &t, &mut out).unwrap();
    assert_eq!(r2, Some(v));
    assert!(out.is_empty());
}

#[test]
fn unsupported_tag_fails_fast() {
    let t = DataTable::new();
    let mut out = Vec::new();
    let e = respond(&b"\"frobnicate\", 1".to_vec(), &t, &mut out).unwrap_err();
    assert_eq!(e, QueryError::Unsupported(b"\"frobnicate\", 1".to_vec()));
}

#[test]
fn wrong_argument_count_fails_fast() {
    let t = table_with(7, &[10]);
    let mut out = Vec::new();
    assert!(matches!(
        respond(&b"\"data\", 1".to_vec(), &t, &mut out),
        Err(QueryError::Unsupported(_))
    ));
    assert!(matches!(
        respond(&b"\"hint\", 1, 2".to_vec(), &t, &mut out),
        Err(QueryError::Unsupported(_))
    ));
}

#[test]
fn unquoted_tag_is_malformed() {
    let t = DataTable::new();
    let mut out = Vec::new();
    assert!(matches!(
        respond(&b"data, 1, 7".to_vec(), &t, &mut out),
        Err(QueryError::Parse(_))
    ));
    assert!(matches!(respond(&b"".to_vec(), &t, &mut out), Err(QueryError::Parse(_))));
}

#[test]
fn malformed_argument_is_reported() {
    let t = table_with(7, &[10]);
    let mut out = Vec::new();
    assert!(matches!(
        respond(&b"\"data\", x, 7".to_vec(), &t, &mut out),
        Err(QueryError::Parse(_))
    ));
    assert!(matches!(
        respond(&b"\"hint\", 1q".to_vec(), &t, &mut out),
        Err(QueryError::Parse(_))
    ));
}

#[test]
fn spaces_around_tokens_are_tolerated() {
    let t = table_with(7, &[10, 20]);
    let mut out = Vec::new();
    let r = respond(&b"  \"data\" ,  1 ,  7  ".to_vec(), &t, &mut out).unwrap();
    assert_eq!(r, Some(fe(20)));
}

#[test]
fn three_byte_fixture_end_to_end() {
    // The fixture convention: raw bytes behind a leading length-count
    // element, so the channel holds [3, 0x61, 0x62, 0x63] and the byte 0x62
    // sits at channel index 2.
    let data = fixture_channel(&vec![0x61, 0x62, 0x63]);
    assert_eq!(data.len(), 4);
    assert_eq!(data[0], fe(3));
    let mut t = DataTable::new();
    t.set_channel(fe(42), data);
    let mut out = Vec::new();
    assert_eq!(respond(&b"\"data\", 0, 42".to_vec(), &t, &mut out).unwrap(), Some(fe(3)));
    assert_eq!(respond(&b"\"data\", 1, 42".to_vec(), &t, &mut out).unwrap(), Some(fe(0x61)));
    assert_eq!(respond(&b"\"data\", 2, 42".to_vec(), &t, &mut out).unwrap(), Some(fe(0x62)));
    let e = respond(&b"\"data\", 4, 42".to_vec(), &t, &mut out).unwrap_err();
    assert_eq!(
        e,
        QueryError::IndexOutOfBounds { name: b"data".to_vec(), index: 4, len: 4 }
    );
}

#[test]
fn channel_id_accepts_a_hex_literal() {
    let t = table_with(42, &[7, 8]);
    let mut out = Vec::new();
    let r = respond(&b"\"data\", 1, 0x2a".to_vec(), &t, &mut out).unwrap();
    assert_eq!(r, Some(fe(8)));
}

#[test]
fn empty_argument_is_malformed() {
    let t = table_with(7, &[10]);
    let mut out = Vec::new();
    assert!(matches!(
        respond(&b"\"data\", , 7".to_vec(), &t, &mut out),
        Err(QueryError::Parse(_))
    ));
    assert!(matches!(
        respond(&b"\"hint\", 0x".to_vec(), &t, &mut out),
        Err(QueryError::Parse(_))
    ));
}

#[test]
fn replacing_a_channel_leaves_others_alone() {
    let mut t = DataTable::new();
    t.set_channel(fe(1), vec![fe(11)]);
    t.set_channel(fe(2), vec![fe(22)]);
    t.set_channel(fe(1), vec![fe(33), fe(44)]);
    let mut out = Vec::new();
    assert_eq!(respond(&b"\"data\", 1, 1".to_vec(), &t, &mut out).unwrap(), Some(fe(44)));
    assert_eq!(respond(&b"\"data\", 0, 2".to_vec(), &t, &mut out).unwrap(), Some(fe(22)));
}
