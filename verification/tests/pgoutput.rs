use nabla::pgoutput::{decode, Change, ColumnValue, Decoder, Message, Reader};

fn cstr(s: &str) -> Vec<u8> {
    let mut v = s.as_bytes().to_vec();
    v.push(0);
    v
}

fn relation(id: u32, typid: u32) -> Vec<u8> {
    let mut rel = vec![b'R'];
    rel.extend(id.to_be_bytes());
    rel.extend(cstr("public"));
    rel.extend(cstr("orders"));
    rel.push(b'd');
    rel.extend(2i16.to_be_bytes());
    rel.push(1);
    rel.extend(cstr("id"));
    rel.extend(20u32.to_be_bytes());
    rel.extend((-1i32).to_be_bytes());
    rel.push(0);
    rel.extend(cstr("k"));
    rel.extend(typid.to_be_bytes());
    rel.extend((-1i32).to_be_bytes());
    rel
}

fn begin(final_lsn: u64, xid: u32) -> Vec<u8> {
    let mut m = vec![b'B'];
    m.extend(final_lsn.to_be_bytes());
    m.extend(0u64.to_be_bytes());
    m.extend(xid.to_be_bytes());
    m
}

fn commit(commit_lsn: u64, end_lsn: u64) -> Vec<u8> {
    let mut m = vec![b'C', 0];
    m.extend(commit_lsn.to_be_bytes());
    m.extend(end_lsn.to_be_bytes());
    m.extend(0u64.to_be_bytes());
    m
}

fn cells(values: &[Option<&str>]) -> Vec<u8> {
    let mut m = Vec::new();
    m.extend((values.len() as i16).to_be_bytes());
    for v in values {
        match v {
            Some(s) => {
                m.push(b't');
                m.extend((s.len() as i32).to_be_bytes());
                m.extend(s.as_bytes());
            }
            None => m.push(b'n'),
        }
    }
    m
}

fn insert(relid: u32, values: &[Option<&str>]) -> Vec<u8> {
    let mut m = vec![b'I'];
    m.extend(relid.to_be_bytes());
    m.push(b'N');
    m.extend(cells(values));
    m
}

#[test]
fn decodes_relation_and_insert() {
    let mut rel = vec![b'R'];
    rel.extend(16u32.to_be_bytes());
    rel.extend(cstr("public"));
    rel.extend(cstr("orders"));
    rel.push(b'd');
    rel.extend(2i16.to_be_bytes());
    rel.push(1);
    rel.extend(cstr("id"));
    rel.extend(20u32.to_be_bytes());
    rel.extend((-1i32).to_be_bytes());
    rel.push(0);
    rel.extend(cstr("k"));
    rel.extend(23u32.to_be_bytes());
    rel.extend((-1i32).to_be_bytes());
    match decode(&rel).unwrap() {
        Message::Relation(r) => {
            assert_eq!(r.name, "orders");
            assert!(r.columns[0].is_key);
            assert_eq!(r.columns[1].typid, 23);
        }
        other => panic!("{other:?}"),
    }

    let mut ins = vec![b'I'];
    ins.extend(16u32.to_be_bytes());
    ins.push(b'N');
    ins.extend(2i16.to_be_bytes());
    ins.push(b't');
    ins.extend(2i32.to_be_bytes());
    ins.extend(b"42");
    ins.push(b'n');
    match decode(&ins).unwrap() {
        Message::Insert { relid, new } => {
            assert_eq!(relid, 16);
            assert_eq!(new, vec![ColumnValue::Text("42".into()), ColumnValue::Null]);
        }
        other => panic!("{other:?}"),
    }
}

#[test]
fn decodes_negative_modifiers() {
    match decode(&relation(7, 23)).unwrap() {
        Message::Relation(r) => {
            assert_eq!(r.id, 7);
            assert_eq!(r.namespace, "public");
            assert_eq!(r.replident, b'd');
            assert_eq!(r.columns[0].typmod, -1);
            assert!(!r.columns[1].is_key);
            assert_eq!(r.columns[1].resolved_type, None);
        }
        other => panic!("{other:?}"),
    }
}

#[test]
fn decodes_updates_with_and_without_old_rows() {
    let mut update = vec![b'U'];
    update.extend(16u32.to_be_bytes());
    update.push(b'O');
    update.extend(cells(&[Some("1")]));
    update.push(b'N');
    update.extend(1i16.to_be_bytes());
    update.push(b'u');
    match decode(&update).unwrap() {
        Message::Update { relid, old, new } => {
            assert_eq!(relid, 16);
            let (kind, row) = old.unwrap();
            assert_eq!(kind, b'O');
            assert_eq!(row, vec![ColumnValue::Text("1".into())]);
            assert_eq!(new, vec![ColumnValue::Unchanged]);
        }
        other => panic!("{other:?}"),
    }

    let mut bare = vec![b'U'];
    bare.extend(16u32.to_be_bytes());
    bare.push(b'N');
    bare.extend(cells(&[None]));
    match decode(&bare).unwrap() {
        Message::Update { old, new, .. } => {
            assert!(old.is_none());
            assert_eq!(new, vec![ColumnValue::Null]);
        }
        other => panic!("{other:?}"),
    }
}

#[test]
fn decodes_deletes_and_truncates() {
    let mut delete = vec![b'D'];
    delete.extend(16u32.to_be_bytes());
    delete.push(b'K');
    delete.extend(cells(&[Some("9"), None]));
    match decode(&delete).unwrap() {
        Message::Delete { relid, key_kind, old } => {
            assert_eq!((relid, key_kind), (16, b'K'));
            assert_eq!(old, vec![ColumnValue::Text("9".into()), ColumnValue::Null]);
        }
        other => panic!("{other:?}"),
    }

    let mut truncate = vec![b'T'];
    truncate.extend(2i32.to_be_bytes());
    truncate.push(0);
    truncate.extend(16u32.to_be_bytes());
    truncate.extend(17u32.to_be_bytes());
    match decode(&truncate).unwrap() {
        Message::Truncate { relids } => assert_eq!(relids, vec![16, 17]),
        other => panic!("{other:?}"),
    }
}

#[test]
fn replaces_invalid_utf8() {
    let mut ins = vec![b'I'];
    ins.extend(16u32.to_be_bytes());
    ins.push(b'N');
    ins.extend(1i16.to_be_bytes());
    ins.push(b't');
    ins.extend(2i32.to_be_bytes());
    ins.extend([0xFFu8, b'a']);
    match decode(&ins).unwrap() {
        Message::Insert { new, .. } => assert_eq!(new, vec![ColumnValue::Text("\u{FFFD}a".into())]),
        other => panic!("{other:?}"),
    }
}

#[test]
fn reports_malformed_messages() {
    assert!(decode(&[]).is_err());
    assert!(decode(&[b'B', 0, 0]).is_err());
    assert!(decode(&[b'Z']).unwrap_err().starts_with("unknown pgoutput message kind "));
    let mut ins = vec![b'I'];
    ins.extend(16u32.to_be_bytes());
    ins.push(b'K');
    assert!(decode(&ins).unwrap_err().starts_with("insert message: expected 'N', got "));
    let mut del = vec![b'D'];
    del.extend(16u32.to_be_bytes());
    del.push(b'N');
    assert!(decode(&del).unwrap_err().starts_with("delete message: expected 'K' or 'O', got "));
    assert!(matches!(decode(&[b'O', 1, 2]).unwrap(), Message::Ignored(b'O')));
}

#[test]
fn groups_messages_into_transactions() {
    let mut decoder = Decoder::default();
    decoder.feed(&begin(100, 5)).unwrap();
    decoder.feed(&relation(16, 23)).unwrap();
    decoder.feed(&insert(16, &[Some("1"), None])).unwrap();
    assert!(decoder.has_incomplete());
    decoder.feed(&insert(16, &[Some("2"), Some("x")])).unwrap();
    decoder.feed(&commit(110, 120)).unwrap();
    assert!(!decoder.has_incomplete());
    let txs = decoder.take_complete();
    assert!(decoder.take_complete().is_empty());
    assert_eq!(txs.len(), 1);
    assert_eq!((txs[0].xid, txs[0].commit_lsn, txs[0].end_lsn), (5, 110, 120));
    assert_eq!(txs[0].changes.len(), 2);
    match &txs[0].changes[1] {
        Change::Insert { relid, new } => {
            assert_eq!(*relid, 16);
            assert_eq!(new[0], ColumnValue::Text("2".into()));
        }
        other => panic!("{other:?}"),
    }
}

#[test]
fn rejects_messages_out_of_place() {
    let mut decoder = Decoder::default();
    assert_eq!(decoder.feed(&insert(16, &[None])), Err("row change outside a transaction".to_string()));
    assert_eq!(decoder.feed(&commit(1, 2)), Err("COMMIT without BEGIN".to_string()));
    decoder.feed(&begin(1, 1)).unwrap();
    assert_eq!(decoder.feed(&begin(2, 2)), Err("BEGIN while a transaction is already open".to_string()));
    decoder.discard_incomplete();
    assert!(!decoder.has_incomplete());
    assert!(decoder.complete.is_empty());
}

#[test]
fn keeps_resolved_types_of_unchanged_columns() {
    let mut decoder = Decoder::default();
    decoder.feed(&relation(16, 23)).unwrap();
    for c in decoder.relations.get_mut(&16).unwrap().columns.iter_mut() {
        c.resolved_type = Some("t".to_string());
    }
    decoder.feed(&relation(16, 25)).unwrap();
    let rel = &decoder.relations[&16];
    assert_eq!(rel.columns[0].resolved_type, Some("t".to_string()));
    assert_eq!(rel.columns[1].resolved_type, None);
}

#[test]
fn rows_are_read_as_written_or_refused() {
    let mut row = 3i16.to_be_bytes().to_vec();
    row.extend([b'n', b'u', b't']);
    row.extend(2i32.to_be_bytes());
    row.extend("\u{e9}".as_bytes());
    let mut data = vec![9, 9];
    data.extend(&row);
    data.push(7);
    let mut reader = Reader { data: &data, pos: 2 };
    assert_eq!(
        reader.tuple(),
        Ok(vec![ColumnValue::Null, ColumnValue::Unchanged, ColumnValue::Text("\u{e9}".to_string())])
    );
    assert_eq!(reader.pos, 2 + row.len());
    for cut in 0..row.len() {
        assert!(Reader { data: &row[..cut], pos: 0 }.tuple().is_err());
    }
    row[3] = b'x';
    assert_eq!(Reader { data: &row, pos: 0 }.tuple(), Err("unknown tuple column tag 0x78".to_string()));
}
