use bucket_operate::{
    AddBucketOperate, AddKeyOperate, DeleteKeyOperate, Operate, OperateSet, ReadOperate,
    RenameKeyOperate, SchemaDecodeError, StepIntoOperate,
};

fn number(v: u64) -> Vec<u8> {
    v.to_le_bytes().to_vec()
}

fn text(t: &str) -> Vec<u8> {
    let mut out = number(t.len() as u64);
    out.extend_from_slice(t.as_bytes());
    out
}

fn value(d: &[u8]) -> Vec<u8> {
    let mut out = number(d.len() as u64);
    out.extend_from_slice(d);
    out
}

fn join(parts: &[Vec<u8>]) -> Vec<u8> {
    let mut out = Vec::new();
    for p in parts {
        out.extend_from_slice(p);
    }
    out
}

fn deep_set() -> OperateSet {
    let level3 = OperateSet::new()
        .add_operate(Operate::AddKey(
            AddKeyOperate::new().add_key("k1", vec![1, 2, 3]).add_key("k2", vec![]),
        ))
        .add_operate(Operate::Read(ReadOperate::new().add_key("k1").set_buf(0x1000, 64)));
    let level2 = OperateSet::new()
        .add_operate(Operate::StepInto(StepIntoOperate::new("c", Some(Box::new(level3)))))
        .add_operate(Operate::DeleteKey(DeleteKeyOperate::new().add_key("x").add_key("y")));
    let level1 = OperateSet::new()
        .add_operate(Operate::RenameKey(RenameKeyOperate::new("old", "new")))
        .add_operate(Operate::AddBucket(AddBucketOperate::new("b", Some(Box::new(level2)))))
        .add_operate(Operate::AddBucket(AddBucketOperate::new("empty", None)));
    OperateSet::new()
        .add_operate(Operate::AddBucket(AddBucketOperate::new("a", Some(Box::new(level1)))))
        .add_operate(Operate::StepInto(StepIntoOperate::new("a", None)))
}

#[test]
fn round_trip_of_a_deep_tree() {
    let set = deep_set();
    let bytes = set.encode();
    let back = OperateSet::decode(&bytes).unwrap();
    assert_eq!(back, deep_set());
    assert_eq!(back.encode(), bytes);
}

#[test]
fn round_trip_keeps_operate_order() {
    let set = OperateSet::new()
        .add_operate(Operate::DeleteKey(DeleteKeyOperate::new().add_key("b").add_key("a")))
        .add_operate(Operate::Read(ReadOperate::new().add_key("z").add_key("y").set_buf(8, 16)))
        .add_operate(Operate::DeleteKey(DeleteKeyOperate::new()));
    let back = OperateSet::decode(&set.encode()).unwrap();
    assert_eq!(back.operate.len(), 3);
    match &back.operate[0] {
        Operate::DeleteKey(d) => assert_eq!(d.keys, vec!["b".to_string(), "a".to_string()]),
        other => panic!("unexpected operate {:?}", other),
    }
    match &back.operate[1] {
        Operate::Read(r) => {
            assert_eq!(r.keys, vec!["z".to_string(), "y".to_string()]);
            assert_eq!(r.buf_addr, 8);
            assert_eq!(r.buf_size, 16);
        }
        other => panic!("unexpected operate {:?}", other),
    }
    match &back.operate[2] {
        Operate::DeleteKey(d) => assert!(d.keys.is_empty()),
        other => panic!("unexpected operate {:?}", other),
    }
}

#[test]
fn round_trip_keeps_nested_set_presence() {
    let set = OperateSet::new()
        .add_operate(Operate::AddBucket(AddBucketOperate::new("none", None)))
        .add_operate(Operate::AddBucket(AddBucketOperate::new(
            "some",
            Some(Box::new(OperateSet::new())),
        )))
        .add_operate(Operate::StepInto(StepIntoOperate::new("none", None)))
        .add_operate(Operate::StepInto(StepIntoOperate::new(
            "some",
            Some(Box::new(OperateSet::new())),
        )));
    let back = OperateSet::decode(&set.encode()).unwrap();
    match &back.operate[0] {
        Operate::AddBucket(b) => assert!(b.other.is_none()),
        other => panic!("unexpected operate {:?}", other),
    }
    match &back.operate[1] {
        Operate::AddBucket(b) => assert_eq!(b.other, Some(Box::new(OperateSet::new()))),
        other => panic!("unexpected operate {:?}", other),
    }
    match &back.operate[2] {
        Operate::StepInto(s) => assert!(s.other.is_none()),
        other => panic!("unexpected operate {:?}", other),
    }
    match &back.operate[3] {
        Operate::StepInto(s) => assert_eq!(s.other, Some(Box::new(OperateSet::new()))),
        other => panic!("unexpected operate {:?}", other),
    }
}

#[test]
fn add_bucket_attached_set_round_trips() {
    let mut bucket = AddBucketOperate::new("b", None);
    bucket.add_other(Box::new(
        OperateSet::new().add_operate(Operate::DeleteKey(DeleteKeyOperate::new().add_key("k"))),
    ));
    let set = OperateSet::new().add_operate(Operate::AddBucket(bucket));
    let back = OperateSet::decode(&set.encode()).unwrap();
    let expected_inner =
        OperateSet::new().add_operate(Operate::DeleteKey(DeleteKeyOperate::new().add_key("k")));
    match &back.operate[0] {
        Operate::AddBucket(b) => {
            assert_eq!(b.key, "b");
            assert_eq!(b.other, Some(Box::new(expected_inner)));
        }
        other => panic!("unexpected operate {:?}", other),
    }
}

#[test]
fn empty_set_is_eight_zero_bytes() {
    let bytes = OperateSet::new().encode();
    assert_eq!(bytes, vec![0u8; 8]);
    let back = OperateSet::decode(&bytes).unwrap();
    assert!(back.operate.is_empty());
}

#[test]
fn rename_key_byte_form() {
    let set = OperateSet::new().add_operate(Operate::RenameKey(RenameKeyOperate::new("a", "bc")));
    let expected = join(&[number(1), vec![0], text("a"), text("bc")]);
    assert_eq!(set.encode(), expected);
    assert_eq!(
        expected,
        vec![
            1, 0, 0, 0, 0, 0, 0, 0, 0, 1, 0, 0, 0, 0, 0, 0, 0, 0x61, 2, 0, 0, 0, 0, 0, 0, 0, 0x62,
            0x63
        ]
    );
    assert_eq!(OperateSet::decode(&expected).unwrap(), set);
}

#[test]
fn add_key_byte_form() {
    let set = OperateSet::new().add_operate(Operate::AddKey(
        AddKeyOperate::new().add_key("k", vec![9, 8]).add_key("l", vec![]),
    ));
    let expected = join(&[
        number(1),
        vec![1],
        number(2),
        text("k"),
        value(&[9, 8]),
        text("l"),
        value(&[]),
    ]);
    assert_eq!(set.encode(), expected);
    assert_eq!(OperateSet::decode(&expected).unwrap(), set);
}

#[test]
fn add_bucket_byte_form() {
    let set = OperateSet::new()
        .add_operate(Operate::AddBucket(AddBucketOperate::new("b", None)))
        .add_operate(Operate::AddBucket(AddBucketOperate::new(
            "c",
            Some(Box::new(OperateSet::new())),
        )));
    let expected = join(&[
        number(2),
        vec![2],
        text("b"),
        vec![0],
        vec![2],
        text("c"),
        vec![1],
        number(0),
    ]);
    assert_eq!(set.encode(), expected);
    assert_eq!(OperateSet::decode(&expected).unwrap(), set);
}

#[test]
fn delete_key_byte_form() {
    let set = OperateSet::new()
        .add_operate(Operate::DeleteKey(DeleteKeyOperate::new().add_key("a").add_key("b")));
    let expected = join(&[number(1), vec![3], number(2), text("a"), text("b")]);
    assert_eq!(set.encode(), expected);
    assert_eq!(OperateSet::decode(&expected).unwrap(), set);
}

#[test]
fn read_byte_form() {
    let set = OperateSet::new()
        .add_operate(Operate::Read(ReadOperate::new().add_key("x").set_buf(0x1000, 64)));
    let expected = join(&[
        number(1),
        vec![4],
        number(1),
        text("x"),
        vec![0, 0x10, 0, 0, 0, 0, 0, 0],
        vec![64, 0, 0, 0, 0, 0, 0, 0],
    ]);
    assert_eq!(set.encode(), expected);
    assert_eq!(OperateSet::decode(&expected).unwrap(), set);
}

#[test]
fn step_into_byte_form() {
    let inner = OperateSet::new().add_operate(Operate::DeleteKey(DeleteKeyOperate::new()));
    let set = OperateSet::new()
        .add_operate(Operate::StepInto(StepIntoOperate::new("s", Some(Box::new(inner)))));
    let expected =
        join(&[number(1), vec![5], text("s"), vec![1], number(1), vec![3], number(0)]);
    assert_eq!(set.encode(), expected);
    assert_eq!(OperateSet::decode(&expected).unwrap(), set);
}

#[test]
fn text_is_read_as_utf8() {
    let set = OperateSet::new()
        .add_operate(Operate::DeleteKey(DeleteKeyOperate::new().add_key("h\u{e9}llo \u{4e16}")));
    let bytes = set.encode();
    let expected = join(&[number(1), vec![3], number(1), text("h\u{e9}llo \u{4e16}")]);
    assert_eq!(bytes, expected);
    match &OperateSet::decode(&bytes).unwrap().operate[0] {
        Operate::DeleteKey(d) => assert_eq!(d.keys, vec!["h\u{e9}llo \u{4e16}".to_string()]),
        other => panic!("unexpected operate {:?}", other),
    }
}

#[test]
fn unknown_kind_is_refused() {
    let bytes = join(&[number(1), vec![6]]);
    assert_eq!(OperateSet::decode(&bytes), Err(SchemaDecodeError::UnknownOperateKind));
    let bytes = join(&[number(1), vec![255], text("a"), text("b")]);
    assert_eq!(OperateSet::decode(&bytes), Err(SchemaDecodeError::UnknownOperateKind));
}

#[test]
fn unknown_kind_in_nested_set_is_refused() {
    let bytes = join(&[number(1), vec![2], text("b"), vec![1], number(1), vec![7]]);
    assert_eq!(OperateSet::decode(&bytes), Err(SchemaDecodeError::UnknownOperateKind));
}

#[test]
fn unknown_kind_after_valid_operate_is_refused() {
    let bytes = join(&[number(2), vec![3], number(0), vec![42]]);
    assert_eq!(OperateSet::decode(&bytes), Err(SchemaDecodeError::UnknownOperateKind));
}

#[test]
fn empty_input_ends_too_early() {
    assert_eq!(OperateSet::decode(&[]), Err(SchemaDecodeError::UnexpectedEnd));
    assert_eq!(OperateSet::decode(&[0, 0, 0]), Err(SchemaDecodeError::UnexpectedEnd));
}

#[test]
fn missing_operate_ends_too_early() {
    assert_eq!(OperateSet::decode(&number(1)), Err(SchemaDecodeError::UnexpectedEnd));
}

#[test]
fn cut_text_ends_too_early() {
    let bytes = join(&[number(1), vec![3], number(1), number(5), vec![0x61, 0x62]]);
    assert_eq!(OperateSet::decode(&bytes), Err(SchemaDecodeError::UnexpectedEnd));
}

#[test]
fn cut_read_buffer_ends_too_early() {
    let bytes = join(&[number(1), vec![4], number(0), number(1), vec![0, 0, 0]]);
    assert_eq!(OperateSet::decode(&bytes), Err(SchemaDecodeError::UnexpectedEnd));
}

#[test]
fn every_prefix_of_a_byte_form_is_refused() {
    let bytes = deep_set().encode();
    for cut in 0..bytes.len() {
        assert_eq!(OperateSet::decode(&bytes[..cut]), Err(SchemaDecodeError::UnexpectedEnd));
    }
}

#[test]
fn huge_count_ends_too_early() {
    let bytes = join(&[number(u64::MAX), vec![3], number(0)]);
    assert_eq!(OperateSet::decode(&bytes), Err(SchemaDecodeError::UnexpectedEnd));
    let bytes = join(&[number(1), vec![3], number(1), number(u64::MAX)]);
    assert_eq!(OperateSet::decode(&bytes), Err(SchemaDecodeError::UnexpectedEnd));
}

#[test]
fn invalid_utf8_is_refused() {
    let bytes = join(&[number(1), vec![3], number(1), value(&[0xff])]);
    assert_eq!(OperateSet::decode(&bytes), Err(SchemaDecodeError::InvalidText));
    let bytes = join(&[number(1), vec![0], text("a"), value(&[0xc3])]);
    assert_eq!(OperateSet::decode(&bytes), Err(SchemaDecodeError::InvalidText));
}

#[test]
fn repeated_key_is_refused() {
    let bytes = join(&[
        number(1),
        vec![1],
        number(2),
        text("k"),
        value(&[1]),
        text("k"),
        value(&[2]),
    ]);
    assert_eq!(OperateSet::decode(&bytes), Err(SchemaDecodeError::UnorderedKeys));
}

#[test]
fn descending_keys_are_refused() {
    let bytes = join(&[
        number(1),
        vec![1],
        number(2),
        text("b"),
        value(&[1]),
        text("a"),
        value(&[2]),
    ]);
    assert_eq!(OperateSet::decode(&bytes), Err(SchemaDecodeError::UnorderedKeys));
    let bytes = join(&[
        number(1),
        vec![1],
        number(3),
        text("a"),
        value(&[]),
        text("c"),
        value(&[]),
        text("b"),
        value(&[]),
    ]);
    assert_eq!(OperateSet::decode(&bytes), Err(SchemaDecodeError::UnorderedKeys));
}

#[test]
fn byte_form_does_not_depend_on_insertion_order() {
    let one = OperateSet::new().add_operate(Operate::AddKey(
        AddKeyOperate::new().add_key("b", vec![2]).add_key("a", vec![1]).add_key("c", vec![3]),
    ));
    let other = OperateSet::new().add_operate(Operate::AddKey(
        AddKeyOperate::new().add_key("c", vec![3]).add_key("a", vec![1]).add_key("b", vec![2]),
    ));
    let expected = join(&[
        number(1),
        vec![1],
        number(3),
        text("a"),
        value(&[1]),
        text("b"),
        value(&[2]),
        text("c"),
        value(&[3]),
    ]);
    assert_eq!(one.encode(), expected);
    assert_eq!(other.encode(), expected);
    assert_eq!(OperateSet::decode(&expected).unwrap(), one);
}

#[test]
fn invalid_presence_is_refused() {
    let bytes = join(&[number(1), vec![2], text("b"), vec![2]]);
    assert_eq!(OperateSet::decode(&bytes), Err(SchemaDecodeError::InvalidPresence));
    let bytes = join(&[number(1), vec![5], text("b"), vec![255]]);
    assert_eq!(OperateSet::decode(&bytes), Err(SchemaDecodeError::InvalidPresence));
}

#[test]
fn trailing_bytes_are_refused() {
    let mut bytes = OperateSet::new().encode();
    bytes.push(0);
    assert_eq!(OperateSet::decode(&bytes), Err(SchemaDecodeError::TrailingBytes));
    let mut bytes = deep_set().encode();
    bytes.push(3);
    assert_eq!(OperateSet::decode(&bytes), Err(SchemaDecodeError::TrailingBytes));
}

#[test]
fn widest_buffer_values() {
    let bytes = join(&[number(1), vec![4], number(0), number(u64::MAX), number(u64::MAX)]);
    let res = OperateSet::decode(&bytes);
    if usize::BITS < 64 {
        assert_eq!(res, Err(SchemaDecodeError::ValueTooLarge));
    } else {
        match &res.unwrap().operate[0] {
            Operate::Read(r) => {
                assert_eq!(r.buf_addr, usize::MAX);
                assert_eq!(r.buf_size, usize::MAX);
            }
            other => panic!("unexpected operate {:?}", other),
        }
    }
}

#[test]
fn read_with_last_buffer_round_trips() {
    let set = OperateSet::new().add_operate(Operate::Read(
        ReadOperate::new().add_key("x").set_buf(1, 1).set_buf(0x1000, 64),
    ));
    match &OperateSet::decode(&set.encode()).unwrap().operate[0] {
        Operate::Read(r) => {
            assert_eq!(r.keys, vec!["x".to_string()]);
            assert_eq!(r.buf_addr, 0x1000);
            assert_eq!(r.buf_size, 64);
        }
        other => panic!("unexpected operate {:?}", other),
    }
}

#[test]
fn overwritten_key_is_written_once() {
    let set = OperateSet::new()
        .add_operate(Operate::AddKey(AddKeyOperate::new().add_key("k", vec![1]).add_key("k", vec![2])));
    let expected = join(&[number(1), vec![1], number(1), text("k"), value(&[2])]);
    assert_eq!(set.encode(), expected);
}
