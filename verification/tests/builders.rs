use bucket_operate::{
    AddBucketOperate, AddKeyOperate, DeleteKeyOperate, Operate, OperateSet, ReadOperate,
    RenameKeyOperate, StepIntoOperate,
};

#[test]
fn rename_key_holds_both_keys() {
    let op = RenameKeyOperate::new("old", "new");
    assert_eq!(op.old_key, "old");
    assert_eq!(op.new_key, "new");
}

#[test]
fn rename_key_accepts_empty_keys() {
    let op = RenameKeyOperate::new("", "");
    assert_eq!(op.old_key, "");
    assert_eq!(op.new_key, "");
}

#[test]
fn delete_key_keeps_order() {
    let op = DeleteKeyOperate::new().add_key("a").add_key("b");
    assert_eq!(op.keys, vec!["a".to_string(), "b".to_string()]);
}

#[test]
fn delete_key_keeps_repeated_keys() {
    let op = DeleteKeyOperate::new().add_key("b").add_key("a").add_key("b");
    assert_eq!(op.keys, vec!["b".to_string(), "a".to_string(), "b".to_string()]);
}

#[test]
fn delete_key_new_is_empty() {
    assert!(DeleteKeyOperate::new().keys.is_empty());
}

#[test]
fn add_key_last_write_wins() {
    let op = AddKeyOperate::new().add_key("k", vec![1]).add_key("k", vec![2]);
    assert_eq!(op.len(), 1);
    assert_eq!(op.get("k"), Some(&vec![2u8]));
}

#[test]
fn add_key_overwrite_keeps_place() {
    let op = AddKeyOperate::new()
        .add_key("a", vec![1])
        .add_key("b", vec![2])
        .add_key("a", vec![3]);
    assert_eq!(op.len(), 2);
    let first = op.entry(0).unwrap();
    assert_eq!(first.0, "a");
    assert_eq!(first.1, &vec![3u8]);
    let second = op.entry(1).unwrap();
    assert_eq!(second.0, "b");
    assert_eq!(second.1, &vec![2u8]);
    assert!(op.entry(2).is_none());
}

#[test]
fn add_key_insertion_order_is_irrelevant() {
    let one = AddKeyOperate::new().add_key("b", vec![2]).add_key("a", vec![1]);
    let other = AddKeyOperate::new().add_key("a", vec![1]).add_key("b", vec![2]);
    assert_eq!(one, other);
    assert_eq!(one.entry(0).unwrap().0, "a");
    assert_eq!(one.entry(1).unwrap().0, "b");
}

#[test]
fn add_key_orders_keys_by_their_bytes() {
    let op = AddKeyOperate::new()
        .add_key("\u{e9}", vec![4])
        .add_key("ab", vec![2])
        .add_key("z", vec![3])
        .add_key("a", vec![1])
        .add_key("", vec![0])
        .add_key("B", vec![5]);
    let keys: Vec<&str> = (0..op.len()).map(|i| op.entry(i).unwrap().0.as_str()).collect();
    assert_eq!(keys, vec!["", "B", "a", "ab", "z", "\u{e9}"]);
    assert_eq!(op.get("ab"), Some(&vec![2u8]));
    assert_eq!(op.get("\u{e9}"), Some(&vec![4u8]));
    assert_eq!(op.get("b"), None);
}

#[test]
fn add_key_new_is_empty() {
    let op = AddKeyOperate::new();
    assert_eq!(op.len(), 0);
    assert_eq!(op.get("k"), None);
    assert!(op.entry(0).is_none());
}

#[test]
fn add_key_get_missing_key() {
    let op = AddKeyOperate::new().add_key("a", vec![]);
    assert_eq!(op.get("a"), Some(&Vec::new()));
    assert_eq!(op.get("b"), None);
    assert_eq!(op.get(""), None);
}

#[test]
fn add_bucket_attaches_nested_set() {
    let mut op = AddBucketOperate::new("b", None);
    assert_eq!(op.key, "b");
    assert!(op.other.is_none());
    let set = OperateSet::new().add_operate(Operate::DeleteKey(DeleteKeyOperate::new().add_key("x")));
    op.add_other(Box::new(set));
    let expected =
        OperateSet::new().add_operate(Operate::DeleteKey(DeleteKeyOperate::new().add_key("x")));
    assert_eq!(op.key, "b");
    assert_eq!(op.other, Some(Box::new(expected)));
}

#[test]
fn add_bucket_replaces_nested_set() {
    let first = OperateSet::new().add_operate(Operate::Read(ReadOperate::new()));
    let mut op = AddBucketOperate::new("b", Some(Box::new(first)));
    op.add_other(Box::new(OperateSet::new()));
    assert_eq!(op.other, Some(Box::new(OperateSet::new())));
}

#[test]
fn step_into_attaches_nested_set() {
    let mut op = StepIntoOperate::new("child", None);
    assert_eq!(op.key, "child");
    assert!(op.other.is_none());
    let set = OperateSet::new().add_operate(Operate::RenameKey(RenameKeyOperate::new("a", "b")));
    op.add_other(Box::new(set));
    let expected =
        OperateSet::new().add_operate(Operate::RenameKey(RenameKeyOperate::new("a", "b")));
    assert_eq!(op.other, Some(Box::new(expected)));
}

#[test]
fn step_into_keeps_given_set() {
    let set = OperateSet::new().add_operate(Operate::Read(ReadOperate::new().add_key("k")));
    let op = StepIntoOperate::new("c", Some(Box::new(set)));
    assert_eq!(op.other.unwrap().operate.len(), 1);
}

#[test]
fn read_request_shape() {
    let op = ReadOperate::new().add_key("x").set_buf(0x1000, 64);
    assert_eq!(op.keys, vec!["x".to_string()]);
    assert_eq!(op.buf_addr, 0x1000);
    assert_eq!(op.buf_size, 64);
}

#[test]
fn read_set_buf_twice_keeps_last() {
    let op = ReadOperate::new().set_buf(1, 2).add_key("x").set_buf(0x2000, 0);
    assert_eq!(op.keys, vec!["x".to_string()]);
    assert_eq!(op.buf_addr, 0x2000);
    assert_eq!(op.buf_size, 0);
}

#[test]
fn read_new_has_no_keys_and_no_buffer() {
    let op = ReadOperate::new();
    assert!(op.keys.is_empty());
    assert_eq!(op.buf_addr, 0);
    assert_eq!(op.buf_size, 0);
}

#[test]
fn read_add_key_keeps_buffer() {
    let op = ReadOperate::new().set_buf(7, 9).add_key("a").add_key("b");
    assert_eq!(op.keys, vec!["a".to_string(), "b".to_string()]);
    assert_eq!(op.buf_addr, 7);
    assert_eq!(op.buf_size, 9);
}

#[test]
fn operate_set_keeps_append_order() {
    let set = OperateSet::new()
        .add_operate(Operate::DeleteKey(DeleteKeyOperate::new().add_key("a")))
        .add_operate(Operate::RenameKey(RenameKeyOperate::new("b", "c")))
        .add_operate(Operate::AddKey(AddKeyOperate::new().add_key("d", vec![4])));
    assert_eq!(set.operate.len(), 3);
    assert!(matches!(set.operate[0], Operate::DeleteKey(_)));
    assert!(matches!(set.operate[1], Operate::RenameKey(_)));
    assert!(matches!(set.operate[2], Operate::AddKey(_)));
}

#[test]
fn operate_set_new_is_empty() {
    assert!(OperateSet::new().operate.is_empty());
}

#[test]
fn para_carries_bytes() {
    let bytes = [1u8, 2, 3];
    let para = bucket_operate::Para::Data(&bytes);
    match para {
        bucket_operate::Para::Data(d) => assert_eq!(d, &[1u8, 2, 3]),
        bucket_operate::Para::Bucket(_) => panic!("bytes were given"),
    }
}
