use bucket_operate::{
    add_key, make_operate_set, read_key, AddKeyOperate, DeleteKeyOperate, Operate, OperateSet,
    ReadOperate,
};

#[test]
fn add_key_batch_sets_each_pair() {
    let op = add_key(&[("a", vec![1]), ("b", vec![2, 3])]);
    assert_eq!(op, AddKeyOperate::new().add_key("a", vec![1]).add_key("b", vec![2, 3]));
    assert_eq!(op.get("a"), Some(&vec![1u8]));
    assert_eq!(op.get("b"), Some(&vec![2u8, 3]));
    assert_eq!(op.len(), 2);
}

#[test]
fn add_key_batch_later_pair_wins() {
    let op = add_key(&[("k", vec![1]), ("j", vec![5]), ("k", vec![2])]);
    assert_eq!(op.len(), 2);
    assert_eq!(op.get("k"), Some(&vec![2u8]));
    assert_eq!(op.get("j"), Some(&vec![5u8]));
}

#[test]
fn add_key_batch_of_nothing_is_empty() {
    assert_eq!(add_key(&[]).len(), 0);
}

#[test]
fn from_entries_takes_ascending_keys() {
    let op = AddKeyOperate::from_entries(vec![
        ("a".to_string(), vec![1]),
        ("b".to_string(), vec![2]),
    ])
    .unwrap();
    assert_eq!(op.len(), 2);
    assert_eq!(op.get("b"), Some(&vec![2u8]));
    assert_eq!(op.entry(0).unwrap().0, "a");
}

#[test]
fn from_entries_refuses_a_key_twice() {
    let res = AddKeyOperate::from_entries(vec![
        ("a".to_string(), vec![1]),
        ("b".to_string(), vec![2]),
        ("a".to_string(), vec![3]),
    ]);
    assert!(res.is_none());
    let res = AddKeyOperate::from_entries(vec![
        ("a".to_string(), vec![1]),
        ("a".to_string(), vec![3]),
    ]);
    assert!(res.is_none());
    assert!(AddKeyOperate::from_entries(Vec::new()).is_some());
    assert!(AddKeyOperate::from_entries(vec![("z".to_string(), vec![])]).is_some());
}

#[test]
fn from_entries_refuses_descending_keys() {
    let res = AddKeyOperate::from_entries(vec![
        ("b".to_string(), vec![1]),
        ("a".to_string(), vec![2]),
    ]);
    assert!(res.is_none());
}

#[test]
fn read_key_batch_holds_keys_and_buffer() {
    let op = read_key(&["x", "y"], 0x1000, 64);
    assert_eq!(op, ReadOperate::new().add_key("x").add_key("y").set_buf(0x1000, 64));
    assert_eq!(op.keys, vec!["x".to_string(), "y".to_string()]);
    assert_eq!(op.buf_addr, 0x1000);
    assert_eq!(op.buf_size, 64);
}

#[test]
fn read_key_batch_without_keys() {
    let op = read_key(&[], 1, 0);
    assert!(op.keys.is_empty());
    assert_eq!(op.buf_addr, 1);
    assert_eq!(op.buf_size, 0);
}

#[test]
fn make_operate_set_keeps_order() {
    let set = make_operate_set(vec![
        Operate::DeleteKey(DeleteKeyOperate::new().add_key("a")),
        Operate::Read(read_key(&["b"], 2, 3)),
    ]);
    let expected = OperateSet::new()
        .add_operate(Operate::DeleteKey(DeleteKeyOperate::new().add_key("a")))
        .add_operate(Operate::Read(ReadOperate::new().add_key("b").set_buf(2, 3)));
    assert_eq!(set, expected);
}

#[test]
fn make_operate_set_of_nothing_is_empty() {
    assert_eq!(make_operate_set(Vec::new()), OperateSet::new());
}
