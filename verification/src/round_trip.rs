//! Reading gives back what was written.

use crate::operate::{keys_sorted, OperateModel};
use crate::wire::{
    decode_set, enc_blob, enc_entries, enc_entry, enc_entry_items, enc_key_items, enc_keys,
    enc_nested, enc_operate, enc_operates, enc_set, enc_text, enc_u64, parse_blob, parse_entries,
    parse_entry, parse_entry_items, parse_key_items, parse_key_nested, parse_keys, parse_nested,
    parse_operate, parse_operates, parse_set, parse_text, parse_u64,
};
use vstd::bytes::lemma_auto_spec_u64_to_from_le_bytes;
use vstd::prelude::*;
use vstd::utf8::{encode_utf8, encode_utf8_decode_utf8, encode_utf8_valid_utf8};

verus! {

/// The length of a value fits the eight bytes that carry it.
pub open spec fn blob_fits(d: Seq<u8>) -> bool {
    d.len() <= u64::MAX
}

/// The length of a text's UTF-8 form fits the eight bytes that carry it.
pub open spec fn text_fits(t: Seq<char>) -> bool {
    encode_utf8(t).len() <= u64::MAX
}

/// The number of keys fits, and so does every key.
pub open spec fn keys_fit(ks: Seq<Seq<char>>) -> bool {
    ks.len() <= u64::MAX && forall|i: int| 0 <= i < ks.len() ==> text_fits(#[trigger] ks[i])
}

/// The list fits, and its keys ascend.
pub open spec fn entries_fit(es: Seq<(Seq<char>, Seq<u8>)>) -> bool {
    &&& es.len() <= u64::MAX
    &&& forall|i: int| 0 <= i < es.len() ==> text_fits((#[trigger] es[i]).0) && blob_fits(es[i].1)
    &&& keys_sorted(es)
}

/// Every length in the operation fits, and the keys of its key/value lists
/// ascend. Every value of [`crate::operate::Operate`] has such a model.
pub open spec fn operate_fits(m: OperateModel) -> bool
    decreases m,
{
    match m {
        OperateModel::RenameKey { old_key, new_key } => text_fits(old_key) && text_fits(new_key),
        OperateModel::AddKey { entries } => entries_fit(entries),
        OperateModel::AddBucket { key, other } => text_fits(key) && match other {
            None => true,
            Some(s) => set_fits(s),
        },
        OperateModel::DeleteKey { keys } => keys_fit(keys),
        OperateModel::Read { keys, buf_addr, buf_size } => keys_fit(keys),
        OperateModel::StepInto { key, other } => text_fits(key) && match other {
            None => true,
            Some(s) => set_fits(s),
        },
    }
}

/// Every operation of the set fits, and so does their number.
pub open spec fn set_fits(s: Seq<OperateModel>) -> bool
    decreases s,
{
    s.len() <= u64::MAX && forall|i: int| 0 <= i < s.len() ==> operate_fits(#[trigger] s[i])
}

/// Reading a number from its eight bytes and then `rest` gives the number
/// and `rest`.
pub proof fn lemma_u64_round_trip(v: u64, rest: Seq<u8>)
    ensures
        enc_u64(v).len() == 8,
        parse_u64(enc_u64(v) + rest) == Ok::<_, crate::wire::SchemaDecodeError>((v, rest)),
{
    lemma_auto_spec_u64_to_from_le_bytes();
    let b = enc_u64(v) + rest;
    assert(b.subrange(0, 8) =~= enc_u64(v));
    assert(b.skip(8) =~= rest);
}

/// Reading a value from its byte form and then `rest` gives the value and
/// `rest`.
pub proof fn lemma_blob_round_trip(d: Seq<u8>, rest: Seq<u8>)
    requires
        blob_fits(d),
    ensures
        parse_blob(enc_blob(d) + rest) == Ok::<_, crate::wire::SchemaDecodeError>((d, rest)),
{
    let n = d.len() as u64;
    lemma_u64_round_trip(n, d + rest);
    assert(enc_blob(d) + rest =~= enc_u64(n) + (d + rest));
    assert((d + rest).subrange(0, n as int) =~= d);
    assert((d + rest).skip(n as int) =~= rest);
}

/// Reading a text from its byte form and then `rest` gives the text and
/// `rest`.
pub proof fn lemma_text_round_trip(t: Seq<char>, rest: Seq<u8>)
    requires
        text_fits(t),
    ensures
        parse_text(enc_text(t) + rest) == Ok::<_, crate::wire::SchemaDecodeError>((t, rest)),
{
    lemma_blob_round_trip(encode_utf8(t), rest);
    encode_utf8_valid_utf8(t);
    encode_utf8_decode_utf8(t);
}

/// Reading `ks.len() + more` keys from the items of `ks` and then `rest`
/// comes to reading `more` keys from `rest`, with `ks` read already.
pub proof fn lemma_key_items_round_trip(
    ks: Seq<Seq<char>>,
    rest: Seq<u8>,
    more: nat,
    acc: Seq<Seq<char>>,
)
    requires
        forall|i: int| 0 <= i < ks.len() ==> text_fits(#[trigger] ks[i]),
    ensures
        parse_key_items(enc_key_items(ks) + rest, ks.len() + more, acc) == parse_key_items(
            rest,
            more,
            acc + ks,
        ),
    decreases ks.len(),
{
    if ks.len() == 0 {
        assert(enc_key_items(ks) + rest =~= rest);
        assert(acc + ks =~= acc);
    } else {
        let front = ks.drop_last();
        let last = ks.last();
        let tail = enc_text(last) + rest;
        assert(enc_key_items(ks) + rest =~= enc_key_items(front) + tail);
        lemma_key_items_round_trip(front, tail, more + 1, acc);
        lemma_text_round_trip(last, rest);
        assert((acc + front).push(last) =~= acc + ks);
    }
}

/// Reading a list of keys from its byte form and then `rest` gives the keys
/// in their order and `rest`.
pub proof fn lemma_keys_round_trip(ks: Seq<Seq<char>>, rest: Seq<u8>)
    requires
        keys_fit(ks),
    ensures
        parse_keys(enc_keys(ks) + rest) == Ok::<_, crate::wire::SchemaDecodeError>((ks, rest)),
{
    let n = ks.len() as u64;
    lemma_u64_round_trip(n, enc_key_items(ks) + rest);
    assert(enc_keys(ks) + rest =~= enc_u64(n) + (enc_key_items(ks) + rest));
    lemma_key_items_round_trip(ks, rest, 0, Seq::empty());
    assert(Seq::<Seq<char>>::empty() + ks =~= ks);
}

/// Reading a key with its value from their byte form and then `rest` gives
/// both and `rest`.
pub proof fn lemma_entry_round_trip(e: (Seq<char>, Seq<u8>), rest: Seq<u8>)
    requires
        text_fits(e.0),
        blob_fits(e.1),
    ensures
        parse_entry(enc_entry(e) + rest) == Ok::<_, crate::wire::SchemaDecodeError>((e, rest)),
{
    assert(enc_entry(e) + rest =~= enc_text(e.0) + (enc_blob(e.1) + rest));
    lemma_text_round_trip(e.0, enc_blob(e.1) + rest);
    lemma_blob_round_trip(e.1, rest);
}

/// Reading `es.len() + more` entries from the items of `es` and then `rest`
/// comes to reading `more` entries from `rest`, with `es` read already.
pub proof fn lemma_entry_items_round_trip(
    es: Seq<(Seq<char>, Seq<u8>)>,
    rest: Seq<u8>,
    more: nat,
    acc: Seq<(Seq<char>, Seq<u8>)>,
)
    requires
        forall|i: int| 0 <= i < es.len() ==> text_fits((#[trigger] es[i]).0) && blob_fits(es[i].1),
    ensures
        parse_entry_items(enc_entry_items(es) + rest, es.len() + more, acc) == parse_entry_items(
            rest,
            more,
            acc + es,
        ),
    decreases es.len(),
{
    if es.len() == 0 {
        assert(enc_entry_items(es) + rest =~= rest);
        assert(acc + es =~= acc);
    } else {
        let front = es.drop_last();
        let last = es.last();
        let tail = enc_entry(last) + rest;
        assert(enc_entry_items(es) + rest =~= enc_entry_items(front) + tail);
        lemma_entry_items_round_trip(front, tail, more + 1, acc);
        lemma_entry_round_trip(last, rest);
        assert((acc + front).push(last) =~= acc + es);
    }
}

/// Reading a key/value list with ascending keys from its byte form and then
/// `rest` gives the list and `rest`.
pub proof fn lemma_entries_round_trip(es: Seq<(Seq<char>, Seq<u8>)>, rest: Seq<u8>)
    requires
        entries_fit(es),
    ensures
        parse_entries(enc_entries(es) + rest) == Ok::<_, crate::wire::SchemaDecodeError>(
            (es, rest),
        ),
{
    let n = es.len() as u64;
    lemma_u64_round_trip(n, enc_entry_items(es) + rest);
    assert(enc_entries(es) + rest =~= enc_u64(n) + (enc_entry_items(es) + rest));
    lemma_entry_items_round_trip(es, rest, 0, Seq::empty());
    assert(Seq::<(Seq<char>, Seq<u8>)>::empty() + es =~= es);
}

/// Reading what may be nested from its byte form and then `rest` gives it
/// back, present or absent as it was, and `rest`.
pub proof fn lemma_nested_round_trip(o: Option<Seq<OperateModel>>, rest: Seq<u8>)
    requires
        o matches Some(s) ==> set_fits(s),
    ensures
        parse_nested(enc_nested(o) + rest) == Ok::<_, crate::wire::SchemaDecodeError>((o, rest)),
    decreases o, 0nat,
{
    let b = enc_nested(o) + rest;
    match o {
        None => {
            assert(b.skip(1) =~= rest);
        },
        Some(s) => {
            assert(b.skip(1) =~= enc_set(s) + rest);
            lemma_set_round_trip(s, rest);
        },
    }
}

/// Reading a key and what is nested under it gives both, once reading the
/// nested part alone gives it.
pub proof fn lemma_key_nested_round_trip(
    key: Seq<char>,
    o: Option<Seq<OperateModel>>,
    nested: Seq<u8>,
    rest: Seq<u8>,
)
    requires
        text_fits(key),
        parse_nested(nested + rest) == Ok::<_, crate::wire::SchemaDecodeError>((o, rest)),
    ensures
        parse_key_nested(enc_text(key) + nested + rest) == Ok::<_, crate::wire::SchemaDecodeError>(
            ((key, o), rest),
        ),
{
    let b = enc_text(key) + nested + rest;
    let r = nested + rest;
    assert(b =~= enc_text(key) + r);
    lemma_text_round_trip(key, r);
    assert(r.len() <= b.len());
}

/// A sequence that starts with one byte, and what follows that byte.
pub proof fn lemma_first_byte(first: u8, body: Seq<u8>, rest: Seq<u8>)
    ensures
        (seq![first] + body + rest).len() >= 1,
        (seq![first] + body + rest)[0] == first,
        (seq![first] + body + rest).skip(1) == body + rest,
{
    assert((seq![first] + body + rest).skip(1) =~= body + rest);
}

/// A rename is read back from its byte form.
pub proof fn lemma_rename_key_round_trip(old_key: Seq<char>, new_key: Seq<char>, rest: Seq<u8>)
    requires
        text_fits(old_key),
        text_fits(new_key),
    ensures
        parse_operate(seq![0u8] + (enc_text(old_key) + enc_text(new_key)) + rest) == Ok::<
            _,
            crate::wire::SchemaDecodeError,
        >((OperateModel::RenameKey { old_key, new_key }, rest)),
{
    let body = enc_text(old_key) + enc_text(new_key);
    lemma_first_byte(0, body, rest);
    assert(body + rest =~= enc_text(old_key) + (enc_text(new_key) + rest));
    lemma_text_round_trip(old_key, enc_text(new_key) + rest);
    lemma_text_round_trip(new_key, rest);
}

/// A key/value batch is read back from its byte form.
pub proof fn lemma_add_key_round_trip(entries: Seq<(Seq<char>, Seq<u8>)>, rest: Seq<u8>)
    requires
        entries_fit(entries),
    ensures
        parse_operate(seq![1u8] + enc_entries(entries) + rest) == Ok::<
            _,
            crate::wire::SchemaDecodeError,
        >((OperateModel::AddKey { entries }, rest)),
{
    lemma_first_byte(1, enc_entries(entries), rest);
    lemma_entries_round_trip(entries, rest);
}

/// An add-bucket is read back from its byte form, once what is nested under
/// it is.
pub proof fn lemma_add_bucket_round_trip(
    key: Seq<char>,
    other: Option<Seq<OperateModel>>,
    nested: Seq<u8>,
    rest: Seq<u8>,
)
    requires
        text_fits(key),
        parse_nested(nested + rest) == Ok::<_, crate::wire::SchemaDecodeError>((other, rest)),
    ensures
        parse_operate(seq![2u8] + (enc_text(key) + nested) + rest) == Ok::<
            _,
            crate::wire::SchemaDecodeError,
        >((OperateModel::AddBucket { key, other }, rest)),
{
    lemma_first_byte(2, enc_text(key) + nested, rest);
    lemma_key_nested_round_trip(key, other, nested, rest);
}

/// A delete is read back from its byte form.
pub proof fn lemma_delete_key_round_trip(keys: Seq<Seq<char>>, rest: Seq<u8>)
    requires
        keys_fit(keys),
    ensures
        parse_operate(seq![3u8] + enc_keys(keys) + rest) == Ok::<
            _,
            crate::wire::SchemaDecodeError,
        >((OperateModel::DeleteKey { keys }, rest)),
{
    lemma_first_byte(3, enc_keys(keys), rest);
    lemma_keys_round_trip(keys, rest);
}

/// A read request is read back from its byte form.
pub proof fn lemma_read_round_trip(
    keys: Seq<Seq<char>>,
    buf_addr: usize,
    buf_size: usize,
    rest: Seq<u8>,
)
    requires
        keys_fit(keys),
    ensures
        parse_operate(
            seq![4u8] + (enc_keys(keys) + enc_u64(buf_addr as u64) + enc_u64(buf_size as u64))
                + rest,
        ) == Ok::<_, crate::wire::SchemaDecodeError>(
            (OperateModel::Read { keys, buf_addr, buf_size }, rest),
        ),
{
    let a = enc_u64(buf_addr as u64);
    let z = enc_u64(buf_size as u64);
    let body = enc_keys(keys) + a + z;
    lemma_first_byte(4, body, rest);
    assert(body + rest =~= enc_keys(keys) + (a + (z + rest)));
    lemma_keys_round_trip(keys, a + (z + rest));
    lemma_u64_round_trip(buf_addr as u64, z + rest);
    lemma_u64_round_trip(buf_size as u64, rest);
}

/// A step-into is read back from its byte form, once what is nested under
/// it is.
pub proof fn lemma_step_into_round_trip(
    key: Seq<char>,
    other: Option<Seq<OperateModel>>,
    nested: Seq<u8>,
    rest: Seq<u8>,
)
    requires
        text_fits(key),
        parse_nested(nested + rest) == Ok::<_, crate::wire::SchemaDecodeError>((other, rest)),
    ensures
        parse_operate(seq![5u8] + (enc_text(key) + nested) + rest) == Ok::<
            _,
            crate::wire::SchemaDecodeError,
        >((OperateModel::StepInto { key, other }, rest)),
{
    lemma_first_byte(5, enc_text(key) + nested, rest);
    lemma_key_nested_round_trip(key, other, nested, rest);
}

/// Reading one operation from its byte form and then `rest` gives the
/// operation and `rest`.
pub proof fn lemma_operate_round_trip(m: OperateModel, rest: Seq<u8>)
    requires
        operate_fits(m),
    ensures
        enc_operate(m).len() >= 1,
        parse_operate(enc_operate(m) + rest) == Ok::<_, crate::wire::SchemaDecodeError>((m, rest)),
    decreases m, 2nat,
{
    match m {
        OperateModel::RenameKey { old_key, new_key } => {
            lemma_rename_key_round_trip(old_key, new_key, rest);
        },
        OperateModel::AddKey { entries } => {
            lemma_add_key_round_trip(entries, rest);
        },
        OperateModel::AddBucket { key, other } => {
            lemma_nested_round_trip(other, rest);
            lemma_add_bucket_round_trip(key, other, enc_nested(other), rest);
        },
        OperateModel::DeleteKey { keys } => {
            lemma_delete_key_round_trip(keys, rest);
        },
        OperateModel::Read { keys, buf_addr, buf_size } => {
            lemma_read_round_trip(keys, buf_addr, buf_size, rest);
        },
        OperateModel::StepInto { key, other } => {
            lemma_nested_round_trip(other, rest);
            lemma_step_into_round_trip(key, other, enc_nested(other), rest);
        },
    }
}

/// Reading `n + more` operations from the first `n` of `s` and then `rest`
/// comes to reading `more` operations from `rest`, with those `n` read
/// already.
pub proof fn lemma_operates_round_trip(
    s: Seq<OperateModel>,
    n: nat,
    rest: Seq<u8>,
    more: nat,
    acc: Seq<OperateModel>,
)
    requires
        n <= s.len(),
        forall|i: int| 0 <= i < s.len() ==> operate_fits(#[trigger] s[i]),
    ensures
        parse_operates(enc_operates(s, n) + rest, n + more, acc) == parse_operates(
            rest,
            more,
            acc + s.take(n as int),
        ),
    decreases s, n,
{
    if n == 0 {
        assert(enc_operates(s, n) + rest =~= rest);
        assert(acc + s.take(0) =~= acc);
    } else {
        let last = s[n - 1];
        let tail = enc_operate(last) + rest;
        assert(enc_operates(s, n) + rest =~= enc_operates(s, (n - 1) as nat) + tail);
        lemma_operates_round_trip(s, (n - 1) as nat, tail, more + 1, acc);
        lemma_operate_round_trip(last, rest);
        assert((acc + s.take(n - 1)).push(last) =~= acc + s.take(n as int));
    }
}

/// Reading a set from its byte form and then `rest` gives the set and `rest`.
pub proof fn lemma_set_round_trip(s: Seq<OperateModel>, rest: Seq<u8>)
    requires
        set_fits(s),
    ensures
        parse_set(enc_set(s) + rest) == Ok::<_, crate::wire::SchemaDecodeError>((s, rest)),
    decreases s, s.len() + 1,
{
    let n = s.len() as u64;
    let items = enc_operates(s, s.len());
    lemma_u64_round_trip(n, items + rest);
    assert(enc_set(s) + rest =~= enc_u64(n) + (items + rest));
    lemma_operates_round_trip(s, s.len(), rest, 0, Seq::empty());
    assert(Seq::<OperateModel>::empty() + s.take(s.len() as int) =~= s);
}

/// Decoding the byte form of a set gives the set: the operations in their
/// order, each with its keys in their order and with its nested set where it
/// has one.
pub proof fn lemma_decode_encode(s: Seq<OperateModel>)
    requires
        set_fits(s),
    ensures
        decode_set(enc_set(s)) == Ok::<_, crate::wire::SchemaDecodeError>(s),
{
    lemma_set_round_trip(s, Seq::empty());
    assert(enc_set(s) + Seq::<u8>::empty() =~= enc_set(s));
}

/// A byte that tells none of the six kinds is never read as an operation.
pub proof fn lemma_unknown_kind_refused(b: Seq<u8>)
    requires
        b.len() >= 1,
        b[0] > 5,
    ensures
        parse_operate(b) == Err::<(OperateModel, Seq<u8>), _>(
            crate::wire::SchemaDecodeError::UnknownOperateKind,
        ),
{
}

/// A set whose first operation tells none of the six kinds is refused as a
/// whole, whatever follows.
pub proof fn lemma_unknown_kind_fails_decode(count: u64, kind: u8, rest: Seq<u8>)
    requires
        count >= 1,
        kind > 5,
    ensures
        decode_set(enc_u64(count) + seq![kind] + rest) == Err::<Seq<OperateModel>, _>(
            crate::wire::SchemaDecodeError::UnknownOperateKind,
        ),
{
    let tail = seq![kind] + rest;
    lemma_u64_round_trip(count, tail);
    assert(enc_u64(count) + seq![kind] + rest =~= enc_u64(count) + tail);
    lemma_unknown_kind_refused(tail);
}

/// An operation that was read is of the kind that its first byte tells.
pub proof fn lemma_kind_read_as_told(b: Seq<u8>)
    requires
        parse_operate(b) is Ok,
    ensures
        b.len() >= 1,
        crate::wire::kind_byte(parse_operate(b).unwrap().0) == b[0],
{
}

/// The set without operations is written as the count zero and nothing
/// else, and that is read as the set without operations.
pub proof fn lemma_empty_set()
    ensures
        enc_set(Seq::<OperateModel>::empty()) == enc_u64(0),
        decode_set(enc_u64(0)) == Ok::<_, crate::wire::SchemaDecodeError>(
            Seq::<OperateModel>::empty(),
        ),
{
    let s = Seq::<OperateModel>::empty();
    assert(enc_set(s) =~= enc_u64(0));
    lemma_decode_encode(s);
}

} // verus!
