//! What is read was written: bytes are read as a set only where they are
//! that set's byte form.

use crate::operate::{keys_sorted, OperateModel};
use crate::round_trip::{
    blob_fits, entries_fit, keys_fit, lemma_decode_encode, operate_fits, set_fits, text_fits,
};
use crate::wire::{
    decode_set, enc_blob, enc_entries, enc_entry, enc_entry_items, enc_key_items, enc_keys,
    enc_nested, enc_operate, enc_operates, enc_set, enc_text, enc_u64, parse_add_key, parse_blob,
    parse_delete_key, parse_entries, parse_entry, parse_entry_items, parse_key_items,
    parse_key_nested, parse_keys, parse_nested, parse_operate, parse_operates, parse_read,
    parse_rename_key, parse_set, parse_text, parse_u64, SchemaDecodeError,
};
use vstd::bytes::{lemma_auto_spec_u64_to_from_le_bytes, spec_u64_from_le_bytes};
use vstd::prelude::*;
use vstd::utf8::{decode_utf8_encode_utf8, encode_utf8};

verus! {

/// Eight bytes that are read as a number are the bytes of that number.
pub proof fn lemma_u64_canonical(b: Seq<u8>)
    requires
        parse_u64(b) is Ok,
    ensures
        b == enc_u64(parse_u64(b).unwrap().0) + parse_u64(b).unwrap().1,
{
    lemma_auto_spec_u64_to_from_le_bytes();
    let head = b.subrange(0, 8);
    assert(enc_u64(spec_u64_from_le_bytes(head)) == head);
    assert(b =~= head + b.skip(8));
}

/// Bytes that are read as a value are the byte form of that value.
pub proof fn lemma_blob_canonical(b: Seq<u8>)
    requires
        parse_blob(b) is Ok,
    ensures
        b == enc_blob(parse_blob(b).unwrap().0) + parse_blob(b).unwrap().1,
        blob_fits(parse_blob(b).unwrap().0),
{
    lemma_u64_canonical(b);
    let (n, r1) = parse_u64(b).unwrap();
    let d = r1.subrange(0, n as int);
    let r = r1.skip(n as int);
    assert(r1 =~= d + r);
    assert(b =~= enc_blob(d) + r);
}

/// Bytes that are read as a text are the byte form of that text.
pub proof fn lemma_text_canonical(b: Seq<u8>)
    requires
        parse_text(b) is Ok,
    ensures
        b == enc_text(parse_text(b).unwrap().0) + parse_text(b).unwrap().1,
        text_fits(parse_text(b).unwrap().0),
{
    lemma_blob_canonical(b);
    decode_utf8_encode_utf8(parse_blob(b).unwrap().0);
}

/// The items of a list of keys start with its first key.
pub proof fn lemma_key_items_prepend(k: Seq<char>, ks: Seq<Seq<char>>)
    ensures
        enc_key_items(seq![k] + ks) == enc_text(k) + enc_key_items(ks),
    decreases ks.len(),
{
    let all = seq![k] + ks;
    if ks.len() == 0 {
        assert(all.drop_last() =~= Seq::empty());
        assert(enc_key_items(all.drop_last()) =~= Seq::empty());
        assert(enc_key_items(all) =~= enc_text(k) + enc_key_items(ks));
    } else {
        assert(all.drop_last() =~= seq![k] + ks.drop_last());
        assert(all.last() == ks.last());
        lemma_key_items_prepend(k, ks.drop_last());
        assert(enc_key_items(all) =~= enc_text(k) + enc_key_items(ks));
    }
}

/// Bytes from which `n` keys are read start with the items of those keys.
pub proof fn lemma_key_items_canonical(b: Seq<u8>, n: nat, acc: Seq<Seq<char>>)
    requires
        parse_key_items(b, n, acc) is Ok,
    ensures
        parse_key_items(b, n, acc).unwrap().0.len() == acc.len() + n,
        parse_key_items(b, n, acc).unwrap().0.take(acc.len() as int) == acc,
        b == enc_key_items(parse_key_items(b, n, acc).unwrap().0.skip(acc.len() as int))
            + parse_key_items(b, n, acc).unwrap().1,
        forall|i: int|
            acc.len() <= i < parse_key_items(b, n, acc).unwrap().0.len() ==> text_fits(
                #[trigger] parse_key_items(b, n, acc).unwrap().0[i],
            ),
    decreases n,
{
    let (ks, r) = parse_key_items(b, n, acc).unwrap();
    let a = acc.len() as int;
    if n == 0 {
        assert(ks.take(a) =~= acc);
        assert(ks.skip(a) =~= Seq::empty());
        assert(b =~= enc_key_items(ks.skip(a)) + r);
    } else {
        lemma_text_canonical(b);
        let (k, r1) = parse_text(b).unwrap();
        lemma_key_items_canonical(r1, (n - 1) as nat, acc.push(k));
        assert(ks.take(a + 1) == acc.push(k));
        assert(ks.take(a) =~= ks.take(a + 1).take(a));
        assert(ks.take(a) =~= acc);
        assert(ks[a] == ks.take(a + 1)[a]);
        assert(ks.skip(a) =~= seq![k] + ks.skip(a + 1));
        lemma_key_items_prepend(k, ks.skip(a + 1));
        assert(b =~= enc_key_items(ks.skip(a)) + r);
    }
}

/// Bytes that are read as a list of keys are the byte form of that list.
pub proof fn lemma_keys_canonical(b: Seq<u8>)
    requires
        parse_keys(b) is Ok,
    ensures
        b == enc_keys(parse_keys(b).unwrap().0) + parse_keys(b).unwrap().1,
        keys_fit(parse_keys(b).unwrap().0),
{
    lemma_u64_canonical(b);
    let (n, r1) = parse_u64(b).unwrap();
    lemma_key_items_canonical(r1, n as nat, Seq::empty());
    let (ks, r) = parse_keys(b).unwrap();
    assert(ks.skip(0) =~= ks);
    assert(b =~= enc_keys(ks) + r);
}

/// Bytes that are read as a key with its value are the byte form of both.
pub proof fn lemma_entry_canonical(b: Seq<u8>)
    requires
        parse_entry(b) is Ok,
    ensures
        b == enc_entry(parse_entry(b).unwrap().0) + parse_entry(b).unwrap().1,
        text_fits(parse_entry(b).unwrap().0.0),
        blob_fits(parse_entry(b).unwrap().0.1),
{
    lemma_text_canonical(b);
    let (k, r1) = parse_text(b).unwrap();
    lemma_blob_canonical(r1);
    let (v, r) = parse_blob(r1).unwrap();
    assert(b =~= enc_entry((k, v)) + r);
}

/// The items of a key/value list start with its first entry.
pub proof fn lemma_entry_items_prepend(e: (Seq<char>, Seq<u8>), es: Seq<(Seq<char>, Seq<u8>)>)
    ensures
        enc_entry_items(seq![e] + es) == enc_entry(e) + enc_entry_items(es),
    decreases es.len(),
{
    let all = seq![e] + es;
    if es.len() == 0 {
        assert(all.drop_last() =~= Seq::empty());
        assert(enc_entry_items(all.drop_last()) =~= Seq::empty());
        assert(enc_entry_items(all) =~= enc_entry(e) + enc_entry_items(es));
    } else {
        assert(all.drop_last() =~= seq![e] + es.drop_last());
        assert(all.last() == es.last());
        lemma_entry_items_prepend(e, es.drop_last());
        assert(enc_entry_items(all) =~= enc_entry(e) + enc_entry_items(es));
    }
}

/// Bytes from which `n` entries are read start with the items of those
/// entries.
pub proof fn lemma_entry_items_canonical(b: Seq<u8>, n: nat, acc: Seq<(Seq<char>, Seq<u8>)>)
    requires
        parse_entry_items(b, n, acc) is Ok,
    ensures
        parse_entry_items(b, n, acc).unwrap().0.len() == acc.len() + n,
        parse_entry_items(b, n, acc).unwrap().0.take(acc.len() as int) == acc,
        b == enc_entry_items(parse_entry_items(b, n, acc).unwrap().0.skip(acc.len() as int))
            + parse_entry_items(b, n, acc).unwrap().1,
        forall|i: int|
            acc.len() <= i < parse_entry_items(b, n, acc).unwrap().0.len() ==> text_fits(
                (#[trigger] parse_entry_items(b, n, acc).unwrap().0[i]).0,
            ) && blob_fits(parse_entry_items(b, n, acc).unwrap().0[i].1),
    decreases n,
{
    let (es, r) = parse_entry_items(b, n, acc).unwrap();
    let a = acc.len() as int;
    if n == 0 {
        assert(es.take(a) =~= acc);
        assert(es.skip(a) =~= Seq::empty());
        assert(b =~= enc_entry_items(es.skip(a)) + r);
    } else {
        lemma_entry_canonical(b);
        let (e, r1) = parse_entry(b).unwrap();
        lemma_entry_items_canonical(r1, (n - 1) as nat, acc.push(e));
        assert(es.take(a + 1) == acc.push(e));
        assert(es.take(a) =~= es.take(a + 1).take(a));
        assert(es.take(a) =~= acc);
        assert(es[a] == es.take(a + 1)[a]);
        assert(es.skip(a) =~= seq![e] + es.skip(a + 1));
        lemma_entry_items_prepend(e, es.skip(a + 1));
        assert(b =~= enc_entry_items(es.skip(a)) + r);
    }
}

/// Bytes that are read as a key/value list are the byte form of that list,
/// and the keys of the list ascend.
pub proof fn lemma_entries_canonical(b: Seq<u8>)
    requires
        parse_entries(b) is Ok,
    ensures
        b == enc_entries(parse_entries(b).unwrap().0) + parse_entries(b).unwrap().1,
        entries_fit(parse_entries(b).unwrap().0),
{
    lemma_u64_canonical(b);
    let (n, r1) = parse_u64(b).unwrap();
    lemma_entry_items_canonical(r1, n as nat, Seq::empty());
    let (es, r) = parse_entries(b).unwrap();
    assert(es.skip(0) =~= es);
    assert(b =~= enc_entries(es) + r);
}

/// The first operations of a sequence start with its first operation.
pub proof fn lemma_operates_prepend(m: OperateModel, s: Seq<OperateModel>, j: nat)
    requires
        j <= s.len(),
    ensures
        enc_operates(seq![m] + s, j + 1) == enc_operate(m) + enc_operates(s, j),
    decreases j,
{
    let all = seq![m] + s;
    if j == 0 {
        assert(enc_operates(all, 0) =~= Seq::empty());
        assert(enc_operates(all, 1) =~= enc_operate(m) + enc_operates(s, 0));
    } else {
        lemma_operates_prepend(m, s, (j - 1) as nat);
        assert(all[j as int] == s[j - 1]);
        assert(enc_operates(all, j + 1) =~= enc_operate(m) + enc_operates(s, j));
    }
}

/// Bytes that are read as a rename are the fields of that rename.
pub proof fn lemma_rename_key_canonical(b: Seq<u8>)
    requires
        parse_rename_key(b) is Ok,
    ensures
        seq![0u8] + b == enc_operate(parse_rename_key(b).unwrap().0) + parse_rename_key(
            b,
        ).unwrap().1,
        operate_fits(parse_rename_key(b).unwrap().0),
{
    lemma_text_canonical(b);
    let (old_key, r1) = parse_text(b).unwrap();
    lemma_text_canonical(r1);
    let (new_key, r) = parse_text(r1).unwrap();
    assert(seq![0u8] + b =~= seq![0u8] + (enc_text(old_key) + enc_text(new_key)) + r);
}

/// Bytes that are read as a key/value batch are the fields of that batch.
pub proof fn lemma_add_key_canonical(b: Seq<u8>)
    requires
        parse_add_key(b) is Ok,
    ensures
        seq![1u8] + b == enc_operate(parse_add_key(b).unwrap().0) + parse_add_key(b).unwrap().1,
        operate_fits(parse_add_key(b).unwrap().0),
{
    lemma_entries_canonical(b);
    let (es, r) = parse_entries(b).unwrap();
    assert(seq![1u8] + b =~= seq![1u8] + enc_entries(es) + r);
}

/// Bytes that are read as a delete are the fields of that delete.
pub proof fn lemma_delete_key_canonical(b: Seq<u8>)
    requires
        parse_delete_key(b) is Ok,
    ensures
        seq![3u8] + b == enc_operate(parse_delete_key(b).unwrap().0) + parse_delete_key(
            b,
        ).unwrap().1,
        operate_fits(parse_delete_key(b).unwrap().0),
{
    lemma_keys_canonical(b);
    let (ks, r) = parse_keys(b).unwrap();
    assert(seq![3u8] + b =~= seq![3u8] + enc_keys(ks) + r);
}

/// Bytes that are read as a read request are the fields of that request.
pub proof fn lemma_read_canonical(b: Seq<u8>)
    requires
        parse_read(b) is Ok,
    ensures
        seq![4u8] + b == enc_operate(parse_read(b).unwrap().0) + parse_read(b).unwrap().1,
        operate_fits(parse_read(b).unwrap().0),
{
    lemma_keys_canonical(b);
    let (ks, r1) = parse_keys(b).unwrap();
    lemma_u64_canonical(r1);
    let (addr, r2) = parse_u64(r1).unwrap();
    lemma_u64_canonical(r2);
    let (size, r) = parse_u64(r2).unwrap();
    assert((addr as usize) as u64 == addr);
    assert((size as usize) as u64 == size);
    assert(seq![4u8] + b =~= seq![4u8] + (enc_keys(ks) + enc_u64(addr) + enc_u64(size)) + r);
}

/// Bytes that are read as what may be nested are its byte form.
pub proof fn lemma_nested_canonical(b: Seq<u8>)
    requires
        parse_nested(b) is Ok,
    ensures
        b == enc_nested(parse_nested(b).unwrap().0) + parse_nested(b).unwrap().1,
        parse_nested(b).unwrap().0 matches Some(s) ==> set_fits(s),
    decreases b.len(), 0nat,
{
    if b[0] == 0 {
        assert(b =~= seq![0u8] + b.skip(1));
    } else {
        lemma_set_canonical(b.skip(1));
        let (s, r) = parse_set(b.skip(1)).unwrap();
        assert(b =~= seq![1u8] + b.skip(1));
        assert(b =~= (seq![1u8] + enc_set(s)) + r);
    }
}

/// Bytes that are read as a key and what may be nested under it are the byte
/// form of both.
pub proof fn lemma_key_nested_canonical(b: Seq<u8>)
    requires
        parse_key_nested(b) is Ok,
    ensures
        b == enc_text(parse_key_nested(b).unwrap().0.0) + enc_nested(
            parse_key_nested(b).unwrap().0.1,
        ) + parse_key_nested(b).unwrap().1,
        text_fits(parse_key_nested(b).unwrap().0.0),
        parse_key_nested(b).unwrap().0.1 matches Some(s) ==> set_fits(s),
    decreases b.len(), 1nat,
{
    lemma_text_canonical(b);
    let (k, r1) = parse_text(b).unwrap();
    lemma_nested_canonical(r1);
    let (o, r) = parse_nested(r1).unwrap();
    assert(b =~= enc_text(k) + enc_nested(o) + r);
}

/// Bytes that are read as an operation are the byte form of that operation.
pub proof fn lemma_operate_canonical(b: Seq<u8>)
    requires
        parse_operate(b) is Ok,
    ensures
        b == enc_operate(parse_operate(b).unwrap().0) + parse_operate(b).unwrap().1,
        operate_fits(parse_operate(b).unwrap().0),
    decreases b.len(), 2nat,
{
    let p = b.skip(1);
    assert(b =~= seq![b[0]] + p);
    if b[0] == 0 {
        lemma_rename_key_canonical(p);
    } else if b[0] == 1 {
        lemma_add_key_canonical(p);
    } else if b[0] == 2 {
        lemma_key_nested_canonical(p);
        let (kn, r) = parse_key_nested(p).unwrap();
        assert(b =~= seq![2u8] + (enc_text(kn.0) + enc_nested(kn.1)) + r);
    } else if b[0] == 3 {
        lemma_delete_key_canonical(p);
    } else if b[0] == 4 {
        lemma_read_canonical(p);
    } else {
        lemma_key_nested_canonical(p);
        let (kn, r) = parse_key_nested(p).unwrap();
        assert(b =~= seq![5u8] + (enc_text(kn.0) + enc_nested(kn.1)) + r);
    }
}

/// Bytes from which `n` operations are read start with the byte forms of
/// those operations.
pub proof fn lemma_operates_canonical(b: Seq<u8>, n: nat, acc: Seq<OperateModel>)
    requires
        parse_operates(b, n, acc) is Ok,
    ensures
        parse_operates(b, n, acc).unwrap().0.len() == acc.len() + n,
        parse_operates(b, n, acc).unwrap().0.take(acc.len() as int) == acc,
        b == enc_operates(parse_operates(b, n, acc).unwrap().0.skip(acc.len() as int), n)
            + parse_operates(b, n, acc).unwrap().1,
        forall|i: int|
            acc.len() <= i < parse_operates(b, n, acc).unwrap().0.len() ==> operate_fits(
                #[trigger] parse_operates(b, n, acc).unwrap().0[i],
            ),
    decreases b.len(), 3nat,
{
    let (s, r) = parse_operates(b, n, acc).unwrap();
    let a = acc.len() as int;
    if n == 0 {
        assert(s.take(a) =~= acc);
        assert(b =~= enc_operates(s.skip(a), 0) + r);
    } else {
        lemma_operate_canonical(b);
        let (m, r1) = parse_operate(b).unwrap();
        lemma_operates_canonical(r1, (n - 1) as nat, acc.push(m));
        assert(s.take(a + 1) == acc.push(m));
        assert(s.take(a) =~= s.take(a + 1).take(a));
        assert(s.take(a) =~= acc);
        assert(s[a] == s.take(a + 1)[a]);
        assert(s.skip(a) =~= seq![m] + s.skip(a + 1));
        lemma_operates_prepend(m, s.skip(a + 1), (n - 1) as nat);
        assert(b =~= enc_operates(s.skip(a), n) + r);
    }
}

/// Bytes that are read as a set start with the byte form of that set.
pub proof fn lemma_set_canonical(b: Seq<u8>)
    requires
        parse_set(b) is Ok,
    ensures
        b == enc_set(parse_set(b).unwrap().0) + parse_set(b).unwrap().1,
        set_fits(parse_set(b).unwrap().0),
    decreases b.len(), 4nat,
{
    lemma_u64_canonical(b);
    let (n, r1) = parse_u64(b).unwrap();
    lemma_operates_canonical(r1, n as nat, Seq::empty());
    let (s, r) = parse_set(b).unwrap();
    assert(s.skip(0) =~= s);
    assert(b =~= enc_set(s) + r);
}

/// Bytes are decoded to a set exactly where they are its byte form: every
/// set has one byte form, and no other bytes are read as it.
pub proof fn lemma_decode_iff_encoded(b: Seq<u8>, s: Seq<OperateModel>)
    ensures
        decode_set(b) == Ok::<_, SchemaDecodeError>(s) <==> set_fits(s) && b == enc_set(s),
{
    if decode_set(b) == Ok::<_, SchemaDecodeError>(s) {
        lemma_set_canonical(b);
        assert(enc_set(s) + Seq::<u8>::empty() =~= enc_set(s));
    }
    if set_fits(s) && b == enc_set(s) {
        lemma_decode_encode(s);
    }
}

} // verus!
