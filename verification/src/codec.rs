//! Writing an operation set as bytes and reading it back.

use crate::operate::{
    entries_model, keys_model, other_model, AddBucketOperate, AddKeyOperate, DeleteKeyOperate, Operate,
    OperateModel, OperateSet, ReadOperate, RenameKeyOperate, StepIntoOperate,
};
use crate::canonical::lemma_decode_iff_encoded;
use crate::round_trip::{
    blob_fits, entries_fit, keys_fit, lemma_decode_encode, operate_fits, set_fits, text_fits,
};
use crate::wire::{
    decode_set, enc_blob, enc_entries, enc_entry, enc_entry_items, enc_key_items, enc_keys,
    enc_nested, enc_operate, enc_operates, enc_set, enc_text, enc_u64, parse_blob, parse_entries,
    parse_entry_items, parse_key_items, parse_key_nested, parse_keys, parse_nested,
    parse_add_key, parse_delete_key, parse_operate, parse_operates, parse_read, parse_rename_key,
    parse_set, parse_text, parse_u64, reads, SchemaDecodeError,
};
use vstd::bytes::{u64_from_le_bytes, u64_to_le_bytes};
use vstd::prelude::*;
use vstd::slice::{slice_subrange, slice_to_vec};
use vstd::utf8::{decode_utf8, valid_utf8};

verus! {

/// Appends `src` to `out`.
fn put_bytes(out: &mut Vec<u8>, src: &[u8])
    ensures
        final(out)@ == old(out)@ + src@,
{
    let ghost base = out@;
    let n = src.len();
    let mut i: usize = 0;
    while i < n
        invariant
            n == src@.len(),
            i <= n,
            out@ == base + src@.take(i as int),
        decreases n - i,
    {
        out.push(src[i]);
        assert(out@ =~= base + src@.take(i + 1));
        i += 1;
    }
    assert(src@.take(n as int) =~= src@);
}

/// Appends the eight bytes of `v`.
fn put_u64(out: &mut Vec<u8>, v: u64)
    ensures
        final(out)@ == old(out)@ + enc_u64(v),
{
    let bytes = u64_to_le_bytes(v);
    put_bytes(out, bytes.as_slice());
}

/// Appends a value: its length, then its bytes.
fn put_blob(out: &mut Vec<u8>, d: &[u8])
    ensures
        final(out)@ == old(out)@ + enc_blob(d@),
        blob_fits(d@),
{
    let ghost base = out@;
    put_u64(out, d.len() as u64);
    put_bytes(out, d);
    assert(out@ =~= base + enc_blob(d@));
}

/// Appends a text as the value of its UTF-8 bytes.
fn put_text(out: &mut Vec<u8>, t: &str)
    ensures
        final(out)@ == old(out)@ + enc_text(t@),
        text_fits(t@),
{
    put_blob(out, t.as_bytes());
}

/// Appends a list of keys: their count, then each key.
fn put_keys(out: &mut Vec<u8>, keys: &Vec<String>)
    ensures
        final(out)@ == old(out)@ + enc_keys(keys_model(keys@)),
        keys_fit(keys_model(keys@)),
{
    let ghost base = out@;
    let ghost km = keys_model(keys@);
    let n = keys.len();
    put_u64(out, n as u64);
    let mut i: usize = 0;
    assert(enc_key_items(km.take(0)) =~= Seq::empty());
    assert(out@ =~= base + enc_u64(n as u64) + enc_key_items(km.take(0)));
    while i < n
        invariant
            n == keys.len(),
            i <= n,
            km == keys_model(keys@),
            out@ == base + enc_u64(n as u64) + enc_key_items(km.take(i as int)),
            forall|j: int| 0 <= j < i ==> text_fits(#[trigger] km[j]),
        decreases n - i,
    {
        put_text(out, keys[i].as_str());
        proof {
            let next = km.take(i + 1);
            assert(next.drop_last() =~= km.take(i as int));
            assert(next.last() == km[i as int]);
            assert(out@ =~= base + enc_u64(n as u64) + enc_key_items(next));
        }
        i += 1;
    }
    proof {
        assert(km.take(n as int) =~= km);
        assert(out@ =~= base + enc_keys(km));
    }
}

/// Appends a key/value list: the count, then each key with its value.
fn put_entries(out: &mut Vec<u8>, op: &AddKeyOperate)
    ensures
        final(out)@ == old(out)@ + enc_entries(op.entries()),
        entries_fit(op.entries()),
{
    let ghost base = out@;
    let ghost es = op.entries();
    let n = op.len();
    put_u64(out, n as u64);
    let mut i: usize = 0;
    assert(enc_entry_items(es.take(0)) =~= Seq::empty());
    assert(out@ =~= base + enc_u64(n as u64) + enc_entry_items(es.take(0)));
    while i < n
        invariant
            n == es.len(),
            i <= n,
            es == op.entries(),
            out@ == base + enc_u64(n as u64) + enc_entry_items(es.take(i as int)),
            forall|j: int| 0 <= j < i ==> text_fits((#[trigger] es[j]).0) && blob_fits(es[j].1),
        decreases n - i,
    {
        let ghost before = out@;
        match op.entry(i) {
            Some(e) => {
                put_text(out, e.0.as_str());
                put_blob(out, e.1.as_slice());
                proof {
                    let next = es.take(i + 1);
                    assert(next.drop_last() =~= es.take(i as int));
                    assert(next.last() == es[i as int]);
                    assert(out@ =~= before + enc_entry(es[i as int]));
                    assert(out@ =~= base + enc_u64(n as u64) + enc_entry_items(next));
                }
            },
            None => {
                assert(false);
            },
        }
        i += 1;
    }
    proof {
        assert(es.take(n as int) =~= es);
        assert(out@ =~= base + enc_entries(es));
    }
}

/// Appends the byte that tells whether a nested set follows, then the set.
fn put_nested(out: &mut Vec<u8>, other: &Option<Box<OperateSet>>)
    ensures
        final(out)@ == old(out)@ + enc_nested(other_model(*other)),
        other_model(*other) matches Some(s) ==> set_fits(s),
    decreases other, 0nat,
{
    let ghost base = out@;
    match other {
        None => {
            out.push(0u8);
            assert(out@ =~= base + seq![0u8]);
        },
        Some(set) => {
            out.push(1u8);
            put_set(out, set);
            assert(out@ =~= base + (seq![1u8] + enc_set(set@)));
        },
    }
}

/// Appends an operation: the byte of its kind, then its fields.
fn put_operate(out: &mut Vec<u8>, op: &Operate)
    ensures
        final(out)@ == old(out)@ + enc_operate(op@),
        operate_fits(op@),
    decreases op, 1nat,
{
    let ghost base = out@;
    match op {
        Operate::RenameKey(r) => {
            out.push(0u8);
            put_text(out, r.old_key.as_str());
            put_text(out, r.new_key.as_str());
            assert(out@ =~= base + (seq![0u8] + (enc_text(r.old_key@) + enc_text(r.new_key@))));
        },
        Operate::AddKey(a) => {
            out.push(1u8);
            put_entries(out, a);
            assert(out@ =~= base + (seq![1u8] + enc_entries(a.entries())));
        },
        Operate::AddBucket(b) => {
            out.push(2u8);
            put_text(out, b.key.as_str());
            put_nested(out, &b.other);
            assert(out@ =~= base + (seq![2u8] + (enc_text(b.key@) + enc_nested(
                other_model(b.other),
            ))));
        },
        Operate::DeleteKey(d) => {
            out.push(3u8);
            put_keys(out, &d.keys);
            assert(out@ =~= base + (seq![3u8] + enc_keys(d@)));
        },
        Operate::Read(r) => {
            out.push(4u8);
            put_keys(out, &r.keys);
            put_u64(out, r.buf_addr as u64);
            put_u64(out, r.buf_size as u64);
            assert(out@ =~= base + (seq![4u8] + (enc_keys(r.keys_view()) + enc_u64(
                r.buf_addr as u64,
            ) + enc_u64(r.buf_size as u64))));
        },
        Operate::StepInto(s) => {
            out.push(5u8);
            put_text(out, s.key.as_str());
            put_nested(out, &s.other);
            assert(out@ =~= base + (seq![5u8] + (enc_text(s.key@) + enc_nested(
                other_model(s.other),
            ))));
        },
    }
}

/// Appends a set: the count of its operations, then each of them.
fn put_set(out: &mut Vec<u8>, set: &OperateSet)
    ensures
        final(out)@ == old(out)@ + enc_set(set@),
        set_fits(set@),
    decreases set, 0nat,
{
    let ghost base = out@;
    let ghost sm = set@;
    let n = set.operate.len();
    put_u64(out, n as u64);
    let mut i: usize = 0;
    assert(out@ =~= base + enc_u64(n as u64) + enc_operates(sm, 0));
    while i < n
        invariant
            n == set.operate.len(),
            n == sm.len(),
            i <= n,
            sm == set@,
            out@ == base + enc_u64(n as u64) + enc_operates(sm, i as nat),
            forall|j: int| 0 <= j < i ==> operate_fits(#[trigger] sm[j]),
        decreases n - i,
    {
        put_operate(out, &set.operate[i]);
        proof {
            assert(sm[i as int] == set.operate[i as int]@);
            assert(out@ =~= base + enc_u64(n as u64) + enc_operates(sm, (i + 1) as nat));
        }
        i += 1;
    }
    proof {
        assert(out@ =~= base + enc_set(sm));
    }
}

impl OperateSet {
    /// The byte form of the set. Decoding it gives the set back.
    pub fn encode(&self) -> (bytes: Vec<u8>)
        ensures
            bytes@ == enc_set(self@),
            set_fits(self@),
            decode_set(bytes@) == Ok::<_, SchemaDecodeError>(self@),
    {
        let mut out: Vec<u8> = Vec::new();
        put_set(&mut out, self);
        proof {
            assert(out@ =~= enc_set(self@));
            lemma_decode_encode(self@);
        }
        out
    }
}

/// `String::from_utf8` of std: the text that `bytes` are the UTF-8 form of,
/// and nothing where they are not valid UTF-8.
#[verifier::external_body]
fn text_from_utf8(bytes: Vec<u8>) -> (res: Option<String>)
    ensures
        res is Some <==> valid_utf8(bytes@),
        res matches Some(s) ==> s@ == decode_utf8(bytes@),
{
    String::from_utf8(bytes).ok()
}

/// The model of what a reader of values came back with.
spec fn blob_got(res: Result<(Vec<u8>, usize), SchemaDecodeError>) -> Result<
    (Seq<u8>, usize),
    SchemaDecodeError,
> {
    match res {
        Ok((d, p)) => Ok((d@, p)),
        Err(e) => Err(e),
    }
}

/// The model of what a reader of texts came back with.
spec fn text_got(res: Result<(String, usize), SchemaDecodeError>) -> Result<
    (Seq<char>, usize),
    SchemaDecodeError,
> {
    match res {
        Ok((t, p)) => Ok((t@, p)),
        Err(e) => Err(e),
    }
}

/// The model of what a reader of key lists came back with.
spec fn keys_got(res: Result<(Vec<String>, usize), SchemaDecodeError>) -> Result<
    (Seq<Seq<char>>, usize),
    SchemaDecodeError,
> {
    match res {
        Ok((ks, p)) => Ok((keys_model(ks@), p)),
        Err(e) => Err(e),
    }
}

/// The model of what a reader of key/value lists came back with.
spec fn entries_got(res: Result<(AddKeyOperate, usize), SchemaDecodeError>) -> Result<
    (Seq<(Seq<char>, Seq<u8>)>, usize),
    SchemaDecodeError,
> {
    match res {
        Ok((op, p)) => Ok((op.entries(), p)),
        Err(e) => Err(e),
    }
}

/// The model of what a reader of nested sets came back with.
spec fn nested_got(
    res: Result<(Option<Box<OperateSet>>, usize), SchemaDecodeError>,
) -> Result<(Option<Seq<OperateModel>>, usize), SchemaDecodeError> {
    match res {
        Ok((o, p)) => Ok((other_model(o), p)),
        Err(e) => Err(e),
    }
}

/// The model of what a reader of a key and its nested set came back with.
spec fn key_nested_got(
    res: Result<((String, Option<Box<OperateSet>>), usize), SchemaDecodeError>,
) -> Result<((Seq<char>, Option<Seq<OperateModel>>), usize), SchemaDecodeError> {
    match res {
        Ok((kn, p)) => Ok(((kn.0@, other_model(kn.1)), p)),
        Err(e) => Err(e),
    }
}

/// The model of what a reader of operations came back with.
spec fn operate_got(res: Result<(Operate, usize), SchemaDecodeError>) -> Result<
    (OperateModel, usize),
    SchemaDecodeError,
> {
    match res {
        Ok((op, p)) => Ok((op@, p)),
        Err(e) => Err(e),
    }
}

/// The model of what a reader of sets came back with.
spec fn set_got(res: Result<(OperateSet, usize), SchemaDecodeError>) -> Result<
    (Seq<OperateModel>, usize),
    SchemaDecodeError,
> {
    match res {
        Ok((s, p)) => Ok((s@, p)),
        Err(e) => Err(e),
    }
}

/// Reads a number at `pos`; gives it with the place after it.
fn take_u64(bytes: &[u8], pos: usize) -> (res: Result<(u64, usize), SchemaDecodeError>)
    requires
        pos <= bytes@.len(),
    ensures
        reads(bytes@, pos, parse_u64(bytes@.skip(pos as int)), res),
        res matches Ok(t) ==> t.1 > pos,
{
    if bytes.len() - pos < 8 {
        return Err(SchemaDecodeError::UnexpectedEnd);
    }
    let v = u64_from_le_bytes(slice_subrange(bytes, pos, pos + 8));
    proof {
        let b = bytes@.skip(pos as int);
        assert(b.subrange(0, 8) =~= bytes@.subrange(pos as int, pos + 8));
        assert(b.skip(8) =~= bytes@.skip(pos + 8));
    }
    Ok((v, pos + 8))
}

/// Reads a value at `pos`.
fn take_blob(bytes: &[u8], pos: usize) -> (res: Result<(Vec<u8>, usize), SchemaDecodeError>)
    requires
        pos <= bytes@.len(),
    ensures
        reads(bytes@, pos, parse_blob(bytes@.skip(pos as int)), blob_got(res)),
        res matches Ok(t) ==> t.1 > pos,
{
    let (n, p) = match take_u64(bytes, pos) {
        Ok(t) => t,
        Err(e) => {
            return Err(e);
        },
    };
    let left = bytes.len() - p;
    if (left as u64) < n {
        return Err(SchemaDecodeError::UnexpectedEnd);
    }
    let len = n as usize;
    let d = slice_to_vec(slice_subrange(bytes, p, p + len));
    proof {
        let r = bytes@.skip(p as int);
        assert(r.subrange(0, n as int) =~= bytes@.subrange(p as int, p + len));
        assert(r.skip(n as int) =~= bytes@.skip(p + len));
    }
    Ok((d, p + len))
}

/// Reads a text at `pos`.
fn take_text(bytes: &[u8], pos: usize) -> (res: Result<(String, usize), SchemaDecodeError>)
    requires
        pos <= bytes@.len(),
    ensures
        reads(bytes@, pos, parse_text(bytes@.skip(pos as int)), text_got(res)),
        res matches Ok(t) ==> t.1 > pos,
{
    let (d, p) = match take_blob(bytes, pos) {
        Ok(t) => t,
        Err(e) => {
            return Err(e);
        },
    };
    match text_from_utf8(d) {
        Some(t) => Ok((t, p)),
        None => Err(SchemaDecodeError::InvalidText),
    }
}

/// Reads a list of keys at `pos`.
fn take_keys(bytes: &[u8], pos: usize) -> (res: Result<(Vec<String>, usize), SchemaDecodeError>)
    requires
        pos <= bytes@.len(),
    ensures
        reads(bytes@, pos, parse_keys(bytes@.skip(pos as int)), keys_got(res)),
        res matches Ok(t) ==> t.1 > pos,
{
    let (n, start) = match take_u64(bytes, pos) {
        Ok(t) => t,
        Err(e) => {
            return Err(e);
        },
    };
    let mut keys: Vec<String> = Vec::new();
    let mut p = start;
    let mut i: u64 = 0;
    assert(keys_model(keys@) =~= Seq::empty());
    while i < n
        invariant
            pos < start <= p <= bytes@.len(),
            i <= n,
            parse_keys(bytes@.skip(pos as int)) == parse_key_items(
                bytes@.skip(p as int),
                (n - i) as nat,
                keys_model(keys@),
            ),
        decreases n - i,
    {
        match take_text(bytes, p) {
            Err(e) => {
                return Err(e);
            },
            Ok((k, next)) => {
                assert(keys_model(keys@).push(k@) =~= keys_model(keys@.push(k)));
                keys.push(k);
                p = next;
            },
        }
        i += 1;
    }
    Ok((keys, p))
}

/// Reads a key/value list at `pos`.
fn take_entries(bytes: &[u8], pos: usize) -> (res: Result<(AddKeyOperate, usize), SchemaDecodeError>)
    requires
        pos <= bytes@.len(),
    ensures
        reads(bytes@, pos, parse_entries(bytes@.skip(pos as int)), entries_got(res)),
        res matches Ok(t) ==> t.1 > pos,
{
    let (n, start) = match take_u64(bytes, pos) {
        Ok(t) => t,
        Err(e) => {
            return Err(e);
        },
    };
    let mut entries: Vec<(String, Vec<u8>)> = Vec::new();
    let mut p = start;
    let mut i: u64 = 0;
    assert(entries_model(entries@) =~= Seq::empty());
    while i < n
        invariant
            pos < start <= p <= bytes@.len(),
            i <= n,
            parse_u64(bytes@.skip(pos as int)) == Ok::<_, SchemaDecodeError>(
                (n, bytes@.skip(start as int)),
            ),
            parse_entry_items(bytes@.skip(start as int), n as nat, Seq::empty())
                == parse_entry_items(
                bytes@.skip(p as int),
                (n - i) as nat,
                entries_model(entries@),
            ),
        decreases n - i,
    {
        let (k, mid) = match take_text(bytes, p) {
            Ok(t) => t,
            Err(e) => {
                return Err(e);
            },
        };
        let (v, next) = match take_blob(bytes, mid) {
            Ok(t) => t,
            Err(e) => {
                return Err(e);
            },
        };
        assert(entries_model(entries@).push((k@, v@)) =~= entries_model(entries@.push((k, v))));
        entries.push((k, v));
        p = next;
        i += 1;
    }
    match AddKeyOperate::from_entries(entries) {
        Some(op) => Ok((op, p)),
        None => Err(SchemaDecodeError::UnorderedKeys),
    }
}

/// Reads at `pos` whether a nested set follows, and the set if it does.
fn take_nested(bytes: &[u8], pos: usize) -> (res: Result<
    (Option<Box<OperateSet>>, usize),
    SchemaDecodeError,
>)
    requires
        pos <= bytes@.len(),
    ensures
        reads(bytes@, pos, parse_nested(bytes@.skip(pos as int)), nested_got(res)),
        res matches Ok(t) ==> t.1 > pos,
    decreases bytes@.len() - pos,
{
    if pos >= bytes.len() {
        return Err(SchemaDecodeError::UnexpectedEnd);
    }
    let flag = bytes[pos];
    proof {
        let b = bytes@.skip(pos as int);
        assert(b[0] == bytes@[pos as int]);
        assert(b.skip(1) =~= bytes@.skip(pos + 1));
    }
    if flag == 0 {
        Ok((None, pos + 1))
    } else if flag == 1 {
        match take_set(bytes, pos + 1) {
            Ok((set, p)) => Ok((Some(Box::new(set)), p)),
            Err(e) => Err(e),
        }
    } else {
        Err(SchemaDecodeError::InvalidPresence)
    }
}

/// Reads a key at `pos` and what may be nested under it.
fn take_key_nested(bytes: &[u8], pos: usize) -> (res: Result<
    ((String, Option<Box<OperateSet>>), usize),
    SchemaDecodeError,
>)
    requires
        pos <= bytes@.len(),
    ensures
        reads(bytes@, pos, parse_key_nested(bytes@.skip(pos as int)), key_nested_got(res)),
        res matches Ok(t) ==> t.1 > pos,
    decreases bytes@.len() - pos,
{
    let (key, p) = match take_text(bytes, pos) {
        Ok(t) => t,
        Err(e) => {
            return Err(e);
        },
    };
    match take_nested(bytes, p) {
        Ok((other, next)) => Ok(((key, other), next)),
        Err(e) => Err(e),
    }
}

/// Reads the fields of a rename at `pos`.
fn take_rename_key(bytes: &[u8], pos: usize) -> (res: Result<(Operate, usize), SchemaDecodeError>)
    requires
        pos <= bytes@.len(),
    ensures
        reads(bytes@, pos, parse_rename_key(bytes@.skip(pos as int)), operate_got(res)),
{
    let (old_key, p) = match take_text(bytes, pos) {
        Ok(t) => t,
        Err(e) => {
            return Err(e);
        },
    };
    let (new_key, next) = match take_text(bytes, p) {
        Ok(t) => t,
        Err(e) => {
            return Err(e);
        },
    };
    Ok((Operate::RenameKey(RenameKeyOperate { old_key, new_key }), next))
}

/// Reads the fields of a key/value batch at `pos`.
fn take_add_key(bytes: &[u8], pos: usize) -> (res: Result<(Operate, usize), SchemaDecodeError>)
    requires
        pos <= bytes@.len(),
    ensures
        reads(bytes@, pos, parse_add_key(bytes@.skip(pos as int)), operate_got(res)),
{
    match take_entries(bytes, pos) {
        Ok((op, p)) => Ok((Operate::AddKey(op), p)),
        Err(e) => Err(e),
    }
}

/// Reads the fields of a delete at `pos`.
fn take_delete_key(bytes: &[u8], pos: usize) -> (res: Result<(Operate, usize), SchemaDecodeError>)
    requires
        pos <= bytes@.len(),
    ensures
        reads(bytes@, pos, parse_delete_key(bytes@.skip(pos as int)), operate_got(res)),
{
    match take_keys(bytes, pos) {
        Ok((keys, p)) => Ok((Operate::DeleteKey(DeleteKeyOperate { keys }), p)),
        Err(e) => Err(e),
    }
}

/// Reads the fields of a read request at `pos`.
fn take_read(bytes: &[u8], pos: usize) -> (res: Result<(Operate, usize), SchemaDecodeError>)
    requires
        pos <= bytes@.len(),
    ensures
        reads(bytes@, pos, parse_read(bytes@.skip(pos as int)), operate_got(res)),
{
    let (keys, p) = match take_keys(bytes, pos) {
        Ok(t) => t,
        Err(e) => {
            return Err(e);
        },
    };
    let (addr, p2) = match take_u64(bytes, p) {
        Ok(t) => t,
        Err(e) => {
            return Err(e);
        },
    };
    let (size, p3) = match take_u64(bytes, p2) {
        Ok(t) => t,
        Err(e) => {
            return Err(e);
        },
    };
    if addr > usize::MAX as u64 || size > usize::MAX as u64 {
        return Err(SchemaDecodeError::ValueTooLarge);
    }
    Ok((Operate::Read(ReadOperate { keys, buf_addr: addr as usize, buf_size: size as usize }), p3))
}

/// Reads one operation at `pos`.
fn take_operate(bytes: &[u8], pos: usize) -> (res: Result<(Operate, usize), SchemaDecodeError>)
    requires
        pos <= bytes@.len(),
    ensures
        reads(bytes@, pos, parse_operate(bytes@.skip(pos as int)), operate_got(res)),
        res matches Ok(t) ==> t.1 > pos,
    decreases bytes@.len() - pos,
{
    if pos >= bytes.len() {
        return Err(SchemaDecodeError::UnexpectedEnd);
    }
    let kind = bytes[pos];
    let p = pos + 1;
    proof {
        let b = bytes@.skip(pos as int);
        assert(b[0] == bytes@[pos as int]);
        assert(b.skip(1) =~= bytes@.skip(p as int));
    }
    if kind == 0 {
        take_rename_key(bytes, p)
    } else if kind == 1 {
        take_add_key(bytes, p)
    } else if kind == 2 {
        match take_key_nested(bytes, p) {
            Ok((kn, next)) => Ok(
                (Operate::AddBucket(AddBucketOperate { key: kn.0, other: kn.1 }), next),
            ),
            Err(e) => Err(e),
        }
    } else if kind == 3 {
        take_delete_key(bytes, p)
    } else if kind == 4 {
        take_read(bytes, p)
    } else if kind == 5 {
        match take_key_nested(bytes, p) {
            Ok((kn, next)) => Ok(
                (Operate::StepInto(StepIntoOperate { key: kn.0, other: kn.1 }), next),
            ),
            Err(e) => Err(e),
        }
    } else {
        Err(SchemaDecodeError::UnknownOperateKind)
    }
}

/// Reads a set at `pos`.
fn take_set(bytes: &[u8], pos: usize) -> (res: Result<(OperateSet, usize), SchemaDecodeError>)
    requires
        pos <= bytes@.len(),
    ensures
        reads(bytes@, pos, parse_set(bytes@.skip(pos as int)), set_got(res)),
        res matches Ok(t) ==> t.1 > pos,
    decreases bytes@.len() - pos,
{
    let (n, start) = match take_u64(bytes, pos) {
        Ok(t) => t,
        Err(e) => {
            return Err(e);
        },
    };
    let mut set = OperateSet::new();
    let mut p = start;
    let mut i: u64 = 0;
    while i < n
        invariant
            pos < start <= p <= bytes@.len(),
            i <= n,
            parse_set(bytes@.skip(pos as int)) == parse_operates(
                bytes@.skip(p as int),
                (n - i) as nat,
                set@,
            ),
        decreases n - i,
    {
        match take_operate(bytes, p) {
            Err(e) => {
                return Err(e);
            },
            Ok((op, next)) => {
                set = set.add_operate(op);
                p = next;
            },
        }
        i += 1;
    }
    Ok((set, p))
}

impl OperateSet {
    /// The set that `bytes` are the byte form of, or the reason why they are
    /// the byte form of none.
    pub fn decode(bytes: &[u8]) -> (res: Result<OperateSet, SchemaDecodeError>)
        ensures
            match res {
                Ok(set) => decode_set(bytes@) == Ok::<_, SchemaDecodeError>(set@),
                Err(e) => decode_set(bytes@) == Err::<Seq<OperateModel>, _>(e),
            },
            res matches Ok(set) ==> bytes@ == enc_set(set@),
            res is Err ==> forall|s: Seq<OperateModel>| set_fits(s) ==> bytes@ != enc_set(s),
    {
        assert(bytes@.skip(0) =~= bytes@);
        let res = match take_set(bytes, 0) {
            Err(e) => Err(e),
            Ok((set, p)) => {
                if p == bytes.len() {
                    Ok(set)
                } else {
                    Err(SchemaDecodeError::TrailingBytes)
                }
            },
        };
        proof {
            assert forall|s: Seq<OperateModel>|
                decode_set(bytes@) == Ok::<_, SchemaDecodeError>(s) <==> set_fits(s) && bytes@
                    == enc_set(s) by {
                lemma_decode_iff_encoded(bytes@, s);
            }
        }
        res
    }
}

} // verus!
