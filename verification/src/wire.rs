//! The byte form of an operation set, as a pair of mathematical functions:
//! what a set is written as, and what a sequence of bytes is read as.
//!
//! Numbers are eight bytes, least significant first. A value is its length
//! and its bytes; a text is the value of its UTF-8 bytes. A list is its
//! count and its items; the keys of a key/value list ascend. An operation is
//! one byte that tells its kind, then its fields; a nested set is one byte
//! that tells whether it is there, then the set. Every set has one byte form,
//! and no other bytes are read as it.

use crate::operate::{keys_sorted, OperateModel};
use vstd::bytes::{spec_u64_from_le_bytes, spec_u64_to_le_bytes};
use vstd::prelude::*;
use vstd::utf8::{decode_utf8, encode_utf8, valid_utf8};

verus! {

/// Why a sequence of bytes is not the byte form of an operation set.
#[derive(Debug, Clone, Copy, PartialEq, Eq)]
pub enum SchemaDecodeError {
    /// The bytes end inside a field.
    UnexpectedEnd,
    /// A text is not valid UTF-8.
    InvalidText,
    /// The keys of a key/value list do not ascend: one stands out of its
    /// place, or twice.
    UnorderedKeys,
    /// The byte that tells an operation's kind is none of the six.
    UnknownOperateKind,
    /// The byte that tells whether a nested set follows is neither 0 nor 1.
    InvalidPresence,
    /// A buffer address or size does not fit this machine's word.
    ValueTooLarge,
    /// Bytes follow the set.
    TrailingBytes,
}

/// What a reader that stood at `pos` of `bytes` came back with, `got`, is
/// what `spec` says of the bytes from `pos` on.
pub open spec fn reads<T>(
    bytes: Seq<u8>,
    pos: usize,
    spec: Parsed<T>,
    got: Result<(T, usize), SchemaDecodeError>,
) -> bool {
    match got {
        Ok((v, p)) => pos <= p <= bytes.len() && spec == Ok::<_, SchemaDecodeError>(
            (v, bytes.skip(p as int)),
        ),
        Err(e) => spec == Err::<(T, Seq<u8>), _>(e),
    }
}

/// What reading one item gives: the item and the bytes after it, or the
/// reason why there is no item.
pub type Parsed<T> = Result<(T, Seq<u8>), SchemaDecodeError>;

/// A number: eight bytes, least significant first.
pub open spec fn enc_u64(v: u64) -> Seq<u8> {
    spec_u64_to_le_bytes(v)
}

/// Reads a number from the first eight bytes.
pub open spec fn parse_u64(b: Seq<u8>) -> Parsed<u64> {
    if b.len() < 8 {
        Err(SchemaDecodeError::UnexpectedEnd)
    } else {
        Ok((spec_u64_from_le_bytes(b.subrange(0, 8)), b.skip(8)))
    }
}

/// A value: its length, then its bytes.
pub open spec fn enc_blob(d: Seq<u8>) -> Seq<u8> {
    enc_u64(d.len() as u64) + d
}

/// Reads a length and as many bytes.
pub open spec fn parse_blob(b: Seq<u8>) -> Parsed<Seq<u8>> {
    match parse_u64(b) {
        Err(e) => Err(e),
        Ok((n, r)) => if r.len() < n {
            Err(SchemaDecodeError::UnexpectedEnd)
        } else {
            Ok((r.subrange(0, n as int), r.skip(n as int)))
        },
    }
}

/// A text: the value of its UTF-8 bytes.
pub open spec fn enc_text(t: Seq<char>) -> Seq<u8> {
    enc_blob(encode_utf8(t))
}

/// Reads a value and takes it as UTF-8; bytes that are none are refused.
pub open spec fn parse_text(b: Seq<u8>) -> Parsed<Seq<char>> {
    match parse_blob(b) {
        Err(e) => Err(e),
        Ok((d, r)) => if valid_utf8(d) {
            Ok((decode_utf8(d), r))
        } else {
            Err(SchemaDecodeError::InvalidText)
        },
    }
}

/// The items of a list of keys, one after the other.
pub open spec fn enc_key_items(ks: Seq<Seq<char>>) -> Seq<u8>
    decreases ks.len(),
{
    if ks.len() == 0 {
        Seq::empty()
    } else {
        enc_key_items(ks.drop_last()) + enc_text(ks.last())
    }
}

/// Reads `n` keys and appends them to `acc`.
pub open spec fn parse_key_items(b: Seq<u8>, n: nat, acc: Seq<Seq<char>>) -> Parsed<Seq<Seq<char>>>
    decreases n,
{
    if n == 0 {
        Ok((acc, b))
    } else {
        match parse_text(b) {
            Err(e) => Err(e),
            Ok((k, r)) => parse_key_items(r, (n - 1) as nat, acc.push(k)),
        }
    }
}

/// A list of keys: their count, then each key.
pub open spec fn enc_keys(ks: Seq<Seq<char>>) -> Seq<u8> {
    enc_u64(ks.len() as u64) + enc_key_items(ks)
}

/// Reads a count and as many keys.
pub open spec fn parse_keys(b: Seq<u8>) -> Parsed<Seq<Seq<char>>> {
    match parse_u64(b) {
        Err(e) => Err(e),
        Ok((n, r)) => parse_key_items(r, n as nat, Seq::empty()),
    }
}

/// A key with its value.
pub open spec fn enc_entry(e: (Seq<char>, Seq<u8>)) -> Seq<u8> {
    enc_text(e.0) + enc_blob(e.1)
}

/// Reads a key and its value.
pub open spec fn parse_entry(b: Seq<u8>) -> Parsed<(Seq<char>, Seq<u8>)> {
    match parse_text(b) {
        Err(e) => Err(e),
        Ok((k, r)) => match parse_blob(r) {
            Err(e) => Err(e),
            Ok((v, r2)) => Ok(((k, v), r2)),
        },
    }
}

/// The items of a key/value list, one after the other.
pub open spec fn enc_entry_items(es: Seq<(Seq<char>, Seq<u8>)>) -> Seq<u8>
    decreases es.len(),
{
    if es.len() == 0 {
        Seq::empty()
    } else {
        enc_entry_items(es.drop_last()) + enc_entry(es.last())
    }
}

/// Reads `n` entries and appends them to `acc`.
pub open spec fn parse_entry_items(b: Seq<u8>, n: nat, acc: Seq<(Seq<char>, Seq<u8>)>) -> Parsed<
    Seq<(Seq<char>, Seq<u8>)>,
>
    decreases n,
{
    if n == 0 {
        Ok((acc, b))
    } else {
        match parse_entry(b) {
            Err(e) => Err(e),
            Ok((e, r)) => parse_entry_items(r, (n - 1) as nat, acc.push(e)),
        }
    }
}

/// A key/value list: the count, then each key with its value.
pub open spec fn enc_entries(es: Seq<(Seq<char>, Seq<u8>)>) -> Seq<u8> {
    enc_u64(es.len() as u64) + enc_entry_items(es)
}

/// Reads a key/value list; one whose keys do not ascend is refused.
pub open spec fn parse_entries(b: Seq<u8>) -> Parsed<Seq<(Seq<char>, Seq<u8>)>> {
    match parse_u64(b) {
        Err(e) => Err(e),
        Ok((n, r)) => match parse_entry_items(r, n as nat, Seq::empty()) {
            Err(e) => Err(e),
            Ok((es, r2)) => if keys_sorted(es) {
                Ok((es, r2))
            } else {
                Err(SchemaDecodeError::UnorderedKeys)
            },
        },
    }
}

/// The byte that tells an operation's kind.
pub open spec fn kind_byte(m: OperateModel) -> u8 {
    match m {
        OperateModel::RenameKey { .. } => 0,
        OperateModel::AddKey { .. } => 1,
        OperateModel::AddBucket { .. } => 2,
        OperateModel::DeleteKey { .. } => 3,
        OperateModel::Read { .. } => 4,
        OperateModel::StepInto { .. } => 5,
    }
}

/// One byte that tells whether a nested set follows, then the set.
pub open spec fn enc_nested(o: Option<Seq<OperateModel>>) -> Seq<u8>
    decreases o, 0nat,
{
    match o {
        None => seq![0u8],
        Some(s) => seq![1u8] + enc_set(s),
    }
}

/// An operation: the byte of its kind, then its fields in their order.
pub open spec fn enc_operate(m: OperateModel) -> Seq<u8>
    decreases m, 1nat,
{
    seq![kind_byte(m)] + match m {
        OperateModel::RenameKey { old_key, new_key } => enc_text(old_key) + enc_text(new_key),
        OperateModel::AddKey { entries } => enc_entries(entries),
        OperateModel::AddBucket { key, other } => enc_text(key) + enc_nested(other),
        OperateModel::DeleteKey { keys } => enc_keys(keys),
        OperateModel::Read { keys, buf_addr, buf_size } => enc_keys(keys) + enc_u64(buf_addr as u64)
            + enc_u64(buf_size as u64),
        OperateModel::StepInto { key, other } => enc_text(key) + enc_nested(other),
    }
}

/// The first `n` operations of `s`, one after the other.
pub open spec fn enc_operates(s: Seq<OperateModel>, n: nat) -> Seq<u8>
    decreases s, n,
{
    if n == 0 || n > s.len() {
        Seq::empty()
    } else {
        enc_operates(s, (n - 1) as nat) + enc_operate(s[n - 1])
    }
}

/// The byte form of an operation set.
pub open spec fn enc_set(s: Seq<OperateModel>) -> Seq<u8>
    decreases s, s.len() + 1,
{
    enc_u64(s.len() as u64) + enc_operates(s, s.len())
}

/// Reads whether a nested set follows, and the set if it does.
pub open spec fn parse_nested(b: Seq<u8>) -> Parsed<Option<Seq<OperateModel>>>
    decreases b.len(), 0nat,
{
    if b.len() == 0 {
        Err(SchemaDecodeError::UnexpectedEnd)
    } else if b[0] == 0 {
        Ok((None, b.skip(1)))
    } else if b[0] == 1 {
        match parse_set(b.skip(1)) {
            Err(e) => Err(e),
            Ok((s, r)) => Ok((Some(s), r)),
        }
    } else {
        Err(SchemaDecodeError::InvalidPresence)
    }
}

/// Reads a key and what may be nested under it.
pub open spec fn parse_key_nested(b: Seq<u8>) -> Parsed<(Seq<char>, Option<Seq<OperateModel>>)>
    decreases b.len(), 1nat,
{
    match parse_text(b) {
        Err(e) => Err(e),
        Ok((k, r)) => match parse_nested(r) {
            Err(e) => Err(e),
            Ok((o, r2)) => Ok(((k, o), r2)),
        },
    }
}

/// Reads the fields of a rename.
pub open spec fn parse_rename_key(b: Seq<u8>) -> Parsed<OperateModel> {
    match parse_text(b) {
        Err(e) => Err(e),
        Ok((old_key, r)) => match parse_text(r) {
            Err(e) => Err(e),
            Ok((new_key, r2)) => Ok((OperateModel::RenameKey { old_key, new_key }, r2)),
        },
    }
}

/// Reads the fields of a key/value batch.
pub open spec fn parse_add_key(b: Seq<u8>) -> Parsed<OperateModel> {
    match parse_entries(b) {
        Err(e) => Err(e),
        Ok((entries, r)) => Ok((OperateModel::AddKey { entries }, r)),
    }
}

/// Reads the fields of a delete.
pub open spec fn parse_delete_key(b: Seq<u8>) -> Parsed<OperateModel> {
    match parse_keys(b) {
        Err(e) => Err(e),
        Ok((keys, r)) => Ok((OperateModel::DeleteKey { keys }, r)),
    }
}

/// Reads the fields of a read request. An address or a size that this
/// machine's word cannot hold is refused.
pub open spec fn parse_read(b: Seq<u8>) -> Parsed<OperateModel> {
    match parse_keys(b) {
        Err(e) => Err(e),
        Ok((keys, r)) => match parse_u64(r) {
            Err(e) => Err(e),
            Ok((addr, r2)) => match parse_u64(r2) {
                Err(e) => Err(e),
                Ok((size, r3)) => if addr <= usize::MAX && size <= usize::MAX {
                    Ok(
                        (
                            OperateModel::Read {
                                keys,
                                buf_addr: addr as usize,
                                buf_size: size as usize,
                            },
                            r3,
                        ),
                    )
                } else {
                    Err(SchemaDecodeError::ValueTooLarge)
                },
            },
        },
    }
}

/// Reads one operation: the byte that tells its kind, then its fields.
pub open spec fn parse_operate(b: Seq<u8>) -> Parsed<OperateModel>
    decreases b.len(), 0nat,
{
    if b.len() == 0 {
        Err(SchemaDecodeError::UnexpectedEnd)
    } else {
        let p = b.skip(1);
        if b[0] == 0 {
            parse_rename_key(p)
        } else if b[0] == 1 {
            parse_add_key(p)
        } else if b[0] == 2 {
            match parse_key_nested(p) {
                Err(e) => Err(e),
                Ok((kn, r)) => Ok((OperateModel::AddBucket { key: kn.0, other: kn.1 }, r)),
            }
        } else if b[0] == 3 {
            parse_delete_key(p)
        } else if b[0] == 4 {
            parse_read(p)
        } else if b[0] == 5 {
            match parse_key_nested(p) {
                Err(e) => Err(e),
                Ok((kn, r)) => Ok((OperateModel::StepInto { key: kn.0, other: kn.1 }, r)),
            }
        } else {
            Err(SchemaDecodeError::UnknownOperateKind)
        }
    }
}

/// Reads `n` operations and appends them to `acc`. An operation takes at
/// least one byte, so fewer bytes are left after each; the test of that never
/// fails and only shows that the reading ends.
pub open spec fn parse_operates(b: Seq<u8>, n: nat, acc: Seq<OperateModel>) -> Parsed<
    Seq<OperateModel>,
>
    decreases b.len(), 1nat,
{
    if n == 0 {
        Ok((acc, b))
    } else {
        match parse_operate(b) {
            Err(e) => Err(e),
            Ok((m, r)) => if r.len() < b.len() {
                parse_operates(r, (n - 1) as nat, acc.push(m))
            } else {
                Err(SchemaDecodeError::UnexpectedEnd)
            },
        }
    }
}

/// Reads an operation set and gives the bytes after it.
pub open spec fn parse_set(b: Seq<u8>) -> Parsed<Seq<OperateModel>>
    decreases b.len(), 2nat,
{
    match parse_u64(b) {
        Err(e) => Err(e),
        Ok((n, r)) => parse_operates(r, n as nat, Seq::empty()),
    }
}

/// What a whole sequence of bytes is read as: the set that it is the byte
/// form of, or the reason why it is none.
pub open spec fn decode_set(b: Seq<u8>) -> Result<Seq<OperateModel>, SchemaDecodeError> {
    match parse_set(b) {
        Err(e) => Err(e),
        Ok((s, r)) => if r.len() == 0 {
            Ok(s)
        } else {
            Err(SchemaDecodeError::TrailingBytes)
        },
    }
}

} // verus!
