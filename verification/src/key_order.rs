//! The order of keys: that of their UTF-8 bytes, byte by byte, which is how
//! std orders texts.

use vstd::prelude::*;
use vstd::utf8::{encode_utf8, encode_utf8_decode_utf8};

verus! {

/// `a` and `b` agree before place `i`; there `b` goes on, while `a` ends or
/// holds a smaller byte.
pub open spec fn parts_at(a: Seq<u8>, b: Seq<u8>, i: int) -> bool {
    &&& 0 <= i <= a.len()
    &&& i < b.len()
    &&& forall|j: int| 0 <= j < i ==> a[j] == b[j]
    &&& (i < a.len() ==> a[i] < b[i])
}

/// `a` comes before `b`, byte by byte.
pub open spec fn bytes_lt(a: Seq<u8>, b: Seq<u8>) -> bool {
    exists|i: int| parts_at(a, b, i)
}

/// The key `a` comes before the key `b`.
pub open spec fn key_lt(a: Seq<char>, b: Seq<char>) -> bool {
    bytes_lt(encode_utf8(a), encode_utf8(b))
}

/// No key comes before itself.
pub proof fn lemma_key_lt_irreflexive(a: Seq<char>)
    ensures
        !key_lt(a, a),
{
    let x = encode_utf8(a);
    if bytes_lt(x, x) {
        let i = choose|i: int| parts_at(x, x, i);
        assert(false);
    }
}

/// What comes before a key comes before all that the key comes before.
pub proof fn lemma_key_lt_transitive(a: Seq<char>, b: Seq<char>, c: Seq<char>)
    requires
        key_lt(a, b),
        key_lt(b, c),
    ensures
        key_lt(a, c),
{
    let x = encode_utf8(a);
    let y = encode_utf8(b);
    let z = encode_utf8(c);
    let i1 = choose|i: int| parts_at(x, y, i);
    let i2 = choose|i: int| parts_at(y, z, i);
    if i1 <= i2 {
        assert(parts_at(x, z, i1));
    } else {
        assert(parts_at(x, z, i2));
    }
}

/// Of two byte sequences that agree before place `k` and are not the same,
/// one comes before the other.
pub proof fn lemma_bytes_lt_total_from(a: Seq<u8>, b: Seq<u8>, k: int)
    requires
        0 <= k <= a.len(),
        k <= b.len(),
        forall|j: int| 0 <= j < k ==> a[j] == b[j],
        a != b,
    ensures
        bytes_lt(a, b) || bytes_lt(b, a),
    decreases a.len() - k,
{
    if k == a.len() {
        if k == b.len() {
            assert(a =~= b);
        } else {
            assert(parts_at(a, b, k));
        }
    } else if k == b.len() {
        assert(parts_at(b, a, k));
    } else if a[k] < b[k] {
        assert(parts_at(a, b, k));
    } else if b[k] < a[k] {
        assert(parts_at(b, a, k));
    } else {
        lemma_bytes_lt_total_from(a, b, k + 1);
    }
}

/// Of two keys, one comes before the other, or they are the same key.
pub proof fn lemma_key_lt_total(a: Seq<char>, b: Seq<char>)
    ensures
        key_lt(a, b) || key_lt(b, a) || a == b,
{
    encode_utf8_decode_utf8(a);
    encode_utf8_decode_utf8(b);
    if encode_utf8(a) != encode_utf8(b) {
        lemma_bytes_lt_total_from(encode_utf8(a), encode_utf8(b), 0);
    }
}

/// Where a key stands to another.
pub enum KeyOrder {
    Before,
    Same,
    After,
}

/// Where `a` stands to `b`.
pub fn key_order(a: &str, b: &str) -> (res: KeyOrder)
    ensures
        res is Before <==> key_lt(a@, b@),
        res is Same <==> a@ == b@,
        res is After <==> key_lt(b@, a@),
{
    let x = a.as_bytes();
    let y = b.as_bytes();
    let n = x.len();
    let m = y.len();
    let mut i: usize = 0;
    while i < n && i < m && x[i] == y[i]
        invariant
            n == x@.len(),
            m == y@.len(),
            i <= n,
            i <= m,
            forall|j: int| 0 <= j < i ==> x@[j] == y@[j],
        decreases n - i,
    {
        i += 1;
    }
    proof {
        lemma_key_lt_irreflexive(a@);
        lemma_key_lt_irreflexive(b@);
        if key_lt(a@, b@) && key_lt(b@, a@) {
            lemma_key_lt_transitive(a@, b@, a@);
        }
        encode_utf8_decode_utf8(a@);
        encode_utf8_decode_utf8(b@);
    }
    if i == n && i == m {
        assert(x@ =~= y@);
        KeyOrder::Same
    } else if i == n {
        assert(parts_at(x@, y@, i as int));
        KeyOrder::Before
    } else if i == m {
        assert(parts_at(y@, x@, i as int));
        KeyOrder::After
    } else if x[i] < y[i] {
        assert(parts_at(x@, y@, i as int));
        KeyOrder::Before
    } else {
        assert(parts_at(y@, x@, i as int));
        KeyOrder::After
    }
}

} // verus!
