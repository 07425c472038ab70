//! The operations of the protocol and the set that orders them.

use crate::key_order::{
    key_lt, key_order, lemma_key_lt_irreflexive, lemma_key_lt_total, lemma_key_lt_transitive,
    KeyOrder,
};
use vstd::prelude::*;

verus! {

/// The mathematical value of an [`Operate`]: texts as sequences of
/// characters, values as sequences of bytes, a nested set as the sequence of
/// its operations.
pub enum OperateModel {
    RenameKey { old_key: Seq<char>, new_key: Seq<char> },
    AddKey { entries: Seq<(Seq<char>, Seq<u8>)> },
    AddBucket { key: Seq<char>, other: Option<Seq<OperateModel>> },
    DeleteKey { keys: Seq<Seq<char>> },
    Read { keys: Seq<Seq<char>>, buf_addr: usize, buf_size: usize },
    StepInto { key: Seq<char>, other: Option<Seq<OperateModel>> },
}

/// The keys of a list, each as its sequence of characters.
pub open spec fn keys_model(keys: Seq<String>) -> Seq<Seq<char>> {
    Seq::new(keys.len(), |i: int| keys[i]@)
}

/// The entries of a key/value list, each as a pair of plain sequences.
pub open spec fn entries_model(entries: Seq<(String, Vec<u8>)>) -> Seq<(Seq<char>, Seq<u8>)> {
    Seq::new(entries.len(), |i: int| (entries[i].0@, entries[i].1@))
}

/// No key stands at two places of `entries`.
pub open spec fn keys_distinct(entries: Seq<(Seq<char>, Seq<u8>)>) -> bool {
    forall|i: int, j: int| 0 <= i < j < entries.len() ==> entries[i].0 != entries[j].0
}

/// `key` stands at place `i` of `entries`.
pub open spec fn key_at(entries: Seq<(Seq<char>, Seq<u8>)>, key: Seq<char>, i: int) -> bool {
    0 <= i < entries.len() && entries[i].0 == key
}

/// `key` stands somewhere in `entries`.
pub open spec fn has_key(entries: Seq<(Seq<char>, Seq<u8>)>, key: Seq<char>) -> bool {
    exists|i: int| key_at(entries, key, i)
}

/// The map that a list of entries with distinct keys stands for.
pub open spec fn entries_map(entries: Seq<(Seq<char>, Seq<u8>)>) -> Map<Seq<char>, Seq<u8>> {
    Map::new(
        |k: Seq<char>| has_key(entries, k),
        |k: Seq<char>| entries[choose|i: int| key_at(entries, k, i)].1,
    )
}

/// The keys of `entries` ascend: each comes before all that follow it.
pub open spec fn keys_sorted(entries: Seq<(Seq<char>, Seq<u8>)>) -> bool {
    forall|i: int, j: int| 0 <= i < j < entries.len() ==> key_lt(entries[i].0, entries[j].0)
}

/// `p` is the place of `key` among the ascending keys of `entries`, which do
/// not hold it: the keys before `p` come before `key`, the others after it.
pub open spec fn place_for(entries: Seq<(Seq<char>, Seq<u8>)>, key: Seq<char>, p: int) -> bool {
    &&& 0 <= p <= entries.len()
    &&& forall|j: int| 0 <= j < p ==> key_lt(entries[j].0, key)
    &&& forall|j: int| p <= j < entries.len() ==> key_lt(key, entries[j].0)
}

/// The entries after `key` is set to `value`: an entry that holds the key
/// takes the new value; a new key goes to its place among the ascending keys.
pub open spec fn entries_insert(
    entries: Seq<(Seq<char>, Seq<u8>)>,
    key: Seq<char>,
    value: Seq<u8>,
) -> Seq<(Seq<char>, Seq<u8>)> {
    if has_key(entries, key) {
        entries.update(choose|i: int| key_at(entries, key, i), (key, value))
    } else {
        entries.insert(choose|p: int| place_for(entries, key, p), (key, value))
    }
}

/// Ascending keys are distinct.
pub proof fn lemma_sorted_distinct(entries: Seq<(Seq<char>, Seq<u8>)>)
    requires
        keys_sorted(entries),
    ensures
        keys_distinct(entries),
{
    assert forall|i: int, j: int| 0 <= i < j < entries.len() implies entries[i].0
        != entries[j].0 by {
        lemma_key_lt_irreflexive(entries[i].0);
    }
}

/// A key has one place at most.
pub proof fn lemma_place_unique(
    entries: Seq<(Seq<char>, Seq<u8>)>,
    key: Seq<char>,
    p: int,
    q: int,
)
    requires
        place_for(entries, key, p),
        place_for(entries, key, q),
    ensures
        p == q,
{
    lemma_key_lt_irreflexive(key);
    if p < q {
        lemma_key_lt_transitive(key, entries[p].0, key);
    } else if q < p {
        lemma_key_lt_transitive(key, entries[q].0, key);
    }
}

/// A key that ascending entries do not hold has a place among them.
pub proof fn lemma_place_exists(entries: Seq<(Seq<char>, Seq<u8>)>, key: Seq<char>)
    requires
        keys_sorted(entries),
        !has_key(entries, key),
    ensures
        exists|p: int| place_for(entries, key, p),
    decreases entries.len(),
{
    if entries.len() == 0 {
        assert(place_for(entries, key, 0));
    } else {
        let n = entries.len() as int;
        let last = entries[n - 1];
        assert(!key_at(entries, key, n - 1));
        lemma_key_lt_total(last.0, key);
        if key_lt(last.0, key) {
            assert forall|j: int| 0 <= j < n implies key_lt(entries[j].0, key) by {
                if j < n - 1 {
                    lemma_key_lt_transitive(entries[j].0, last.0, key);
                }
            }
            assert(place_for(entries, key, n));
        } else {
            let front = entries.drop_last();
            assert(keys_sorted(front)) by {
                assert forall|i: int, j: int| 0 <= i < j < front.len() implies key_lt(
                    front[i].0,
                    front[j].0,
                ) by {
                    assert(front[i] == entries[i] && front[j] == entries[j]);
                }
            }
            if has_key(front, key) {
                let i = choose|i: int| key_at(front, key, i);
                assert(key_at(entries, key, i));
            }
            lemma_place_exists(front, key);
            let p = choose|p: int| place_for(front, key, p);
            assert forall|j: int| 0 <= j < p implies key_lt(entries[j].0, key) by {
                assert(front[j] == entries[j]);
            }
            assert forall|j: int| p <= j < entries.len() implies key_lt(key, entries[j].0) by {
                if j < n - 1 {
                    assert(front[j] == entries[j]);
                }
            }
            assert(place_for(entries, key, p));
        }
    }
}

/// Setting a key in a list with ascending keys keeps the keys ascending and
/// inserts into the map that the list stands for.
pub proof fn lemma_entries_insert(
    entries: Seq<(Seq<char>, Seq<u8>)>,
    key: Seq<char>,
    value: Seq<u8>,
)
    requires
        keys_sorted(entries),
    ensures
        keys_sorted(entries_insert(entries, key, value)),
        entries_map(entries_insert(entries, key, value)) == entries_map(entries).insert(key, value),
{
    let after = entries_insert(entries, key, value);
    let before_map = entries_map(entries);
    let after_map = entries_map(after);
    lemma_sorted_distinct(entries);
    if has_key(entries, key) {
        let p = choose|i: int| key_at(entries, key, i);
        assert forall|i: int, j: int| 0 <= i < j < after.len() implies key_lt(
            after[i].0,
            after[j].0,
        ) by {
            assert(after[i].0 == entries[i].0 && after[j].0 == entries[j].0);
        }
        lemma_sorted_distinct(after);
        assert forall|k: Seq<char>| has_key(after, k) <==> (k == key || has_key(entries, k)) by {
            if has_key(after, k) {
                let i = choose|i: int| key_at(after, k, i);
                assert(key_at(entries, after[i].0, i));
            }
            if k == key {
                assert(key_at(after, k, p));
            } else if has_key(entries, k) {
                let i = choose|i: int| key_at(entries, k, i);
                assert(key_at(after, k, i));
            }
        }
        assert forall|k: Seq<char>| has_key(after, k) implies #[trigger] after_map[k]
            == before_map.insert(key, value)[k] by {
            let i = choose|i: int| key_at(after, k, i);
            if k != key {
                assert(key_at(entries, k, i));
            }
        }
    } else {
        lemma_place_exists(entries, key);
        let p = choose|p: int| place_for(entries, key, p);
        assert(after == entries.insert(p, (key, value)));
        assert forall|i: int| 0 <= i < after.len() implies #[trigger] after[i] == (if i < p {
            entries[i]
        } else if i == p {
            (key, value)
        } else {
            entries[i - 1]
        }) by {}
        assert forall|i: int, j: int| 0 <= i < j < after.len() implies key_lt(
            after[i].0,
            after[j].0,
        ) by {
            if j < p {
                assert(key_lt(entries[i].0, entries[j].0));
            } else if j == p {
                assert(key_lt(entries[i].0, key));
            } else if i < p {
                assert(key_lt(entries[i].0, entries[j - 1].0));
            } else if i == p {
                assert(key_lt(key, entries[j - 1].0));
            } else {
                assert(key_lt(entries[i - 1].0, entries[j - 1].0));
            }
        }
        lemma_sorted_distinct(after);
        assert forall|k: Seq<char>| has_key(after, k) <==> (k == key || has_key(entries, k)) by {
            if has_key(after, k) {
                let i = choose|i: int| key_at(after, k, i);
                if i < p {
                    assert(key_at(entries, k, i));
                } else if i > p {
                    assert(key_at(entries, k, i - 1));
                }
            }
            if k == key {
                assert(key_at(after, k, p));
            } else if has_key(entries, k) {
                let i = choose|i: int| key_at(entries, k, i);
                if i < p {
                    assert(key_at(after, k, i));
                } else {
                    assert(key_at(after, k, i + 1));
                }
            }
        }
        assert forall|k: Seq<char>| has_key(after, k) implies #[trigger] after_map[k]
            == before_map.insert(key, value)[k] by {
            let i = choose|i: int| key_at(after, k, i);
            if k == key {
                assert(key_at(after, k, p));
            } else if i < p {
                assert(key_at(entries, k, i));
            } else {
                assert(key_at(entries, k, i - 1));
            }
        }
    }
    assert(after_map =~= before_map.insert(key, value));
}

/// The last write wins: a key that is set twice holds the second value, and
/// what the first write made of the other keys stays.
pub proof fn lemma_last_write_wins(
    entries: Seq<(Seq<char>, Seq<u8>)>,
    key: Seq<char>,
    first: Seq<u8>,
    second: Seq<u8>,
)
    requires
        keys_sorted(entries),
    ensures
        entries_map(entries_insert(entries_insert(entries, key, first), key, second))
            == entries_map(entries).insert(key, second),
        entries_insert(entries_insert(entries, key, first), key, second).len() == entries_insert(
            entries,
            key,
            first,
        ).len(),
{
    let once = entries_insert(entries, key, first);
    lemma_entries_insert(entries, key, first);
    lemma_entries_insert(once, key, second);
    assert(entries_map(entries).insert(key, first).insert(key, second) =~= entries_map(
        entries,
    ).insert(key, second));
    assert(entries_map(once).contains_key(key));
    assert(has_key(once, key));
}

/// The entries after each pair of `pairs` is set in turn, from none.
pub open spec fn entries_insert_all(pairs: Seq<(Seq<char>, Seq<u8>)>) -> Seq<(Seq<char>, Seq<u8>)>
    decreases pairs.len(),
{
    if pairs.len() == 0 {
        Seq::empty()
    } else {
        entries_insert(entries_insert_all(pairs.drop_last()), pairs.last().0, pairs.last().1)
    }
}

/// The pairs of a batch, each as a pair of plain sequences.
pub open spec fn pairs_model(pairs: Seq<(&str, Vec<u8>)>) -> Seq<(Seq<char>, Seq<u8>)> {
    Seq::new(pairs.len(), |i: int| (pairs[i].0@, pairs[i].1@))
}

/// The texts of a list, each as its sequence of characters.
pub open spec fn strs_model(keys: Seq<&str>) -> Seq<Seq<char>> {
    Seq::new(keys.len(), |i: int| keys[i]@)
}

/// The operation that sets each pair of `pairs` in turn: of two pairs with
/// one key the later one wins.
pub fn add_key(pairs: &[(&str, Vec<u8>)]) -> (res: AddKeyOperate)
    ensures
        res.entries() == entries_insert_all(pairs_model(pairs@)),
{
    let ghost pm = pairs_model(pairs@);
    let n = pairs.len();
    let mut res = AddKeyOperate::new();
    let mut i: usize = 0;
    assert(pm.take(0) =~= Seq::empty());
    while i < n
        invariant
            n == pairs@.len(),
            i <= n,
            pm == pairs_model(pairs@),
            res.entries() == entries_insert_all(pm.take(i as int)),
        decreases n - i,
    {
        let value = vstd::slice::slice_to_vec(pairs[i].1.as_slice());
        res = res.add_key(pairs[i].0, value);
        proof {
            let next = pm.take(i + 1);
            assert(next.drop_last() =~= pm.take(i as int));
            assert(next.last() == pm[i as int]);
        }
        i += 1;
    }
    assert(pm.take(n as int) =~= pm);
    res
}

/// The read request for `keys`, in their order, into the buffer of
/// `buf_size` bytes at `buf_addr`.
pub fn read_key(keys: &[&str], buf_addr: usize, buf_size: usize) -> (res: ReadOperate)
    ensures
        res.keys_view() == strs_model(keys@),
        res.buf_addr == buf_addr,
        res.buf_size == buf_size,
{
    let ghost km = strs_model(keys@);
    let n = keys.len();
    let mut res = ReadOperate::new();
    let mut i: usize = 0;
    assert(km.take(0) =~= Seq::empty());
    while i < n
        invariant
            n == keys@.len(),
            i <= n,
            km == strs_model(keys@),
            res.keys_view() == km.take(i as int),
        decreases n - i,
    {
        res = res.add_key(keys[i]);
        assert(km.take(i as int).push(km[i as int]) =~= km.take(i + 1));
        i += 1;
    }
    assert(km.take(n as int) =~= km);
    res.set_buf(buf_addr, buf_size)
}

/// The set of `operates`, in their order.
pub fn make_operate_set(operates: Vec<Operate>) -> (res: OperateSet)
    ensures
        res.operate == operates,
{
    OperateSet { operate: operates }
}

/// Rename `old_key` to `new_key` in the current bucket.
#[derive(Debug, PartialEq, Eq)]
pub struct RenameKeyOperate {
    pub old_key: String,
    pub new_key: String,
}

impl RenameKeyOperate {
    /// The rename of `old_key` to `new_key`. Neither is looked at.
    pub fn new(old_key: &str, new_key: &str) -> (res: Self)
        ensures
            res.old_key@ == old_key@,
            res.new_key@ == new_key@,
    {
        Self { old_key: old_key.to_owned(), new_key: new_key.to_owned() }
    }
}

/// Set key/value pairs in the current bucket. Each key is held once, and the
/// entries stand by ascending key, whatever the order in which they came: two
/// batches that set the same keys to the same values are the same batch.
#[derive(Debug, PartialEq, Eq)]
pub struct AddKeyOperate {
    entries: Vec<(String, Vec<u8>)>,
}

impl View for AddKeyOperate {
    type V = Map<Seq<char>, Seq<u8>>;

    /// The map from key to value.
    open spec fn view(&self) -> Map<Seq<char>, Seq<u8>> {
        entries_map(self.entries())
    }
}

impl AddKeyOperate {
    #[verifier::type_invariant]
    spec fn ascending(&self) -> bool {
        keys_sorted(entries_model(self.entries@))
    }

    /// The entries, by ascending key.
    pub closed spec fn entries(&self) -> Seq<(Seq<char>, Seq<u8>)> {
        entries_model(self.entries@)
    }

    /// The batch without entries.
    pub fn new() -> (res: Self)
        ensures
            res.entries() == Seq::<(Seq<char>, Seq<u8>)>::empty(),
            res@ == Map::<Seq<char>, Seq<u8>>::empty(),
    {
        let res = Self { entries: Vec::new() };
        assert(res.entries() =~= Seq::empty());
        assert(res@ =~= Map::empty()) by {
            assert forall|k: Seq<char>| !has_key(res.entries(), k) by {
                assert forall|i: int| !key_at(res.entries(), k, i) by {}
            }
        }
        res
    }

    /// Sets `key` to `value`; a value that the key had before is replaced.
    pub fn add_key(self, key: &str, value: Vec<u8>) -> (res: Self)
        ensures
            res@ == self@.insert(key@, value@),
            res.entries() == entries_insert(self.entries(), key@, value@),
    {
        proof {
            use_type_invariant(&self);
            lemma_entries_insert(self.entries(), key@, value@);
            lemma_sorted_distinct(self.entries());
        }
        let ghost before = self.entries();
        let ghost value_model = value@;
        let mut entries = self.entries;
        let n = entries.len();
        let mut i: usize = 0;
        while i < n && key_before(entries[i].0.as_str(), key)
            invariant
                n == entries.len(),
                i <= n,
                forall|j: int| 0 <= j < i ==> key_lt(before[j].0, key@),
                before == entries_model(entries@),
            decreases n - i,
        {
            i += 1;
        }
        if i < n && str_eq(entries[i].0.as_str(), key) {
            assert(key_at(before, key@, i as int));
            let ghost p = choose|p: int| key_at(before, key@, p);
            assert(p == i);
            entries.set(i, (key.to_owned(), value));
            assert(entries_model(entries@) =~= before.update(i as int, (key@, value_model)));
        } else {
            proof {
                lemma_key_lt_irreflexive(key@);
                assert forall|j: int| i <= j < before.len() implies key_lt(key@, before[j].0) by {
                    lemma_key_lt_total(before[i as int].0, key@);
                    if j > i {
                        lemma_key_lt_transitive(key@, before[i as int].0, before[j].0);
                    }
                }
                assert(place_for(before, key@, i as int));
                assert forall|j: int| !key_at(before, key@, j) by {}
                let p = choose|p: int| place_for(before, key@, p);
                lemma_place_unique(before, key@, p, i as int);
            }
            entries.insert(i, (key.to_owned(), value));
            assert(entries_model(entries@) =~= before.insert(i as int, (key@, value_model)));
        }
        Self { entries }
    }

    /// The operation that holds `entries` as they stand, where their keys
    /// ascend.
    pub fn from_entries(entries: Vec<(String, Vec<u8>)>) -> (res: Option<Self>)
        ensures
            res is Some <==> keys_sorted(entries_model(entries@)),
            res matches Some(op) ==> op.entries() == entries_model(entries@),
    {
        let ghost model = entries_model(entries@);
        let n = entries.len();
        let mut j: usize = 1;
        while j < n
            invariant
                n == entries.len(),
                1 <= j,
                model == entries_model(entries@),
                forall|a: int, b: int| 0 <= a < b < j && b < n ==> key_lt(model[a].0, model[b].0),
            decreases n - j,
        {
            if !key_before(entries[j - 1].0.as_str(), entries[j].0.as_str()) {
                assert(!key_lt(model[j - 1].0, model[j as int].0));
                return None;
            }
            proof {
                assert forall|a: int| 0 <= a < j implies key_lt(model[a].0, model[j as int].0) by {
                    if a < j - 1 {
                        lemma_key_lt_transitive(model[a].0, model[j - 1].0, model[j as int].0);
                    }
                }
            }
            j += 1;
        }
        Some(Self { entries })
    }

    /// The value that `key` is set to, if any.
    pub fn get(&self, key: &str) -> (res: Option<&Vec<u8>>)
        ensures
            res is Some <==> self@.contains_key(key@),
            res matches Some(v) ==> v@ == self@[key@],
    {
        proof {
            use_type_invariant(self);
            lemma_sorted_distinct(self.entries());
        }
        let n = self.entries.len();
        let mut i: usize = 0;
        while i < n && !str_eq(self.entries[i].0.as_str(), key)
            invariant
                n == self.entries.len(),
                i <= n,
                forall|j: int| 0 <= j < i ==> !key_at(self.entries(), key@, j),
            decreases n - i,
        {
            i += 1;
        }
        if i < n {
            assert(key_at(self.entries(), key@, i as int));
            let ghost p = choose|p: int| key_at(self.entries(), key@, p);
            assert(p == i) by {
                if p < i {
                    assert(!key_at(self.entries(), key@, p));
                }
            }
            Some(&self.entries[i].1)
        } else {
            assert(!has_key(self.entries(), key@));
            None
        }
    }

    /// The number of keys. The keys ascend.
    pub fn len(&self) -> (res: usize)
        ensures
            res == self.entries().len(),
            keys_sorted(self.entries()),
    {
        proof {
            use_type_invariant(self);
        }
        self.entries.len()
    }

    /// The entry at place `i`, if there is one.
    pub fn entry(&self, i: usize) -> (res: Option<(&String, &Vec<u8>)>)
        ensures
            res is Some <==> i < self.entries().len(),
            res matches Some(e) ==> (e.0@, e.1@) == self.entries()[i as int],
    {
        if i < self.entries.len() {
            Some((&self.entries[i].0, &self.entries[i].1))
        } else {
            None
        }
    }
}

/// Create, or open, the child bucket `key`; a nested set, where present, runs
/// with that child as the current bucket.
#[derive(Debug, PartialEq, Eq)]
pub struct AddBucketOperate {
    pub key: String,
    pub other: Option<Box<OperateSet>>,
}

/// The model of a nested set that may be absent.
pub open spec fn other_model(other: Option<Box<OperateSet>>) -> Option<Seq<OperateModel>> {
    match other {
        Some(set) => Some(set@),
        None => None,
    }
}

impl AddBucketOperate {
    /// The operation on the child bucket `key`, with `other` to run in it.
    pub fn new(key: &str, other: Option<Box<OperateSet>>) -> (res: Self)
        ensures
            res.key@ == key@,
            res.other == other,
    {
        Self { key: key.to_owned(), other }
    }

    /// Attaches `other` as the nested set, in place of one that was there.
    pub fn add_other(&mut self, other: Box<OperateSet>)
        ensures
            final(self).key == old(self).key,
            final(self).other == Some(other),
    {
        self.other = Some(other);
    }
}

/// Open the existing child bucket `key`; a nested set, where present, runs
/// with that child as the current bucket.
#[derive(Debug, PartialEq, Eq)]
pub struct StepIntoOperate {
    pub key: String,
    pub other: Option<Box<OperateSet>>,
}

impl StepIntoOperate {
    /// The operation on the child bucket `key`, with `other` to run in it.
    pub fn new(key: &str, other: Option<Box<OperateSet>>) -> (res: Self)
        ensures
            res.key@ == key@,
            res.other == other,
    {
        Self { key: key.to_owned(), other }
    }

    /// Attaches `other` as the nested set, in place of one that was there.
    pub fn add_other(&mut self, other: Box<OperateSet>)
        ensures
            final(self).key == old(self).key,
            final(self).other == Some(other),
    {
        self.other = Some(other);
    }
}

/// Delete each listed key from the current bucket, in order.
#[derive(Debug, PartialEq, Eq)]
pub struct DeleteKeyOperate {
    pub keys: Vec<String>,
}

impl View for DeleteKeyOperate {
    type V = Seq<Seq<char>>;

    /// The keys in order.
    open spec fn view(&self) -> Seq<Seq<char>> {
        keys_model(self.keys@)
    }
}

impl DeleteKeyOperate {
    /// The delete of no key.
    pub fn new() -> (res: Self)
        ensures
            res@ == Seq::<Seq<char>>::empty(),
    {
        let res = Self { keys: Vec::new() };
        assert(res@ =~= Seq::empty());
        res
    }

    /// Appends `key`; the keys before it keep their places.
    pub fn add_key(self, key: &str) -> (res: Self)
        ensures
            res@ == self@.push(key@),
    {
        let mut keys = self.keys;
        let ghost before = keys_model(keys@);
        keys.push(key.to_owned());
        assert(keys_model(keys@) =~= before.push(key@));
        Self { keys }
    }
}

/// Read the values of the listed keys into the caller's buffer of `buf_size`
/// bytes at `buf_addr`. The address is carried, never followed.
#[derive(Debug, PartialEq, Eq)]
pub struct ReadOperate {
    pub keys: Vec<String>,
    pub buf_addr: usize,
    pub buf_size: usize,
}

impl ReadOperate {
    /// The keys in order.
    pub open spec fn keys_view(&self) -> Seq<Seq<char>> {
        keys_model(self.keys@)
    }

    /// The read of no key, with no destination yet: address and size 0.
    pub fn new() -> (res: Self)
        ensures
            res.keys_view() == Seq::<Seq<char>>::empty(),
            res.buf_addr == 0,
            res.buf_size == 0,
    {
        let res = Self { keys: Vec::new(), buf_addr: 0, buf_size: 0 };
        assert(res.keys_view() =~= Seq::empty());
        res
    }

    /// Appends `key`; the keys before it and the buffer stay.
    pub fn add_key(self, key: &str) -> (res: Self)
        ensures
            res.keys_view() == self.keys_view().push(key@),
            res.buf_addr == self.buf_addr,
            res.buf_size == self.buf_size,
    {
        let mut keys = self.keys;
        let ghost before = keys_model(keys@);
        keys.push(key.to_owned());
        assert(keys_model(keys@) =~= before.push(key@));
        Self { keys, buf_addr: self.buf_addr, buf_size: self.buf_size }
    }

    /// Sets the destination; an earlier destination is forgotten.
    pub fn set_buf(self, buf_addr: usize, buf_size: usize) -> (res: Self)
        ensures
            res.keys == self.keys,
            res.keys_view() == self.keys_view(),
            res.buf_addr == buf_addr,
            res.buf_size == buf_size,
    {
        Self { keys: self.keys, buf_addr, buf_size }
    }
}

/// One operation on the current bucket: exactly one of six kinds.
#[derive(Debug, PartialEq, Eq)]
pub enum Operate {
    RenameKey(RenameKeyOperate),
    AddKey(AddKeyOperate),
    AddBucket(AddBucketOperate),
    DeleteKey(DeleteKeyOperate),
    Read(ReadOperate),
    StepInto(StepIntoOperate),
}

impl Operate {
    /// The value of the operation, nested sets included.
    pub open spec fn model(self) -> OperateModel
        decreases self,
    {
        match self {
            Operate::RenameKey(op) => OperateModel::RenameKey {
                old_key: op.old_key@,
                new_key: op.new_key@,
            },
            Operate::AddKey(op) => OperateModel::AddKey { entries: op.entries() },
            Operate::AddBucket(op) => OperateModel::AddBucket {
                key: op.key@,
                other: match op.other {
                    Some(set) => Some(set.model()),
                    None => None,
                },
            },
            Operate::DeleteKey(op) => OperateModel::DeleteKey { keys: op@ },
            Operate::Read(op) => OperateModel::Read {
                keys: op.keys_view(),
                buf_addr: op.buf_addr,
                buf_size: op.buf_size,
            },
            Operate::StepInto(op) => OperateModel::StepInto {
                key: op.key@,
                other: match op.other {
                    Some(set) => Some(set.model()),
                    None => None,
                },
            },
        }
    }
}

impl View for Operate {
    type V = OperateModel;

    open spec fn view(&self) -> OperateModel {
        self.model()
    }
}

/// An ordered sequence of operations: the order is the order of execution.
#[derive(Debug, PartialEq, Eq)]
pub struct OperateSet {
    pub operate: Vec<Operate>,
}

impl View for OperateSet {
    type V = Seq<OperateModel>;

    open spec fn view(&self) -> Seq<OperateModel> {
        self.model()
    }
}

impl OperateSet {
    /// The values of the operations, in order.
    pub open spec fn model(self) -> Seq<OperateModel>
        decreases self,
    {
        Seq::new(
            self.operate.len() as nat,
            |i: int|
                if 0 <= i < self.operate.len() {
                    self.operate[i].model()
                } else {
                    arbitrary()
                },
        )
    }

    /// The set without operations.
    pub fn new() -> (res: Self)
        ensures
            res@ == Seq::<OperateModel>::empty(),
    {
        let res = Self { operate: Vec::new() };
        assert(res@ =~= Seq::empty());
        res
    }

    /// Appends `operate`; the operations before it keep their places.
    pub fn add_operate(self, operate: Operate) -> (res: Self)
        ensures
            res.operate@ == self.operate@.push(operate),
            res@ == self@.push(operate@),
    {
        let ghost before = self@;
        let mut list = self.operate;
        list.push(operate);
        let res = Self { operate: list };
        assert(res@ =~= before.push(operate@));
        res
    }
}

/// Whether two keys are the same.
fn str_eq(a: &str, b: &str) -> (res: bool)
    ensures
        res == (a@ == b@),
{
    match key_order(a, b) {
        KeyOrder::Same => true,
        _ => false,
    }
}

/// Whether `a` comes before `b`.
fn key_before(a: &str, b: &str) -> (res: bool)
    ensures
        res == key_lt(a@, b@),
{
    match key_order(a, b) {
        KeyOrder::Before => true,
        _ => false,
    }
}

} // verus!
