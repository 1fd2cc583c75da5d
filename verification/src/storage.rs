//! The persistence-backed cell: a key-value storage model, the JSON
//! encoding of the stored value, and the construction and write-through
//! rules of a cell whose value survives in that storage.
//!
//! The storage model stands for the host's string store. Construction
//! reads the cell's key: a present, well-formed value becomes the initial
//! value, anything else falls back to the supplied default. Every
//! assignment writes the new value's encoding back under the same key.

use vstd::prelude::*;

use crate::signal::{Cmd, Event, Signal, spec_set};

verus! {

/// One stored pair.
pub struct Entry {
    pub key: Vec<u8>,
    pub value: Vec<u8>,
}

/// The position of the first entry under `key`, at or after `i`.
pub open spec fn spec_find_key(es: Seq<Entry>, key: Seq<u8>, i: nat) -> Option<nat>
    decreases es.len() - i,
{
    if i >= es.len() {
        None
    } else if es[i as int].key@ == key {
        Some(i)
    } else {
        spec_find_key(es, key, i + 1)
    }
}

/// What the storage holds under `key`.
pub open spec fn spec_get(es: Seq<Entry>, key: Seq<u8>) -> Option<Seq<u8>> {
    match spec_find_key(es, key, 0) {
        Some(j) => Some(es[j as int].value@),
        None => None,
    }
}

/// A key-value store of byte strings: the model of the host's persistent
/// storage.
pub struct StorageModel {
    entries: Vec<Entry>,
}

impl View for StorageModel {
    type V = Seq<Entry>;

    closed spec fn view(&self) -> Seq<Entry> {
        self.entries@
    }
}

impl StorageModel {
    /// An empty store.
    pub fn new() -> (s: StorageModel)
        ensures
            s@ == Seq::<Entry>::empty(),
    {
        StorageModel { entries: Vec::new() }
    }

    /// What stands under `key`, if anything.
    pub fn get_item(&self, key: &[u8]) -> (r: Option<Vec<u8>>)
        ensures
            ({
                match r {
                    Some(v) => spec_get(self@, key@) == Some(v@),
                    None => spec_get(self@, key@) is None,
                }
            }),
    {
        let mut i: usize = 0;
        while i < self.entries.len()
            invariant
                i <= self.entries@.len(),
                self@ == self.entries@,
                spec_find_key(self@, key@, 0) == spec_find_key(self@, key@, i as nat),
            decreases self.entries@.len() - i,
        {
            if crate::bytes::bytes_eq(self.entries[i].key.as_slice(), key) {
                proof {
                    assert(spec_find_key(self@, key@, i as nat) == Some(i as nat));
                }
                return Some(crate::bytes::clone_bytes(&self.entries[i].value));
            }
            i += 1;
        }
        proof {
            assert(spec_find_key(self@, key@, self.entries@.len() as nat) is None);
        }
        None
    }

    /// Writes `value` under `key`, replacing what stood there: afterwards
    /// the store holds `value` under `key` and is unchanged under every
    /// other key.
    pub fn set_item(&mut self, key: &[u8], value: Vec<u8>)
        ensures
            spec_get(final(self)@, key@) == Some(value@),
            forall|k: Seq<u8>|
                k != key@ ==> #[trigger] spec_get(final(self)@, k) == spec_get(old(self)@, k),
    {
        let ghost pre = self.entries@;
        let mut i: usize = 0;
        while i < self.entries.len()
            invariant
                i <= self.entries@.len(),
                self.entries@ == pre,
                pre == old(self)@,
                spec_find_key(pre, key@, 0) == spec_find_key(pre, key@, i as nat),
            decreases self.entries@.len() - i,
        {
            if crate::bytes::bytes_eq(self.entries[i].key.as_slice(), key) {
                proof {
                    assert(spec_find_key(pre, key@, i as nat) == Some(i as nat));
                }
                let k2 = crate::bytes::copy_range(key, 0, key.len());
                proof {
                    assert(key@.subrange(0, key@.len() as int) =~= key@);
                }
                let ghost valuev = value@;
                let e = Entry { key: k2, value };
                self.entries.remove(i);
                self.entries.insert(i, e);
                proof {
                    assert(self.entries@ =~= pre.update(i as int, e));
                    lemma_put_at(pre, self.entries@, i as nat, key@);
                    assert(spec_find_key(self.entries@, key@, 0) == Some(i as nat));
                    assert(self.entries@[i as int].value@ == valuev);
                }
                return ;
            }
            i += 1;
        }
        proof {
            assert(spec_find_key(pre, key@, self.entries@.len() as nat) is None);
        }
        let k2 = crate::bytes::copy_range(key, 0, key.len());
        proof {
            assert(key@.subrange(0, key@.len() as int) =~= key@);
        }
        let e = Entry { key: k2, value };
        self.entries.push(e);
        proof {
            lemma_put_push(pre, self.entries@, key@);
        }
    }
}

/// After replacing the entry at `j`, whose key was `key`, with one that
/// carries `key` again: searches for `key` land at `j` as before, and
/// searches for any other key see the same entries.
proof fn lemma_put_at(pre: Seq<Entry>, post: Seq<Entry>, j: nat, key: Seq<u8>)
    requires
        j < pre.len(),
        pre[j as int].key@ == key,
        post.len() == pre.len(),
        post[j as int].key@ == key,
        forall|m: int| 0 <= m < pre.len() && m != j ==> post[m] == pre[m],
    ensures
        spec_find_key(post, key, 0) == spec_find_key(pre, key, 0),
        forall|k: Seq<u8>|
            k != key ==> #[trigger] spec_get(post, k) == spec_get(pre, k),
{
    lemma_find_other(pre, post, j, key, key, 0);
    assert forall|k: Seq<u8>| k != key implies #[trigger] spec_get(post, k) == spec_get(
        pre,
        k,
    ) by {
        lemma_find_other(pre, post, j, key, k, 0);
        match spec_find_key(pre, k, 0) {
            Some(m) => {
                lemma_find_in_range(pre, k, 0);
                assert(pre[m as int].key@ == k);
                assert(m != j);
                assert(post[m as int] == pre[m as int]);
            },
            None => {},
        }
    }
}

/// Replacing one entry with another under the same key leaves every
/// search where it was.
proof fn lemma_find_other(pre: Seq<Entry>, post: Seq<Entry>, j: nat, key: Seq<u8>, k: Seq<u8>, i: nat)
    requires
        j < pre.len(),
        pre[j as int].key@ == key,
        post.len() == pre.len(),
        post[j as int].key@ == key,
        forall|m: int| 0 <= m < pre.len() && m != j ==> post[m] == pre[m],
        i <= pre.len(),
    ensures
        spec_find_key(post, k, i) == spec_find_key(pre, k, i),
    decreases pre.len() - i,
{
    if i < pre.len() {
        if i == j {
            if k != key {
                lemma_find_other(pre, post, j, key, k, i + 1);
            }
        } else {
            assert(post[i as int] == pre[i as int]);
            if pre[i as int].key@ != k {
                lemma_find_other(pre, post, j, key, k, i + 1);
            }
        }
    }
}

/// A found position lies in range and holds the key.
proof fn lemma_find_in_range(es: Seq<Entry>, k: Seq<u8>, i: nat)
    requires
        i <= es.len(),
    ensures
        (spec_find_key(es, k, i) matches Some(m) ==> i <= m && m < es.len() && es[m as int].key@
            == k),
    decreases es.len() - i,
{
    if i < es.len() && es[i as int].key@ != k {
        lemma_find_in_range(es, k, i + 1);
    }
}

/// After appending an entry under a fresh key: that key is found at the
/// end, and every other key sees the same entries.
proof fn lemma_put_push(pre: Seq<Entry>, post: Seq<Entry>, key: Seq<u8>)
    requires
        spec_find_key(pre, key, 0) is None,
        post.len() == pre.len() + 1,
        post[pre.len() as int].key@ == key,
        forall|m: int| 0 <= m < pre.len() ==> post[m] == pre[m],
    ensures
        spec_get(post, key) == Some(post[pre.len() as int].value@),
        forall|k: Seq<u8>|
            k != key ==> #[trigger] spec_get(post, k) == spec_get(pre, k),
{
    lemma_push_find(pre, post, key, key, 0);
    assert(spec_find_key(post, key, 0) == Some(pre.len() as nat));
    assert forall|k: Seq<u8>| k != key implies #[trigger] spec_get(post, k) == spec_get(
        pre,
        k,
    ) by {
        lemma_push_find(pre, post, key, k, 0);
        match spec_find_key(pre, k, 0) {
            Some(m) => {
                lemma_find_in_range(pre, k, 0);
                assert(post[m as int] == pre[m as int]);
            },
            None => {},
        }
    }
}

/// Searching the extended run: a key found before is found at the same
/// place; a key not found before is found at the end exactly where the new
/// entry carries it.
proof fn lemma_push_find(pre: Seq<Entry>, post: Seq<Entry>, key: Seq<u8>, k: Seq<u8>, i: nat)
    requires
        post.len() == pre.len() + 1,
        post[pre.len() as int].key@ == key,
        forall|m: int| 0 <= m < pre.len() ==> post[m] == pre[m],
        i <= pre.len(),
    ensures
        spec_find_key(pre, k, i) matches Some(m) ==> spec_find_key(post, k, i) == Some(m),
        spec_find_key(pre, k, i) is None && k == key ==> spec_find_key(post, k, i) == Some(
            pre.len() as nat,
        ),
        spec_find_key(pre, k, i) is None && k != key ==> spec_find_key(post, k, i) is None,
    decreases pre.len() - i,
{
    if i < pre.len() {
        if pre[i as int].key@ != k {
            lemma_push_find(pre, post, key, k, i + 1);
        }
    } else {
        if k != key {
            assert(spec_find_key(post, k, i + 1) is None);
        }
    }
}

/// The decimal digits of `n`, most significant first.
pub open spec fn dec_digits(n: nat) -> Seq<u8>
    decreases n,
{
    if n < 10 {
        seq![(48 + n) as u8]
    } else {
        dec_digits(n / 10).push((48 + n % 10) as u8)
    }
}

/// The JSON encoding of an integer: its decimal notation, a leading minus
/// sign for negatives.
pub open spec fn json_i64(v: int) -> Seq<u8> {
    if v < 0 {
        seq![45u8] + dec_digits((-v) as nat)
    } else {
        dec_digits(v as nat)
    }
}

/// What JSON text parses to as an integer, where it does.
pub uninterp spec fn parsed_i64(s: Seq<u8>) -> Option<i64>;

/// Relies on serde_json::to_vec: an i64 serializes as its decimal
/// notation, and serializing an integer cannot fail.
#[verifier::external_body]
fn to_json_i64(v: i64) -> (r: Vec<u8>)
    ensures
        r@ == json_i64(v as int),
{
    serde_json::to_vec(&v).unwrap()
}

/// Relies on serde_json::from_slice: what the bytes parse to depends on
/// the bytes alone, and the decimal notation of an i64 parses back to
/// that value.
#[verifier::external_body]
fn from_json_i64(s: &[u8]) -> (r: Option<i64>)
    ensures
        r == parsed_i64(s@),
        forall|v: i64| s@ == json_i64(v as int) ==> r == Some(v),
{
    serde_json::from_slice(s).ok()
}

/// The initial value of a persistence-backed cell: the stored text's value
/// where one is stored and parses, the supplied default otherwise.
pub open spec fn spec_initial(stored: Option<Seq<u8>>, default: i64) -> i64 {
    match stored {
        Some(j) => match parsed_i64(j) {
            Some(v) => v,
            None => default,
        },
        None => default,
    }
}

/// A reactive cell whose initial value is read from the store under `key`:
/// a present, well-formed value decodes to the initial value, anything
/// else falls back to `default`. A read or decode failure is absorbed, as
/// persistence is best effort.
pub fn use_local_storage(store: &StorageModel, key: &[u8], default: i64) -> (s: Signal<i64>)
    ensures
        s@.value == spec_initial(spec_get(store@, key@), default),
        s@.subs == Seq::<usize>::empty(),
{
    let initial = match store.get_item(key) {
        Some(bytes) => match from_json_i64(bytes.as_slice()) {
            Some(v) => v,
            None => default,
        },
        None => default,
    };
    Signal::new(initial)
}

/// Assigns `v` to the cell, notifies its subscribers, and writes the
/// encoding of `v` through to the store under `key`, leaving every other
/// key untouched: the write-on-set rule of a persistence-backed cell.
pub fn persist_set(
    sig: &mut Signal<i64>,
    store: &mut StorageModel,
    key: &[u8],
    v: i64,
    progs: &Vec<Vec<Cmd<i64>>>,
    fuel: u64,
    trace: &mut Vec<Event>,
) -> (complete: bool)
    ensures
        ({
            let run = spec_set(old(sig)@, v, progs.deep_view(), fuel as nat, 0);
            &&& final(sig)@ == run.state
            &&& final(trace)@ == old(trace)@ + run.trace
            &&& complete == run.complete
        }),
        spec_get(final(store)@, key@) == Some(json_i64(v as int)),
        forall|k: Seq<u8>|
            k != key@ ==> #[trigger] spec_get(final(store)@, k) == spec_get(old(store)@, k),
{
    let complete = sig.set(v, progs, fuel, trace);
    store.set_item(key, to_json_i64(v));
    complete
}

} // verus!
