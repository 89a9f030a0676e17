//! An embedded key-value store with atomic batches and merge semantics.
//!
//! The store holds opaque byte keys and byte values, looked up by exact key
//! equality only — a positional lookup that could return a neighbouring key's
//! value is deliberately not offered.  A batch of mutations is applied as one
//! indivisible unit; a `Merge` op folds an incremental append operand into
//! the key's canonical value through the merge reducer, so the growing side
//! of a transfer never needs a read-modify-write.

use vstd::prelude::*;

use crate::codec::{scalar_bytes, scalar_value};
use crate::reducer::{base_of, merge_holdings, operand_count, ops_views, reduced, total_delta};

verus! {

/// One key-value pair of the store.
pub struct Entry {
    pub key: Vec<u8>,
    pub val: Vec<u8>,
}

impl View for Entry {
    type V = (Seq<u8>, Seq<u8>);

    open spec fn view(&self) -> (Seq<u8>, Seq<u8>) {
        (self.key@, self.val@)
    }
}

/// One mutation of an atomic batch.
pub enum BatchOp {
    /// Overwrite the key's value entirely.
    Put(Vec<u8>, Vec<u8>),
    /// Queue an incremental append operand for the key, folded in by the
    /// merge reducer.
    Merge(Vec<u8>, Vec<u8>),
}

/// `op` overwrites key `k` with value `v`.
pub open spec fn is_put(op: BatchOp, k: Seq<u8>, v: Seq<u8>) -> bool {
    match op {
        BatchOp::Put(kk, vv) => kk@ == k && vv@ == v,
        BatchOp::Merge(_, _) => false,
    }
}

/// `op` merges operand `o` into key `k`.
pub open spec fn is_merge(op: BatchOp, k: Seq<u8>, o: Seq<u8>) -> bool {
    match op {
        BatchOp::Put(_, _) => false,
        BatchOp::Merge(kk, oo) => kk@ == k && oo@ == o,
    }
}

/// The value stored under `k`: the first (and under unique keys, the only)
/// entry whose key is exactly `k`.
pub open spec fn kv_get(s: Seq<(Seq<u8>, Seq<u8>)>, k: Seq<u8>) -> Option<Seq<u8>>
    decreases s.len(),
{
    if s.len() == 0 {
        None
    } else if s[0].0 == k {
        Some(s[0].1)
    } else {
        kv_get(s.drop_first(), k)
    }
}

/// Whether any entry has key `k`.
pub open spec fn kv_has(s: Seq<(Seq<u8>, Seq<u8>)>, k: Seq<u8>) -> bool {
    kv_get(s, k) is Some
}

/// The state after overwriting `k` with `v`: the first entry with key `k` is
/// replaced in place, or a new entry is appended.
pub open spec fn kv_put(s: Seq<(Seq<u8>, Seq<u8>)>, k: Seq<u8>, v: Seq<u8>) -> Seq<
    (Seq<u8>, Seq<u8>),
>
    decreases s.len(),
{
    if s.len() == 0 {
        seq![(k, v)]
    } else if s[0].0 == k {
        seq![(k, v)] + s.drop_first()
    } else {
        seq![s[0]] + kv_put(s.drop_first(), k, v)
    }
}

/// The value stored under `k`, or the encoding of an empty sequence when the
/// key does not exist yet: the base the merge reducer folds onto.
pub open spec fn stored_or_empty(s: Seq<(Seq<u8>, Seq<u8>)>, k: Seq<u8>) -> Seq<u8> {
    match kv_get(s, k) {
        Some(v) => v,
        None => scalar_bytes(0),
    }
}

/// The canonical value of `k` after folding the single operand `o`.
pub open spec fn merged_value(s: Seq<(Seq<u8>, Seq<u8>)>, k: Seq<u8>, o: Seq<u8>) -> Seq<u8> {
    reduced(stored_or_empty(s, k), seq![o])
}

/// The state after merging operand `o` into key `k`.
pub open spec fn kv_merge(s: Seq<(Seq<u8>, Seq<u8>)>, k: Seq<u8>, o: Seq<u8>) -> Seq<
    (Seq<u8>, Seq<u8>),
> {
    kv_put(s, k, merged_value(s, k, o))
}

/// The state after one batch op.
pub open spec fn apply_op(s: Seq<(Seq<u8>, Seq<u8>)>, op: BatchOp) -> Seq<(Seq<u8>, Seq<u8>)> {
    match op {
        BatchOp::Put(k, v) => kv_put(s, k@, v@),
        BatchOp::Merge(k, o) => kv_merge(s, k@, o@),
    }
}

/// Whether one batch op can be applied without overflowing a count header:
/// a merge operand must carry its 8-byte header, and the folded count must
/// fit in 64 bits.
pub open spec fn op_ok(s: Seq<(Seq<u8>, Seq<u8>)>, op: BatchOp) -> bool {
    match op {
        BatchOp::Put(_, _) => true,
        BatchOp::Merge(k, o) => o@.len() >= 8 && stored_or_empty(s, k@).len() >= 8
            && scalar_value(stored_or_empty(s, k@)) + operand_count(o@) <= u64::MAX,
    }
}

/// The state after a whole batch, ops applied in order.
pub open spec fn apply_batch_spec(s: Seq<(Seq<u8>, Seq<u8>)>, ops: Seq<BatchOp>) -> Seq<
    (Seq<u8>, Seq<u8>),
>
    decreases ops.len(),
{
    if ops.len() == 0 {
        s
    } else {
        apply_op(apply_batch_spec(s, ops.drop_last()), ops.last())
    }
}

/// Every op of the batch is applicable in the state it meets.
pub open spec fn batch_ok(s: Seq<(Seq<u8>, Seq<u8>)>, ops: Seq<BatchOp>) -> bool
    decreases ops.len(),
{
    if ops.len() == 0 {
        true
    } else {
        batch_ok(s, ops.drop_last()) && op_ok(apply_batch_spec(s, ops.drop_last()), ops.last())
    }
}

/// No two entries share a key.
pub open spec fn keys_unique(s: Seq<(Seq<u8>, Seq<u8>)>) -> bool {
    forall|i: int, j: int| 0 <= i < j < s.len() ==> (#[trigger] s[i]).0 != (#[trigger] s[j]).0
}

/// If entry `i` is the first with key `k`, the lookup returns its value.
pub proof fn lemma_kv_get_index(s: Seq<(Seq<u8>, Seq<u8>)>, k: Seq<u8>, i: int)
    requires
        0 <= i < s.len(),
        s[i].0 == k,
        forall|j: int| 0 <= j < i ==> (#[trigger] s[j]).0 != k,
    ensures
        kv_get(s, k) == Some(s[i].1),
    decreases i,
{
    if i > 0 {
        lemma_kv_get_index(s.drop_first(), k, i - 1);
    }
}

/// If no entry has key `k`, the lookup misses.
pub proof fn lemma_kv_get_none(s: Seq<(Seq<u8>, Seq<u8>)>, k: Seq<u8>)
    requires
        forall|j: int| 0 <= j < s.len() ==> (#[trigger] s[j]).0 != k,
    ensures
        kv_get(s, k) is None,
    decreases s.len(),
{
    if s.len() > 0 {
        lemma_kv_get_none(s.drop_first(), k);
    }
}

/// Under unique keys, the lookup of an entry's own key finds that entry.
pub proof fn lemma_kv_get_entry(s: Seq<(Seq<u8>, Seq<u8>)>, i: int)
    requires
        keys_unique(s),
        0 <= i < s.len(),
    ensures
        kv_get(s, s[i].0) == Some(s[i].1),
{
    lemma_kv_get_index(s, s[i].0, i);
}

/// A hit comes from some entry.
pub proof fn lemma_kv_get_some_index(s: Seq<(Seq<u8>, Seq<u8>)>, k: Seq<u8>) -> (i: int)
    requires
        kv_has(s, k),
    ensures
        0 <= i < s.len(),
        s[i].0 == k,
        kv_get(s, k) == Some(s[i].1),
    decreases s.len(),
{
    if s[0].0 == k {
        0
    } else {
        let i = lemma_kv_get_some_index(s.drop_first(), k) + 1;
        i
    }
}

/// An overwrite replaces the first matching entry in place.
pub proof fn lemma_kv_put_update(s: Seq<(Seq<u8>, Seq<u8>)>, k: Seq<u8>, v: Seq<u8>, i: int)
    requires
        0 <= i < s.len(),
        s[i].0 == k,
        forall|j: int| 0 <= j < i ==> (#[trigger] s[j]).0 != k,
    ensures
        kv_put(s, k, v) == s.update(i, (k, v)),
    decreases i,
{
    if i == 0 {
        assert(kv_put(s, k, v) =~= s.update(0, (k, v)));
    } else {
        lemma_kv_put_update(s.drop_first(), k, v, i - 1);
        assert(kv_put(s, k, v) =~= s.update(i, (k, v)));
    }
}

/// An overwrite of an absent key appends a new entry.
pub proof fn lemma_kv_put_push(s: Seq<(Seq<u8>, Seq<u8>)>, k: Seq<u8>, v: Seq<u8>)
    requires
        forall|j: int| 0 <= j < s.len() ==> (#[trigger] s[j]).0 != k,
    ensures
        kv_put(s, k, v) == s.push((k, v)),
    decreases s.len(),
{
    if s.len() == 0 {
        assert(kv_put(s, k, v) =~= s.push((k, v)));
    } else {
        lemma_kv_put_push(s.drop_first(), k, v);
        assert(kv_put(s, k, v) =~= s.push((k, v)));
    }
}

/// What an overwrite does to every lookup: the written key now yields the
/// new value, every other key is untouched.
pub proof fn lemma_kv_put_get(s: Seq<(Seq<u8>, Seq<u8>)>, k: Seq<u8>, v: Seq<u8>, k2: Seq<u8>)
    ensures
        kv_get(kv_put(s, k, v), k2) == if k2 == k {
            Some(v)
        } else {
            kv_get(s, k2)
        },
    decreases s.len(),
{
    let t = kv_put(s, k, v);
    if s.len() == 0 {
        assert(t.drop_first() =~= Seq::<(Seq<u8>, Seq<u8>)>::empty());
    } else if s[0].0 == k {
        assert(t.drop_first() =~= s.drop_first());
    } else {
        assert(t[0] == s[0]);
        assert(t.drop_first() =~= kv_put(s.drop_first(), k, v));
        lemma_kv_put_get(s.drop_first(), k, v, k2);
    }
}

/// An overwrite keeps keys unique.
pub proof fn lemma_kv_put_unique(s: Seq<(Seq<u8>, Seq<u8>)>, k: Seq<u8>, v: Seq<u8>)
    requires
        keys_unique(s),
    ensures
        keys_unique(kv_put(s, k, v)),
    decreases s.len(),
{
    let t = kv_put(s, k, v);
    if s.len() == 0 {
    } else if s[0].0 == k {
        assert forall|i: int, j: int| 0 <= i < j < t.len() implies (#[trigger] t[i]).0
            != (#[trigger] t[j]).0 by {
            assert(t[j] == s[j]);
            if i > 0 {
                assert(t[i] == s[i]);
            }
        }
    } else {
        lemma_kv_put_unique(s.drop_first(), k, v);
        let u = kv_put(s.drop_first(), k, v);
        assert forall|i: int, j: int| 0 <= i < j < t.len() implies (#[trigger] t[i]).0
            != (#[trigger] t[j]).0 by {
            assert(t[j] == u[j - 1]);
            if i > 0 {
                assert(t[i] == u[i - 1]);
            } else {
                // the head's key differs from `k` and from every key of the
                // tail, and every entry of the rewritten tail carries one of
                // those keys
                lemma_kv_put_keys(s.drop_first(), k, v, j - 1);
            }
        }
    }
}

/// Every entry of an overwritten state carries either the written key or the
/// key of some original entry.
pub proof fn lemma_kv_put_keys(s: Seq<(Seq<u8>, Seq<u8>)>, k: Seq<u8>, v: Seq<u8>, i: int)
    requires
        0 <= i < kv_put(s, k, v).len(),
    ensures
        kv_put(s, k, v)[i].0 == k || exists|j: int|
            0 <= j < s.len() && (#[trigger] s[j]).0 == kv_put(s, k, v)[i].0,
    decreases s.len(),
{
    let t = kv_put(s, k, v);
    if s.len() == 0 {
    } else if s[0].0 == k {
        if i > 0 {
            assert(t[i] == s[i]);
        }
    } else {
        if i == 0 {
            assert(t[0] == s[0]);
        } else {
            assert(t[i] == kv_put(s.drop_first(), k, v)[i - 1]);
            lemma_kv_put_keys(s.drop_first(), k, v, i - 1);
            if kv_put(s.drop_first(), k, v)[i - 1].0 != k {
                let j = choose|j: int|
                    0 <= j < s.drop_first().len() && (#[trigger] s.drop_first()[j]).0 == kv_put(
                        s.drop_first(),
                        k,
                        v,
                    )[i - 1].0;
                assert(s[j + 1].0 == t[i].0);
            }
        }
    }
}

/// Under unique keys, every entry of an overwritten state is the written
/// pair or an untouched original entry with a different key.
pub proof fn lemma_kv_put_entries(s: Seq<(Seq<u8>, Seq<u8>)>, k: Seq<u8>, v: Seq<u8>, i: int)
    requires
        keys_unique(s),
        0 <= i < kv_put(s, k, v).len(),
    ensures
        kv_put(s, k, v)[i] == (k, v) || exists|j: int|
            0 <= j < s.len() && #[trigger] s[j] == kv_put(s, k, v)[i] && s[j].0 != k,
    decreases s.len(),
{
    let t = kv_put(s, k, v);
    if s.len() == 0 {
    } else if s[0].0 == k {
        if i > 0 {
            assert(t[i] == s[i]);
            assert(s[i].0 != k);
        }
    } else {
        if i == 0 {
            assert(t[0] == s[0]);
        } else {
            assert(t[i] == kv_put(s.drop_first(), k, v)[i - 1]);
            lemma_kv_put_entries(s.drop_first(), k, v, i - 1);
            if kv_put(s.drop_first(), k, v)[i - 1] != (k, v) {
                let j = choose|j: int|
                    0 <= j < s.drop_first().len() && #[trigger] s.drop_first()[j] == kv_put(
                        s.drop_first(),
                        k,
                        v,
                    )[i - 1] && s.drop_first()[j].0 != k;
                assert(s[j + 1] == t[i]);
            }
        }
    }
}

/// A batch of overwrites alone is always applicable.
pub proof fn lemma_batch_ok_puts(s: Seq<(Seq<u8>, Seq<u8>)>, ops: Seq<BatchOp>)
    requires
        forall|i: int| 0 <= i < ops.len() ==> (#[trigger] ops[i]) is Put,
    ensures
        batch_ok(s, ops),
    decreases ops.len(),
{
    if ops.len() > 0 {
        assert(forall|i: int|
            0 <= i < ops.drop_last().len() ==> (#[trigger] ops.drop_last()[i]) is Put);
        lemma_batch_ok_puts(s, ops.drop_last());
    }
}

/// Applying one more op of a batch extends the fold by that op.
pub proof fn lemma_apply_take_succ(s: Seq<(Seq<u8>, Seq<u8>)>, ops: Seq<BatchOp>, i: int)
    requires
        0 <= i < ops.len(),
    ensures
        apply_batch_spec(s, ops.take(i + 1)) == apply_op(apply_batch_spec(s, ops.take(i)), ops[i]),
{
    assert(ops.take(i + 1).drop_last() =~= ops.take(i));
    assert(ops.take(i + 1).last() == ops[i]);
}

/// A batch that is applicable as a whole is applicable prefix by prefix.
pub proof fn lemma_batch_ok_prefix(s: Seq<(Seq<u8>, Seq<u8>)>, ops: Seq<BatchOp>, i: int)
    requires
        batch_ok(s, ops),
        0 <= i <= ops.len(),
    ensures
        batch_ok(s, ops.take(i)),
    decreases ops.len(),
{
    if i == ops.len() {
        assert(ops.take(i) =~= ops);
    } else {
        assert(ops.drop_last().take(i) =~= ops.take(i));
        lemma_batch_ok_prefix(s, ops.drop_last(), i);
    }
}

/// Byte-for-byte key equality.
pub(crate) fn bytes_eq(a: &Vec<u8>, b: &Vec<u8>) -> (r: bool)
    ensures
        r == (a@ == b@),
{
    let n = a.len();
    if n != b.len() {
        return false;
    }
    let mut i: usize = 0;
    while i < n
        invariant
            n == a@.len(),
            n == b@.len(),
            0 <= i <= n,
            forall|j: int| 0 <= j < i ==> a@[j] == b@[j],
        decreases n - i,
    {
        if a[i] != b[i] {
            return false;
        }
        i = i + 1;
    }
    proof {
        assert(a@ =~= b@);
    }
    true
}

/// Copy a byte buffer.
pub(crate) fn dup_bytes(v: &Vec<u8>) -> (r: Vec<u8>)
    ensures
        r@ == v@,
{
    let n = v.len();
    let mut r: Vec<u8> = Vec::new();
    let mut i: usize = 0;
    while i < n
        invariant
            n == v@.len(),
            0 <= i <= n,
            r@ == v@.take(i as int),
        decreases n - i,
    {
        r.push(v[i]);
        proof {
            assert(v@.take(i + 1 as int) =~= v@.take(i as int).push(v@[i as int]));
        }
        i = i + 1;
    }
    proof {
        assert(v@.take(n as int) =~= v@);
    }
    r
}

/// The in-memory store: a list of entries with pairwise distinct keys.
pub struct KvStore {
    entries: Vec<Entry>,
}

impl View for KvStore {
    type V = Seq<(Seq<u8>, Seq<u8>)>;

    closed spec fn view(&self) -> Seq<(Seq<u8>, Seq<u8>)> {
        self.entries@.map_values(|e: Entry| e@)
    }
}

impl KvStore {
    /// The store's structural invariant: keys are pairwise distinct.
    pub open spec fn wf(self) -> bool {
        keys_unique(self@)
    }

    /// An empty store.
    pub fn new() -> (s: Self)
        ensures
            s@ == Seq::<(Seq<u8>, Seq<u8>)>::empty(),
            s.wf(),
    {
        let s = KvStore { entries: Vec::new() };
        proof {
            assert(s@ =~= Seq::<(Seq<u8>, Seq<u8>)>::empty());
        }
        s
    }

    /// Exact-key point lookup.  A key misses unless some entry's key equals
    /// it byte for byte.
    pub fn get(&self, key: &Vec<u8>) -> (r: Option<&Vec<u8>>)
        ensures
            match r {
                Some(v) => kv_get(self@, key@) == Some(v@),
                None => kv_get(self@, key@) is None,
            },
    {
        let n = self.entries.len();
        let mut i: usize = 0;
        while i < n
            invariant
                n == self.entries@.len(),
                0 <= i <= n,
                forall|j: int| 0 <= j < i ==> (#[trigger] self@[j]).0 != key@,
            decreases n - i,
        {
            if bytes_eq(&self.entries[i].key, key) {
                proof {
                    assert(self@[i as int].0 == key@);
                    lemma_kv_get_index(self@, key@, i as int);
                }
                return Some(&self.entries[i].val);
            }
            proof {
                assert(self@[i as int].0 == self.entries@[i as int].key@);
            }
            i = i + 1;
        }
        proof {
            lemma_kv_get_none(self@, key@);
        }
        None
    }

    /// Overwrite `key` with `val`.
    fn put(&mut self, key: Vec<u8>, val: Vec<u8>)
        requires
            old(self).wf(),
        ensures
            final(self).wf(),
            final(self)@ == kv_put(old(self)@, key@, val@),
    {
        let ghost s0 = self@;
        let n = self.entries.len();
        let mut i: usize = 0;
        while i < n
            invariant
                self@ == s0,
                s0 == old(self)@,
                keys_unique(s0),
                self.entries@.len() == n,
                0 <= i <= n,
                forall|j: int| 0 <= j < i ==> (#[trigger] s0[j]).0 != key@,
            decreases n - i,
        {
            if bytes_eq(&self.entries[i].key, &key) {
                proof {
                    assert(s0[i as int].0 == key@);
                    lemma_kv_put_update(s0, key@, val@, i as int);
                    lemma_kv_put_unique(s0, key@, val@);
                }
                let e = Entry { key, val };
                self.entries[i] = e;
                proof {
                    assert(self@ =~= s0.update(i as int, (key@, val@)));
                }
                return ;
            }
            proof {
                assert(s0[i as int].0 == self.entries@[i as int].key@);
            }
            i = i + 1;
        }
        proof {
            lemma_kv_put_push(s0, key@, val@);
            lemma_kv_put_unique(s0, key@, val@);
        }
        let e = Entry { key, val };
        self.entries.push(e);
        proof {
            assert(self@ =~= s0.push((key@, val@)));
        }
    }

    /// Fold one merge operand into `key`'s canonical value.
    fn merge(&mut self, key: Vec<u8>, operand: Vec<u8>)
        requires
            old(self).wf(),
            operand@.len() >= 8,
            stored_or_empty(old(self)@, key@).len() >= 8,
            scalar_value(stored_or_empty(old(self)@, key@)) + operand_count(operand@) <= u64::MAX,
        ensures
            final(self).wf(),
            final(self)@ == kv_merge(old(self)@, key@, operand@),
    {
        let ghost s0 = self@;
        let mut ops: Vec<Vec<u8>> = Vec::new();
        let ghost operand_view = operand@;
        ops.push(operand);
        proof {
            assert(ops_views(ops@) =~= seq![operand_view]);
            assert(seq![operand_view].drop_last() =~= Seq::<Seq<u8>>::empty());
            assert(total_delta(Seq::<Seq<u8>>::empty()) == 0);
            assert(total_delta(seq![operand_view]) == operand_count(operand_view));
        }
        let existing = self.get(&key);
        proof {
            assert(base_of(existing) == stored_or_empty(s0, key@));
        }
        let merged = merge_holdings(existing, &ops);
        proof {
            assert(merged@ == merged_value(s0, key@, operand_view));
        }
        self.put(key, merged);
    }

    /// Apply a batch of mutations as one indivisible unit, in order.
    pub fn apply_batch(&mut self, batch: &Vec<BatchOp>)
        requires
            old(self).wf(),
            batch_ok(old(self)@, batch@),
        ensures
            final(self).wf(),
            final(self)@ == apply_batch_spec(old(self)@, batch@),
    {
        let ghost s0 = self@;
        let n = batch.len();
        let mut i: usize = 0;
        while i < n
            invariant
                n == batch@.len(),
                0 <= i <= n,
                self.wf(),
                s0 == old(self)@,
                batch_ok(s0, batch@),
                self@ == apply_batch_spec(s0, batch@.take(i as int)),
            decreases n - i,
        {
            proof {
                lemma_batch_ok_prefix(s0, batch@, i + 1 as int);
                assert(batch@.take(i + 1 as int).drop_last() =~= batch@.take(i as int));
                assert(batch@.take(i + 1 as int).last() == batch@[i as int]);
                lemma_apply_take_succ(s0, batch@, i as int);
            }
            match &batch[i] {
                BatchOp::Put(k, v) => {
                    let kk = dup_bytes(k);
                    let vv = dup_bytes(v);
                    self.put(kk, vv);
                },
                BatchOp::Merge(k, o) => {
                    let kk = dup_bytes(k);
                    let oo = dup_bytes(o);
                    self.merge(kk, oo);
                },
            }
            i = i + 1;
        }
        proof {
            assert(batch@.take(n as int) =~= batch@);
        }
    }
}

} // verus!
