//! The ledger engine: bootstrap, balance query and the atomic transfer
//! protocol, over the store's binary layout.
//!
//! Keys are opaque byte strings equal to account identifiers, plus three
//! reserved metadata keys: the super account's identity, the total supply and
//! the remaining available balance (both 8-byte scalars).  An account's value
//! is its encoded holdings sequence.  The engine maintains two global
//! invariants across every committed batch: *conservation* — the available
//! balance plus the holdings of every account sum to the total supply — and
//! *uniqueness* — every issued token id lies below the issuance cursor and
//! sits in exactly one account.

use vstd::prelude::*;

use crate::codec::{
    decode_holdings, decode_scalar, decoded_ids, encode_holdings, encode_scalar, holdings_bytes,
    holdings_wf, is_encoding, lemma_codec_round_trip, lemma_ids_bytes_len,
    lemma_scalar_round_trip, read_scalar_at, scalar_bytes, scalar_value,
};
use crate::errors::Error;
use crate::reducer::{lemma_empty_holdings, lemma_reduced_append, operand_count};
use crate::store::{
    apply_batch_spec, apply_op, batch_ok, bytes_eq, op_ok, dup_bytes, is_merge, is_put, keys_unique,
    kv_get, kv_has, kv_merge, kv_put, lemma_batch_ok_puts, lemma_kv_get_entry,
    lemma_kv_get_some_index, lemma_kv_put_entries, lemma_kv_put_get, lemma_kv_put_push,
    lemma_kv_put_unique, lemma_kv_put_update, merged_value, stored_or_empty,
    BatchOp, KvStore,
};

verus! {

// ---------------------------------------------------------------------------
// Reserved metadata keys
// ---------------------------------------------------------------------------
/// The key holding the super account's identity string: `SuperAccount`.
pub open spec fn super_account_key() -> Seq<u8> {
    seq![83u8, 117u8, 112u8, 101u8, 114u8, 65u8, 99u8, 99u8, 111u8, 117u8, 110u8, 116u8]
}

/// The key holding the total supply scalar: `TotalSupply`.
pub open spec fn total_supply_key() -> Seq<u8> {
    seq![84u8, 111u8, 116u8, 97u8, 108u8, 83u8, 117u8, 112u8, 112u8, 108u8, 121u8]
}

/// The key holding the available balance scalar: `SuperBalance`.
pub open spec fn super_balance_key() -> Seq<u8> {
    seq![83u8, 117u8, 112u8, 101u8, 114u8, 66u8, 97u8, 108u8, 97u8, 110u8, 99u8, 101u8]
}

/// Whether `k` is one of the three reserved metadata keys, which can never
/// name an account's holdings.
pub open spec fn is_reserved(k: Seq<u8>) -> bool {
    k == super_account_key() || k == total_supply_key() || k == super_balance_key()
}

/// The three reserved keys are pairwise distinct.
pub proof fn lemma_reserved_distinct()
    ensures
        super_account_key() != total_supply_key(),
        super_account_key() != super_balance_key(),
        total_supply_key() != super_balance_key(),
{
    assert(super_account_key()[0] != total_supply_key()[0]);
    assert(super_account_key()[5] != super_balance_key()[5]);
    assert(total_supply_key()[0] != super_balance_key()[0]);
}

/// Build the `SuperAccount` key.
pub fn make_super_account_key() -> (r: Vec<u8>)
    ensures
        r@ == super_account_key(),
{
    let mut v: Vec<u8> = Vec::new();
    v.push(83u8);
    v.push(117u8);
    v.push(112u8);
    v.push(101u8);
    v.push(114u8);
    v.push(65u8);
    v.push(99u8);
    v.push(99u8);
    v.push(111u8);
    v.push(117u8);
    v.push(110u8);
    v.push(116u8);
    proof {
        assert(v@ =~= super_account_key());
    }
    v
}

/// Build the `TotalSupply` key.
pub fn make_total_supply_key() -> (r: Vec<u8>)
    ensures
        r@ == total_supply_key(),
{
    let mut v: Vec<u8> = Vec::new();
    v.push(84u8);
    v.push(111u8);
    v.push(116u8);
    v.push(97u8);
    v.push(108u8);
    v.push(83u8);
    v.push(117u8);
    v.push(112u8);
    v.push(112u8);
    v.push(108u8);
    v.push(121u8);
    proof {
        assert(v@ =~= total_supply_key());
    }
    v
}

/// Build the `SuperBalance` key.
pub fn make_super_balance_key() -> (r: Vec<u8>)
    ensures
        r@ == super_balance_key(),
{
    let mut v: Vec<u8> = Vec::new();
    v.push(83u8);
    v.push(117u8);
    v.push(112u8);
    v.push(101u8);
    v.push(114u8);
    v.push(66u8);
    v.push(97u8);
    v.push(108u8);
    v.push(97u8);
    v.push(110u8);
    v.push(99u8);
    v.push(101u8);
    proof {
        assert(v@ =~= super_balance_key());
    }
    v
}

/// Whether `k` names one of the reserved metadata slots.
pub fn is_reserved_key(k: &Vec<u8>) -> (r: bool)
    ensures
        r == is_reserved(k@),
{
    let a = make_super_account_key();
    if bytes_eq(k, &a) {
        return true;
    }
    let t = make_total_supply_key();
    if bytes_eq(k, &t) {
        return true;
    }
    let b = make_super_balance_key();
    bytes_eq(k, &b)
}

// ---------------------------------------------------------------------------
// State read off a store view
// ---------------------------------------------------------------------------
/// The super account's identity.
pub open spec fn stored_super_id(v: Seq<(Seq<u8>, Seq<u8>)>) -> Seq<u8> {
    kv_get(v, super_account_key()).unwrap()
}

/// The total supply.
pub open spec fn stored_total(v: Seq<(Seq<u8>, Seq<u8>)>) -> u64 {
    scalar_value(kv_get(v, total_supply_key()).unwrap())
}

/// The remaining available (unminted) balance.
pub open spec fn stored_avail(v: Seq<(Seq<u8>, Seq<u8>)>) -> u64 {
    scalar_value(kv_get(v, super_balance_key()).unwrap())
}

/// The issuance cursor: the next fresh token id.  Every id ever minted lies
/// below it.
pub open spec fn cursor(v: Seq<(Seq<u8>, Seq<u8>)>) -> int {
    stored_total(v) - stored_avail(v)
}

/// The token ids held by account `a`.
pub open spec fn account_ids(v: Seq<(Seq<u8>, Seq<u8>)>, a: Seq<u8>) -> Seq<u64> {
    decoded_ids(kv_get(v, a).unwrap())
}

/// The token ids held by `a`, or the empty sequence when `a` has no entry.
pub open spec fn holdings_or_empty(v: Seq<(Seq<u8>, Seq<u8>)>, a: Seq<u8>) -> Seq<u64> {
    if kv_has(v, a) {
        account_ids(v, a)
    } else {
        Seq::empty()
    }
}

// ---------------------------------------------------------------------------
// Id-sequence predicates
// ---------------------------------------------------------------------------
/// Every id lies strictly below `bound`.
pub open spec fn all_below(ids: Seq<u64>, bound: int) -> bool {
    forall|i: int| 0 <= i < ids.len() ==> (#[trigger] ids[i]) < bound
}

/// No id occurs twice.
pub open spec fn no_dups(ids: Seq<u64>) -> bool {
    forall|i: int, j: int| 0 <= i < j < ids.len() ==> ids[i] != ids[j]
}

/// No id occurs in both sequences.
pub open spec fn disjoint_ids(a: Seq<u64>, b: Seq<u64>) -> bool {
    forall|i: int, j: int| 0 <= i < a.len() && 0 <= j < b.len() ==> a[i] != b[j]
}

/// The contiguous run of `amount` fresh ids starting at `start`: what one
/// mint issues.
pub open spec fn mint_ids(start: int, amount: u64) -> Seq<u64>
    recommends
        0 <= start,
        start + amount <= u64::MAX,
{
    Seq::new(amount as nat, |i: int| (start + i) as u64)
}

// ---------------------------------------------------------------------------
// The global invariant
// ---------------------------------------------------------------------------
/// An account entry's units: the number of token ids it holds.  Reserved
/// metadata entries hold no units.
pub open spec fn entry_units(e: (Seq<u8>, Seq<u8>)) -> int {
    if is_reserved(e.0) {
        0
    } else {
        decoded_ids(e.1).len() as int
    }
}

/// The units held across all account entries.
pub open spec fn units(v: Seq<(Seq<u8>, Seq<u8>)>) -> int
    decreases v.len(),
{
    if v.len() == 0 {
        0
    } else {
        entry_units(v[0]) + units(v.drop_first())
    }
}

/// What must hold of each entry: an account's value is exactly a holdings
/// encoding, every id in it was issued (lies below the cursor), and none is
/// duplicated.
pub open spec fn entry_ok(e: (Seq<u8>, Seq<u8>), cur: int) -> bool {
    !is_reserved(e.0) ==> {
        &&& is_encoding(e.1)
        &&& all_below(decoded_ids(e.1), cur)
        &&& no_dups(decoded_ids(e.1))
    }
}

/// The ledger invariant over a store view: the metadata slots are present
/// and well formed, conservation holds — available balance plus all holdings
/// equal the total supply — and every issued id sits in exactly one account.
pub open spec fn ledger_inv(v: Seq<(Seq<u8>, Seq<u8>)>) -> bool {
    &&& keys_unique(v)
    &&& kv_has(v, super_account_key())
    &&& stored_super_id(v).len() > 0
    &&& kv_has(v, total_supply_key())
    &&& kv_get(v, total_supply_key()).unwrap().len() == 8
    &&& kv_has(v, super_balance_key())
    &&& kv_get(v, super_balance_key()).unwrap().len() == 8
    &&& stored_avail(v) <= stored_total(v)
    &&& stored_avail(v) + units(v) == stored_total(v)
    &&& forall|i: int| 0 <= i < v.len() ==> entry_ok(#[trigger] v[i], cursor(v))
    &&& forall|i: int, j: int|
        0 <= i < j < v.len() && !is_reserved((#[trigger] v[i]).0) && !is_reserved(
            (#[trigger] v[j]).0,
        ) ==> disjoint_ids(decoded_ids(v[i].1), decoded_ids(v[j].1))
}

// ---------------------------------------------------------------------------
// Lemmas about units
// ---------------------------------------------------------------------------
/// Units are never negative.
pub proof fn lemma_units_nonneg(v: Seq<(Seq<u8>, Seq<u8>)>)
    ensures
        units(v) >= 0,
    decreases v.len(),
{
    if v.len() > 0 {
        lemma_units_nonneg(v.drop_first());
    }
}

/// One entry's units never exceed the whole state's.
pub proof fn lemma_units_entry_bound(v: Seq<(Seq<u8>, Seq<u8>)>, i: int)
    requires
        0 <= i < v.len(),
    ensures
        entry_units(v[i]) <= units(v),
    decreases i,
{
    lemma_units_nonneg(v.drop_first());
    if i > 0 {
        lemma_units_entry_bound(v.drop_first(), i - 1);
    }
}

/// Two distinct entries' units never exceed the whole state's together.
pub proof fn lemma_units_pair_bound(v: Seq<(Seq<u8>, Seq<u8>)>, i: int, j: int)
    requires
        0 <= i < j < v.len(),
    ensures
        entry_units(v[i]) + entry_units(v[j]) <= units(v),
    decreases i,
{
    if i == 0 {
        lemma_units_entry_bound(v.drop_first(), j - 1);
    } else {
        lemma_units_pair_bound(v.drop_first(), i - 1, j - 1);
    }
}

/// Replacing one entry shifts the units by the difference.
pub proof fn lemma_units_update(v: Seq<(Seq<u8>, Seq<u8>)>, i: int, e: (Seq<u8>, Seq<u8>))
    requires
        0 <= i < v.len(),
    ensures
        units(v.update(i, e)) == units(v) - entry_units(v[i]) + entry_units(e),
    decreases i,
{
    let u = v.update(i, e);
    if i == 0 {
        assert(u.drop_first() =~= v.drop_first());
    } else {
        assert(u.drop_first() =~= v.drop_first().update(i - 1, e));
        assert(u[0] == v[0]);
        lemma_units_update(v.drop_first(), i - 1, e);
    }
}

/// Appending an entry adds its units.
pub proof fn lemma_units_push(v: Seq<(Seq<u8>, Seq<u8>)>, e: (Seq<u8>, Seq<u8>))
    ensures
        units(v.push(e)) == units(v) + entry_units(e),
    decreases v.len(),
{
    let u = v.push(e);
    assert(units(Seq::<(Seq<u8>, Seq<u8>)>::empty()) == 0);
    if v.len() == 0 {
        assert(u[0] == e);
        assert(u.drop_first() =~= Seq::<(Seq<u8>, Seq<u8>)>::empty());
    } else {
        assert(u.drop_first() =~= v.drop_first().push(e));
        assert(u[0] == v[0]);
        lemma_units_push(v.drop_first(), e);
    }
}

/// Overwriting a reserved metadata slot never changes the units held.
pub proof fn lemma_units_put_reserved(v: Seq<(Seq<u8>, Seq<u8>)>, k: Seq<u8>, val: Seq<u8>)
    requires
        is_reserved(k),
    ensures
        units(kv_put(v, k, val)) == units(v),
    decreases v.len(),
{
    let t = kv_put(v, k, val);
    assert(units(Seq::<(Seq<u8>, Seq<u8>)>::empty()) == 0);
    assert(entry_units((k, val)) == 0);
    if v.len() == 0 {
        assert(t[0] == (k, val));
        assert(t.drop_first() =~= Seq::<(Seq<u8>, Seq<u8>)>::empty());
    } else if v[0].0 == k {
        assert(t.drop_first() =~= v.drop_first());
        assert(t[0] == (k, val));
    } else {
        assert(t.drop_first() =~= kv_put(v.drop_first(), k, val));
        assert(t[0] == v[0]);
        lemma_units_put_reserved(v.drop_first(), k, val);
    }
}

/// What the invariant gives about one account's stored value: it is exactly
/// an encoding, its ids are issued and distinct, and its unit count is
/// bounded by the unminted gap.
pub proof fn lemma_account_props(v: Seq<(Seq<u8>, Seq<u8>)>, a: Seq<u8>) -> (i: int)
    requires
        ledger_inv(v),
        !is_reserved(a),
        kv_has(v, a),
    ensures
        0 <= i < v.len(),
        v[i] == (a, kv_get(v, a).unwrap()),
        is_encoding(kv_get(v, a).unwrap()),
        all_below(account_ids(v, a), cursor(v)),
        no_dups(account_ids(v, a)),
        account_ids(v, a).len() <= stored_total(v) - stored_avail(v),
        kv_get(v, a).unwrap().len() >= 8,
        kv_get(v, a).unwrap() == holdings_bytes(account_ids(v, a)),
{
    let i = lemma_kv_get_some_index(v, a);
    assert(v[i] == (v[i].0, v[i].1));
    assert(entry_ok(v[i], cursor(v)));
    lemma_units_entry_bound(v, i);
    i
}

// ---------------------------------------------------------------------------
// The ledger
// ---------------------------------------------------------------------------
/// A spec-level result of a balance query.
pub open spec fn balance_result(v: Seq<(Seq<u8>, Seq<u8>)>, a: Seq<u8>) -> Result<u64, Error> {
    if a.len() == 0 {
        Err(Error::InvalidInput)
    } else if a == stored_super_id(v) {
        Ok(stored_avail(v))
    } else if is_reserved(a) {
        Err(Error::InvalidInput)
    } else if kv_has(v, a) {
        Ok(account_ids(v, a).len() as u64)
    } else {
        Err(Error::AccountNotFound)
    }
}

/// A spec-level result of a holdings query.
pub open spec fn holdings_result(v: Seq<(Seq<u8>, Seq<u8>)>, a: Seq<u8>) -> Result<Seq<u64>, Error> {
    if a.len() == 0 || a == stored_super_id(v) || is_reserved(a) {
        Err(Error::InvalidInput)
    } else if kv_has(v, a) {
        Ok(account_ids(v, a))
    } else {
        Err(Error::AccountNotFound)
    }
}

/// A ledger state from which `init_super_account` can (re-)establish the
/// invariant: a fresh store, or a valid state in which no units are in
/// circulation.
pub open spec fn resettable(v: Seq<(Seq<u8>, Seq<u8>)>) -> bool {
    v.len() == 0 || (ledger_inv(v) && units(v) == 0)
}

/// The view of an optional borrowed value.
pub open spec fn opt_view(o: Option<&Vec<u8>>) -> Option<Seq<u8>> {
    match o {
        Some(b) => Some(b@),
        None => None,
    }
}

/// The exact outcome of a transfer, decided from the values read before the
/// batch: the super account's identity `sid`, the raw total-supply and
/// balance slots `tv` and `bv`, and the sender's raw holdings value `fv`
/// (absent when the sender has no entry).  `tv`, `bv` and `fv` are consulted
/// only on the branch that reads them; a malformed one fails with
/// `CorruptEncoding`, and so does a balance slot exceeding the supply slot.
pub open spec fn plan_result(
    sid: Seq<u8>,
    tv: Seq<u8>,
    bv: Seq<u8>,
    from: Seq<u8>,
    fv: Option<Seq<u8>>,
    to: Seq<u8>,
    amount: u64,
) -> Result<(), Error> {
    if from.len() == 0 || to.len() == 0 || amount == 0 || to == sid || is_reserved(to) {
        Err(Error::InvalidInput)
    } else if from == sid {
        if tv.len() < 8 || bv.len() < 8 {
            Err(Error::CorruptEncoding)
        } else if scalar_value(bv) > scalar_value(tv) {
            Err(Error::CorruptEncoding)
        } else if scalar_value(bv) < amount {
            Err(Error::InsufficientSupply)
        } else {
            Ok(())
        }
    } else if is_reserved(from) {
        Err(Error::InvalidInput)
    } else {
        match fv {
            None => Err(Error::AccountNotFound),
            Some(b) => {
                if !holdings_wf(b) {
                    Err(Error::CorruptEncoding)
                } else if decoded_ids(b).len() < amount {
                    Err(Error::InsufficientBalance)
                } else {
                    Ok(())
                }
            },
        }
    }
}

/// The exact shape of the one atomic batch a successful transfer commits:
/// a full overwrite of the shrinking side and a merge-append of the delta
/// into the growing side.
pub open spec fn planned_batch(
    sid: Seq<u8>,
    tv: Seq<u8>,
    bv: Seq<u8>,
    from: Seq<u8>,
    fv: Option<Seq<u8>>,
    to: Seq<u8>,
    amount: u64,
    b: Seq<BatchOp>,
) -> bool {
    if from == sid {
        let avail = scalar_value(bv);
        let total = scalar_value(tv);
        &&& b.len() == 2
        &&& is_put(b[0], super_balance_key(), scalar_bytes((avail - amount) as u64))
        &&& is_merge(b[1], to, holdings_bytes(mint_ids(total - avail, amount)))
    } else {
        let ids = decoded_ids(fv.unwrap());
        &&& b.len() == 2
        &&& is_put(b[0], from, holdings_bytes(ids.take(ids.len() - amount)))
        &&& is_merge(b[1], to, holdings_bytes(ids.skip(ids.len() - amount)))
    }
}

/// How a successful transfer relates the new state to the old one.
///
/// A mint debits the available balance and appends the contiguous run of
/// fresh ids starting at the issuance cursor to the receiver.  A peer
/// transfer keeps the sender's oldest ids and appends its `amount` most
/// recently received ids to the receiver, in order.  A peer self-transfer
/// leaves the state untouched.  No other key changes.
pub open spec fn transfer_effect(
    v: Seq<(Seq<u8>, Seq<u8>)>,
    w: Seq<(Seq<u8>, Seq<u8>)>,
    from: Seq<u8>,
    to: Seq<u8>,
    amount: u64,
) -> bool {
    if from == stored_super_id(v) {
        &&& stored_super_id(w) == stored_super_id(v)
        &&& stored_total(w) == stored_total(v)
        &&& stored_avail(w) == stored_avail(v) - amount
        &&& kv_get(w, to) == Some(
            holdings_bytes(holdings_or_empty(v, to) + mint_ids(cursor(v), amount)),
        )
        &&& forall|k: Seq<u8>|
            k != to && k != super_balance_key() ==> kv_get(w, k) == kv_get(v, k)
    } else if to == from {
        w == v
    } else {
        let xs = account_ids(v, from);
        &&& stored_super_id(w) == stored_super_id(v)
        &&& stored_total(w) == stored_total(v)
        &&& stored_avail(w) == stored_avail(v)
        &&& kv_get(w, from) == Some(holdings_bytes(xs.take(xs.len() - amount)))
        &&& kv_get(w, to) == Some(
            holdings_bytes(holdings_or_empty(v, to) + xs.skip(xs.len() - amount)),
        )
        &&& forall|k: Seq<u8>| k != from && k != to ==> kv_get(w, k) == kv_get(v, k)
    }
}

/// The token ledger over its store.
pub struct Ledger {
    store: KvStore,
}

impl View for Ledger {
    type V = Seq<(Seq<u8>, Seq<u8>)>;

    closed spec fn view(&self) -> Seq<(Seq<u8>, Seq<u8>)> {
        self.store@
    }
}

impl Ledger {
    /// The store's structural invariant: keys are pairwise distinct.
    pub open spec fn wf(self) -> bool {
        keys_unique(self@)
    }

    /// The full ledger invariant (see [`ledger_inv`]).
    pub open spec fn inv(self) -> bool {
        ledger_inv(self@)
    }

    /// An empty, uninitialized ledger.
    pub fn new() -> (l: Ledger)
        ensures
            l@ == Seq::<(Seq<u8>, Seq<u8>)>::empty(),
            l.wf(),
    {
        Ledger { store: KvStore::new() }
    }

    /// The number of token units `account` holds — or, for the super
    /// account, its remaining available balance.  Fails with `InvalidInput`
    /// on an empty or reserved id, and with `AccountNotFound` when no value
    /// exists for the key; an account that is present with an empty holdings
    /// sequence yields balance 0.  The lookup matches the key exactly.
    pub fn get_balance(&self, account: &Vec<u8>) -> (r: Result<u64, Error>)
        requires
            self.inv(),
        ensures
            r == balance_result(self@, account@),
    {
        if account.len() == 0 {
            return Err(Error::InvalidInput);
        }
        let sak = make_super_account_key();
        let sid = match self.store.get(&sak) {
            Some(s) => s,
            None => {
                proof {
                    assert(false);
                }
                vstd::pervasive::unreached()
            },
        };
        if bytes_eq(account, sid) {
            let bk = make_super_balance_key();
            let bal = match self.store.get(&bk) {
                Some(b) => b,
                None => {
                    proof {
                        assert(false);
                    }
                    vstd::pervasive::unreached()
                },
            };
            let r = read_scalar_at(bal, 0);
            proof {
                assert(bal@.skip(0) =~= bal@);
            }
            return Ok(r);
        }
        if is_reserved_key(account) {
            return Err(Error::InvalidInput);
        }
        match self.store.get(account) {
            None => Err(Error::AccountNotFound),
            Some(val) => {
                let ghost i = lemma_account_props(self@, account@);
                let count = read_scalar_at(val, 0);
                proof {
                    assert(val@.skip(0) =~= val@);
                    let ids = account_ids(self@, account@);
                    lemma_scalar_round_trip(ids.len() as u64);
                    assert(scalar_value(val@) == scalar_value(scalar_bytes(ids.len() as u64)));
                }
                Ok(count)
            },
        }
    }

    /// The token ids `account` currently holds, in append order: oldest
    /// first, most recently received last.  The super account holds a scalar
    /// balance, not a holdings sequence, so querying it (or an empty or
    /// reserved id) fails with `InvalidInput`.
    pub fn get_holdings(&self, account: &Vec<u8>) -> (r: Result<Vec<u64>, Error>)
        requires
            self.inv(),
        ensures
            r matches Ok(ids) ==> holdings_result(self@, account@) == Ok::<Seq<u64>, Error>(ids@),
            r matches Err(e) ==> holdings_result(self@, account@) == Err::<Seq<u64>, Error>(e),
    {
        if account.len() == 0 {
            return Err(Error::InvalidInput);
        }
        let sak = make_super_account_key();
        let sid = match self.store.get(&sak) {
            Some(s) => s,
            None => {
                proof {
                    assert(false);
                }
                vstd::pervasive::unreached()
            },
        };
        if bytes_eq(account, sid) {
            return Err(Error::InvalidInput);
        }
        if is_reserved_key(account) {
            return Err(Error::InvalidInput);
        }
        match self.store.get(account) {
            None => Err(Error::AccountNotFound),
            Some(val) => {
                let ghost i = lemma_account_props(self@, account@);
                match decode_holdings(val) {
                    Ok(ids) => Ok(ids),
                    Err(_) => {
                        proof {
                            assert(false);
                        }
                        vstd::pervasive::unreached()
                    },
                }
            },
        }
    }

    /// Initialize (or reset) the super account: one atomic batch overwrites
    /// the identity, the total supply and the available balance, which
    /// starts equal to the supply.  Fails with `InvalidInput` on an empty id
    /// or a zero supply.  Overwrite semantics: holdings already in the store
    /// are left untouched, so the invariant is re-established only from a
    /// fresh store or one whose accounts hold nothing.
    pub fn init_super_account(&mut self, super_id: &Vec<u8>, total_supply: u64) -> (r: Result<
        (),
        Error,
    >)
        requires
            old(self).wf(),
        ensures
            final(self).wf(),
            r is Ok <==> (super_id@.len() > 0 && total_supply > 0),
            r is Err ==> r == Err::<(), Error>(Error::InvalidInput) && final(self)@ == old(self)@,
            r is Ok ==> {
                &&& kv_get(final(self)@, super_account_key()) == Some(super_id@)
                &&& kv_get(final(self)@, total_supply_key()) == Some(scalar_bytes(total_supply))
                &&& kv_get(final(self)@, super_balance_key()) == Some(scalar_bytes(total_supply))
                &&& forall|k: Seq<u8>|
                    !is_reserved(k) ==> kv_get(final(self)@, k) == kv_get(old(self)@, k)
                &&& stored_super_id(final(self)@) == super_id@
                &&& stored_total(final(self)@) == total_supply
                &&& stored_avail(final(self)@) == total_supply
            },
            r is Ok && resettable(old(self)@) ==> final(self).inv(),
    {
        if super_id.len() == 0 {
            return Err(Error::InvalidInput);
        }
        if total_supply == 0 {
            return Err(Error::InvalidInput);
        }
        let ghost v0 = self@;
        let mut batch: Vec<BatchOp> = Vec::new();
        batch.push(BatchOp::Put(make_super_account_key(), dup_bytes(super_id)));
        batch.push(BatchOp::Put(make_total_supply_key(), encode_scalar(total_supply)));
        batch.push(BatchOp::Put(make_super_balance_key(), encode_scalar(total_supply)));
        proof {
            lemma_batch_ok_puts(v0, batch@);
        }
        self.store.apply_batch(&batch);
        proof {
            lemma_init_post(v0, batch@, super_id@, total_supply);
        }
        Ok(())
    }
}

/// Compute the one atomic batch a transfer commits, from the values read
/// beforehand: the super identity, the raw supply and balance slots, and the
/// sender's raw holdings value.  Pure: the caller performs the reads and
/// commits the batch.  The outcome is exactly [`plan_result`]; on success the
/// batch has the shape [`planned_batch`].
pub fn plan_transfer(
    super_id: &Vec<u8>,
    total_value: &Vec<u8>,
    balance_value: &Vec<u8>,
    from: &Vec<u8>,
    from_value: Option<&Vec<u8>>,
    to: &Vec<u8>,
    amount: u64,
) -> (r: Result<Vec<BatchOp>, Error>)
    ensures
        r is Ok <==> plan_result(
            super_id@,
            total_value@,
            balance_value@,
            from@,
            opt_view(from_value),
            to@,
            amount,
        ) is Ok,
        r matches Err(e) ==> Err::<(), Error>(e) == plan_result(
            super_id@,
            total_value@,
            balance_value@,
            from@,
            opt_view(from_value),
            to@,
            amount,
        ),
        r matches Ok(b) ==> planned_batch(
            super_id@,
            total_value@,
            balance_value@,
            from@,
            opt_view(from_value),
            to@,
            amount,
            b@,
        ),
{
    if from.len() == 0 || to.len() == 0 || amount == 0 {
        return Err(Error::InvalidInput);
    }
    if bytes_eq(to, super_id) {
        return Err(Error::InvalidInput);
    }
    if is_reserved_key(to) {
        return Err(Error::InvalidInput);
    }
    if bytes_eq(from, super_id) {
        let total = match decode_scalar(total_value) {
            Ok(t) => t,
            Err(e) => {
                return Err(e);
            },
        };
        let avail = match decode_scalar(balance_value) {
            Ok(b) => b,
            Err(e) => {
                return Err(e);
            },
        };
        if avail > total {
            return Err(Error::CorruptEncoding);
        }
        if avail < amount {
            return Err(Error::InsufficientSupply);
        }
        let start = total - avail;
        let mut ids: Vec<u64> = Vec::new();
        let mut k: u64 = 0;
        while k < amount
            invariant
                0 <= k <= amount,
                start + amount <= u64::MAX,
                ids@ == mint_ids(start as int, k),
            decreases amount - k,
        {
            ids.push(start + k);
            proof {
                assert(mint_ids(start as int, (k + 1) as u64) =~= mint_ids(start as int, k).push(
                    (start + k) as u64,
                ));
            }
            k = k + 1;
        }
        let mut batch: Vec<BatchOp> = Vec::new();
        batch.push(BatchOp::Put(make_super_balance_key(), encode_scalar(avail - amount)));
        batch.push(BatchOp::Merge(dup_bytes(to), encode_holdings(&ids)));
        proof {
            assert(is_put(batch@[0], super_balance_key(), scalar_bytes((avail - amount) as u64)));
            assert(is_merge(batch@[1], to@, holdings_bytes(mint_ids(start as int, amount))));
        }
        Ok(batch)
    } else if is_reserved_key(from) {
        Err(Error::InvalidInput)
    } else {
        let fv = match from_value {
            Some(b) => b,
            None => {
                return Err(Error::AccountNotFound);
            },
        };
        let mut kept = match decode_holdings(fv) {
            Ok(x) => x,
            Err(e) => {
                return Err(e);
            },
        };
        let n = kept.len();
        if (n as u64) < amount {
            return Err(Error::InsufficientBalance);
        }
        let moved = kept.split_off(n - (amount as usize));
        proof {
            let ids = decoded_ids(fv@);
            assert(kept@ =~= ids.take(ids.len() - amount));
            assert(moved@ =~= ids.skip(ids.len() - amount));
        }
        let mut batch: Vec<BatchOp> = Vec::new();
        batch.push(BatchOp::Put(dup_bytes(from), encode_holdings(&kept)));
        batch.push(BatchOp::Merge(dup_bytes(to), encode_holdings(&moved)));
        Ok(batch)
    }
}

/// Unrolls a two-op transfer batch — overwrite, then merge — into its spec
/// fold, and discharges the batch's applicability from the merge-side facts.
proof fn lemma_two_op_batch(
    v: Seq<(Seq<u8>, Seq<u8>)>,
    b: Seq<BatchOp>,
    k0: Seq<u8>,
    val0: Seq<u8>,
    k1: Seq<u8>,
    o1: Seq<u8>,
)
    requires
        b.len() == 2,
        is_put(b[0], k0, val0),
        is_merge(b[1], k1, o1),
        o1.len() >= 8,
        stored_or_empty(kv_put(v, k0, val0), k1).len() >= 8,
        scalar_value(stored_or_empty(kv_put(v, k0, val0), k1)) + operand_count(o1) <= u64::MAX,
    ensures
        batch_ok(v, b),
        apply_batch_spec(v, b) == kv_merge(kv_put(v, k0, val0), k1, o1),
{
    let s1 = kv_put(v, k0, val0);
    assert(b.drop_last() =~= seq![b[0]]);
    assert(seq![b[0]].drop_last() =~= Seq::<BatchOp>::empty());
    assert(apply_batch_spec(v, Seq::<BatchOp>::empty()) == v);
    assert(apply_op(v, b[0]) == s1);
    assert(apply_batch_spec(v, seq![b[0]]) == s1);
    assert(apply_op(s1, b[1]) == kv_merge(s1, k1, o1));
    assert(apply_batch_spec(v, b) == kv_merge(s1, k1, o1));
    assert(batch_ok(v, Seq::<BatchOp>::empty()));
    assert(op_ok(v, b[0]));
    assert(batch_ok(v, seq![b[0]]));
    assert(op_ok(s1, b[1]));
}

/// The minting step: debiting the balance slot and merging the fresh-id
/// operand into the receiver preserves the ledger invariant, and changes the
/// state exactly as [`transfer_effect`] says.
#[verifier::rlimit(80)]
proof fn lemma_mint_step(v: Seq<(Seq<u8>, Seq<u8>)>, to: Seq<u8>, amount: u64)
    requires
        ledger_inv(v),
        to.len() > 0,
        !is_reserved(to),
        to != stored_super_id(v),
        1 <= amount,
        amount <= stored_avail(v),
    ensures
        ({
            let s1 = kv_put(v, super_balance_key(), scalar_bytes((stored_avail(v) - amount) as u64));
            let op = holdings_bytes(mint_ids(cursor(v), amount));
            let w = kv_merge(s1, to, op);
            &&& op.len() >= 8
            &&& stored_or_empty(s1, to).len() >= 8
            &&& scalar_value(stored_or_empty(s1, to)) + operand_count(op) <= u64::MAX
            &&& ledger_inv(w)
            &&& transfer_effect(v, w, stored_super_id(v), to, amount)
        }),
{
    lemma_reserved_distinct();
    let sak = super_account_key();
    let tk = total_supply_key();
    let bk = super_balance_key();
    let avail = stored_avail(v);
    let total = stored_total(v);
    let cur = cursor(v);
    let nb = scalar_bytes((avail - amount) as u64);
    let minted = mint_ids(cur, amount);
    let op = holdings_bytes(minted);
    let s1 = kv_put(v, bk, nb);
    // the balance overwrite
    lemma_kv_put_unique(v, bk, nb);
    assert forall|k: Seq<u8>| k != bk implies kv_get(s1, k) == kv_get(v, k) by {
        lemma_kv_put_get(v, bk, nb, k);
    }
    lemma_kv_put_get(v, bk, nb, bk);
    lemma_scalar_round_trip((avail - amount) as u64);
    assert(stored_avail(s1) == avail - amount);
    assert(stored_total(s1) == total);
    assert(stored_super_id(s1) == stored_super_id(v));
    lemma_units_put_reserved(v, bk, nb);
    assert(units(s1) == units(v));
    let ib = lemma_kv_get_some_index(v, bk);
    assert forall|j: int| 0 <= j < ib implies (#[trigger] v[j]).0 != bk by {
        assert(v[j].0 != v[ib].0);
    }
    lemma_kv_put_update(v, bk, nb, ib);
    assert(s1 == v.update(ib, (bk, nb)));
    // the fresh ids and their operand
    assert(cur + amount <= total <= u64::MAX);
    assert forall|i: int, j: int| 0 <= i < j < minted.len() implies minted[i] != minted[j] by {
        assert(minted[i] == (cur + i) as u64);
        assert(minted[j] == (cur + j) as u64);
    }
    lemma_codec_round_trip(minted);
    lemma_ids_bytes_len(minted);
    assert(op.len() == 8 + 8 * amount);
    assert(operand_count(op) == amount as u64);
    // the receiver's base value
    let xs = holdings_or_empty(v, to);
    assert(kv_get(s1, to) == kv_get(v, to));
    if kv_has(v, to) {
        let it = lemma_account_props(v, to);
        assert(stored_or_empty(s1, to) == holdings_bytes(xs));
        assert(scalar_value(stored_or_empty(s1, to)) == xs.len() as u64);
        assert(xs.len() <= total - avail);
        lemma_reduced_append(xs, minted);
    } else {
        assert(stored_or_empty(s1, to) == scalar_bytes(0));
        lemma_scalar_round_trip(0);
        lemma_empty_holdings();
        lemma_reduced_append(Seq::<u64>::empty(), minted);
        assert(Seq::<u64>::empty() + minted =~= minted);
        assert(xs + minted =~= minted);
    }
    let ys = xs + minted;
    assert(ys.len() == xs.len() + amount <= total);
    let mv = holdings_bytes(ys);
    assert(merged_value(s1, to, op) == mv);
    let w = kv_merge(s1, to, op);
    assert(w == kv_put(s1, to, mv));
    lemma_codec_round_trip(ys);
    // post-state lookups
    lemma_kv_put_unique(s1, to, mv);
    assert forall|k: Seq<u8>| k != to implies kv_get(w, k) == kv_get(s1, k) by {
        lemma_kv_put_get(s1, to, mv, k);
    }
    lemma_kv_put_get(s1, to, mv, to);
    assert(stored_avail(w) == avail - amount);
    assert(stored_total(w) == total);
    assert(stored_super_id(w) == stored_super_id(v));
    assert(cursor(w) == cur + amount);
    // structural form of the merge target
    if kv_has(v, to) {
        let it = lemma_account_props(v, to);
        assert(it != ib);
        assert(s1[it] == v[it]);
        assert forall|j: int| 0 <= j < it implies (#[trigger] s1[j]).0 != to by {
            if j != ib {
                assert(s1[j] == v[j]);
                assert(v[j].0 != v[it].0);
            }
        }
        lemma_kv_put_update(s1, to, mv, it);
        assert(w == s1.update(it, (to, mv)));
        lemma_units_update(s1, it, (to, mv));
        assert(entry_units(s1[it]) == xs.len() as int);
        assert(entry_units((to, mv)) == ys.len() as int);
        assert(units(w) == units(v) + amount);
        lemma_mint_entries(v, w, it, ib, to, mv, nb, xs, ys, cur, amount);
        assert(ledger_inv(w));
    } else {
        assert forall|j: int| 0 <= j < s1.len() implies (#[trigger] s1[j]).0 != to by {
            if s1[j].0 == to {
                lemma_kv_get_entry(s1, j);
            }
        }
        lemma_kv_put_push(s1, to, mv);
        assert(w == s1.push((to, mv)));
        lemma_units_push(s1, (to, mv));
        assert(xs =~= Seq::<u64>::empty());
        assert(entry_units((to, mv)) == ys.len() as int);
        assert(units(w) == units(v) + amount);
        assert(forall|p: int| 0 <= p < v.len() && p != ib ==> #[trigger] w[p] == v[p]);
        lemma_mint_entries(v, w, v.len() as int, ib, to, mv, nb, xs, ys, cur, amount);
        assert(ledger_inv(w));
    }
    assert(kv_get(w, to) == Some(holdings_bytes(holdings_or_empty(v, to) + mint_ids(
        cursor(v),
        amount,
    ))));
}

/// Per-entry and pairwise invariant clauses after a mint's merge: the
/// receiver holds its old ids followed by the fresh run, every other account
/// is untouched, and the cursor has advanced past the fresh run.
proof fn lemma_mint_entries(
    v: Seq<(Seq<u8>, Seq<u8>)>,
    w: Seq<(Seq<u8>, Seq<u8>)>,
    it: int,
    ib: int,
    to: Seq<u8>,
    mv: Seq<u8>,
    nb: Seq<u8>,
    xs: Seq<u64>,
    ys: Seq<u64>,
    cur: int,
    amount: u64,
)
    requires
        ledger_inv(v),
        cursor(v) == cur,
        0 <= ib < v.len(),
        is_reserved(v[ib].0),
        it != ib,
        0 <= it <= v.len(),
        w.len() == if it == v.len() {
            v.len() + 1
        } else {
            v.len() as nat
        },
        w[it] == (to, mv),
        w[ib] == (v[ib].0, nb),
        forall|p: int| 0 <= p < w.len() && p != it && p != ib ==> #[trigger] w[p] == v[p],
        !is_reserved(to),
        it < v.len() ==> v[it].0 == to && xs == decoded_ids(v[it].1),
        it == v.len() ==> xs == Seq::<u64>::empty(),
        ys == xs + mint_ids(cur, amount),
        decoded_ids(mv) == ys,
        is_encoding(mv),
        cur >= 0,
        cur + amount <= u64::MAX,
    ensures
        forall|i: int| 0 <= i < w.len() ==> entry_ok(#[trigger] w[i], cur + amount),
        forall|i: int, j: int|
            0 <= i < j < w.len() && !is_reserved((#[trigger] w[i]).0) && !is_reserved(
                (#[trigger] w[j]).0,
            ) ==> disjoint_ids(decoded_ids(w[i].1), decoded_ids(w[j].1)),
{
    let minted = mint_ids(cur, amount);
    if it < v.len() {
        assert(entry_ok(v[it], cur));
        assert(all_below(xs, cur));
        assert(no_dups(xs));
    }
    assert forall|b: int| 0 <= b < ys.len() implies (b < xs.len() ==> ys[b] == xs[b] && ys[b] < cur)
        && (b >= xs.len() ==> ys[b] == (cur + (b - xs.len())) as u64 && ys[b] >= cur && ys[b] < cur
        + amount) by {
        if b >= xs.len() {
            assert(ys[b] == minted[b - xs.len()]);
        }
    }
    assert(no_dups(ys));
    assert(all_below(ys, cur + amount));
    assert forall|i: int| 0 <= i < w.len() implies entry_ok(#[trigger] w[i], cur + amount) by {
        if i == it {
            assert(w[i] == (to, mv));
        } else if i == ib {
            assert(is_reserved(w[i].0));
        } else {
            assert(w[i] == v[i]);
            assert(entry_ok(v[i], cur));
            if !is_reserved(v[i].0) {
                assert(all_below(decoded_ids(v[i].1), cur));
            }
        }
    }
    assert forall|i: int, j: int|
        0 <= i < j < w.len() && !is_reserved((#[trigger] w[i]).0) && !is_reserved(
            (#[trigger] w[j]).0,
        ) implies disjoint_ids(decoded_ids(w[i].1), decoded_ids(w[j].1)) by {
        if i != it && j != it {
            assert(w[i] == v[i]);
            assert(w[j] == v[j]);
        } else {
            let p = if i == it {
                j
            } else {
                i
            };
            assert(w[p] == v[p]);
            assert(entry_ok(v[p], cur));
            let zs = decoded_ids(v[p].1);
            assert(all_below(zs, cur));
            assert forall|a: int, b: int| 0 <= a < zs.len() && 0 <= b < ys.len() implies zs[a]
                != ys[b] by {
                if b < xs.len() {
                    assert(it < v.len());
                    assert(v[p].0 != v[it].0);
                    if p < it {
                        assert(disjoint_ids(decoded_ids(v[p].1), decoded_ids(v[it].1)));
                    } else {
                        assert(disjoint_ids(decoded_ids(v[it].1), decoded_ids(v[p].1)));
                    }
                    assert(ys[b] == xs[b]);
                } else {
                    assert(ys[b] >= cur);
                    assert(zs[a] < cur);
                }
            }
            assert(disjoint_ids(zs, ys));
        }
    }
}

/// The peer step: overwriting the sender with its kept prefix and merging
/// the removed suffix into the receiver preserves the ledger invariant, and
/// changes the state exactly as [`transfer_effect`] says.
#[verifier::rlimit(80)]
proof fn lemma_peer_step(v: Seq<(Seq<u8>, Seq<u8>)>, from: Seq<u8>, to: Seq<u8>, amount: u64)
    requires
        ledger_inv(v),
        from.len() > 0,
        to.len() > 0,
        !is_reserved(from),
        !is_reserved(to),
        from != stored_super_id(v),
        to != stored_super_id(v),
        kv_has(v, from),
        1 <= amount,
        amount <= account_ids(v, from).len(),
    ensures
        ({
            let xs = account_ids(v, from);
            let kept = xs.take(xs.len() - amount);
            let moved = xs.skip(xs.len() - amount);
            let s1 = kv_put(v, from, holdings_bytes(kept));
            let op = holdings_bytes(moved);
            let w = kv_merge(s1, to, op);
            &&& op.len() >= 8
            &&& stored_or_empty(s1, to).len() >= 8
            &&& scalar_value(stored_or_empty(s1, to)) + operand_count(op) <= u64::MAX
            &&& ledger_inv(w)
            &&& transfer_effect(v, w, from, to, amount)
        }),
{
    lemma_reserved_distinct();
    let avail = stored_avail(v);
    let total = stored_total(v);
    let cur = cursor(v);
    let xs = account_ids(v, from);
    let ifr = lemma_account_props(v, from);
    let kept = xs.take(xs.len() - amount);
    let moved = xs.skip(xs.len() - amount);
    let pv = holdings_bytes(kept);
    let op = holdings_bytes(moved);
    assert(xs.len() <= total - avail);
    lemma_codec_round_trip(kept);
    lemma_codec_round_trip(moved);
    lemma_ids_bytes_len(moved);
    assert(op.len() == 8 + 8 * moved.len());
    assert(operand_count(op) == moved.len() as u64);
    let s1 = kv_put(v, from, pv);
    lemma_kv_put_unique(v, from, pv);
    assert forall|k: Seq<u8>| k != from implies kv_get(s1, k) == kv_get(v, k) by {
        lemma_kv_put_get(v, from, pv, k);
    }
    lemma_kv_put_get(v, from, pv, from);
    assert(stored_super_id(s1) == stored_super_id(v));
    assert(stored_total(s1) == total);
    assert(stored_avail(s1) == avail);
    assert forall|j: int| 0 <= j < ifr implies (#[trigger] v[j]).0 != from by {
        assert(v[j].0 != v[ifr].0);
    }
    lemma_kv_put_update(v, from, pv, ifr);
    assert(s1 == v.update(ifr, (from, pv)));
    lemma_units_update(v, ifr, (from, pv));
    assert(entry_units(v[ifr]) == xs.len() as int);
    assert(entry_units((from, pv)) == kept.len() as int);
    assert(units(s1) == units(v) - amount);
    assert(all_below(xs, cur));
    assert(no_dups(xs));
    if to == from {
        assert(stored_or_empty(s1, to) == pv);
        assert(scalar_value(pv) == kept.len() as u64);
        assert(kept.len() + moved.len() == xs.len());
        lemma_reduced_append(kept, moved);
        assert(kept + moved =~= xs);
        let mv = holdings_bytes(xs);
        assert(merged_value(s1, to, op) == mv);
        let w = kv_merge(s1, to, op);
        assert(w == kv_put(s1, to, mv));
        assert(s1[ifr] == (from, pv));
        assert forall|j: int| 0 <= j < ifr implies (#[trigger] s1[j]).0 != from by {
            assert(s1[j] == v[j]);
            assert(v[j].0 != v[ifr].0);
        }
        lemma_kv_put_update(s1, to, mv, ifr);
        assert(w == s1.update(ifr, (from, mv)));
        assert(kv_get(v, from).unwrap() == mv);
        assert(v[ifr] == (from, mv));
        assert(w =~= v);
        assert(ledger_inv(w));
        assert(transfer_effect(v, w, from, to, amount));
    } else {
        let zs = holdings_or_empty(v, to);
        assert(kv_get(s1, to) == kv_get(v, to));
        if kv_has(v, to) {
            let ito0 = lemma_account_props(v, to);
            assert(ito0 != ifr);
            if ifr < ito0 {
                lemma_units_pair_bound(v, ifr, ito0);
            } else {
                lemma_units_pair_bound(v, ito0, ifr);
            }
            assert(zs.len() + xs.len() <= units(v));
            assert(stored_or_empty(s1, to) == holdings_bytes(zs));
            assert(scalar_value(stored_or_empty(s1, to)) == zs.len() as u64);
            lemma_reduced_append(zs, moved);
        } else {
            assert(stored_or_empty(s1, to) == scalar_bytes(0));
            lemma_scalar_round_trip(0);
            lemma_empty_holdings();
            lemma_reduced_append(Seq::<u64>::empty(), moved);
            assert(Seq::<u64>::empty() + moved =~= moved);
            assert(zs + moved =~= moved);
        }
        let ys = zs + moved;
        let mv = holdings_bytes(ys);
        assert(merged_value(s1, to, op) == mv);
        let w = kv_merge(s1, to, op);
        assert(w == kv_put(s1, to, mv));
        lemma_codec_round_trip(ys);
        lemma_kv_put_unique(s1, to, mv);
        assert forall|k: Seq<u8>| k != to implies kv_get(w, k) == kv_get(s1, k) by {
            lemma_kv_put_get(s1, to, mv, k);
        }
        lemma_kv_put_get(s1, to, mv, to);
        assert(stored_super_id(w) == stored_super_id(v));
        assert(stored_total(w) == total);
        assert(stored_avail(w) == avail);
        assert(cursor(w) == cur);
        if kv_has(v, to) {
            let ito = lemma_account_props(v, to);
            assert(ito != ifr);
            assert(s1[ito] == v[ito]);
            assert forall|j: int| 0 <= j < ito implies (#[trigger] s1[j]).0 != to by {
                if j != ifr {
                    assert(s1[j] == v[j]);
                    assert(v[j].0 != v[ito].0);
                }
            }
            lemma_kv_put_update(s1, to, mv, ito);
            assert(w == s1.update(ito, (to, mv)));
            lemma_units_update(s1, ito, (to, mv));
            assert(entry_units(s1[ito]) == zs.len() as int);
            assert(entry_units((to, mv)) == ys.len() as int);
            assert(units(w) == units(v));
            lemma_peer_entries(v, w, ifr, ito, from, to, pv, mv, xs, kept, moved, zs, ys, cur);
            assert(ledger_inv(w));
        } else {
            assert forall|j: int| 0 <= j < s1.len() implies (#[trigger] s1[j]).0 != to by {
                if s1[j].0 == to {
                    lemma_kv_get_entry(s1, j);
                }
            }
            lemma_kv_put_push(s1, to, mv);
            assert(w == s1.push((to, mv)));
            lemma_units_push(s1, (to, mv));
            assert(zs =~= Seq::<u64>::empty());
            assert(entry_units((to, mv)) == ys.len() as int);
            assert(units(w) == units(v));
            assert(forall|p: int| 0 <= p < v.len() && p != ifr ==> #[trigger] w[p] == v[p]);
            lemma_peer_entries(v, w, ifr, v.len() as int, from, to, pv, mv, xs, kept, moved, zs, ys, cur);
            assert(ledger_inv(w));
        }
        assert(kv_get(w, to) == Some(holdings_bytes(holdings_or_empty(v, to) + xs.skip(
            xs.len() - amount,
        ))));
        assert(transfer_effect(v, w, from, to, amount));
    }
}

/// Per-entry and pairwise invariant clauses after a peer transfer: the
/// sender keeps a prefix of its ids, the receiver appends the removed
/// suffix, every other account is untouched, and the cursor is unchanged.
proof fn lemma_peer_entries(
    v: Seq<(Seq<u8>, Seq<u8>)>,
    w: Seq<(Seq<u8>, Seq<u8>)>,
    ifr: int,
    ito: int,
    from: Seq<u8>,
    to: Seq<u8>,
    pv: Seq<u8>,
    mv: Seq<u8>,
    xs: Seq<u64>,
    kept: Seq<u64>,
    moved: Seq<u64>,
    zs: Seq<u64>,
    ys: Seq<u64>,
    cur: int,
)
    requires
        ledger_inv(v),
        cursor(v) == cur,
        0 <= ifr < v.len(),
        v[ifr].0 == from,
        !is_reserved(from),
        !is_reserved(to),
        from != to,
        ifr != ito,
        0 <= ito <= v.len(),
        w.len() == if ito == v.len() {
            v.len() + 1
        } else {
            v.len() as nat
        },
        w[ifr] == (from, pv),
        w[ito] == (to, mv),
        forall|p: int| 0 <= p < w.len() && p != ifr && p != ito ==> #[trigger] w[p] == v[p],
        ito < v.len() ==> v[ito].0 == to && zs == decoded_ids(v[ito].1),
        ito == v.len() ==> zs == Seq::<u64>::empty(),
        xs == decoded_ids(v[ifr].1),
        moved.len() <= xs.len(),
        kept == xs.take(xs.len() - moved.len()),
        moved == xs.skip(xs.len() - moved.len()),
        ys == zs + moved,
        decoded_ids(pv) == kept,
        is_encoding(pv),
        decoded_ids(mv) == ys,
        is_encoding(mv),
    ensures
        forall|i: int| 0 <= i < w.len() ==> entry_ok(#[trigger] w[i], cur),
        forall|i: int, j: int|
            0 <= i < j < w.len() && !is_reserved((#[trigger] w[i]).0) && !is_reserved(
                (#[trigger] w[j]).0,
            ) ==> disjoint_ids(decoded_ids(w[i].1), decoded_ids(w[j].1)),
{
    assert(entry_ok(v[ifr], cur));
    assert(all_below(xs, cur));
    assert(no_dups(xs));
    let cut = xs.len() - moved.len();
    assert(forall|a: int| 0 <= a < kept.len() ==> kept[a] == xs[a]);
    assert(forall|b: int| 0 <= b < moved.len() ==> moved[b] == xs[cut + b]);
    if ito < v.len() {
        assert(entry_ok(v[ito], cur));
        assert(all_below(zs, cur));
        assert(no_dups(zs));
        if ifr < ito {
            assert(disjoint_ids(decoded_ids(v[ifr].1), decoded_ids(v[ito].1)));
        } else {
            assert(disjoint_ids(decoded_ids(v[ito].1), decoded_ids(v[ifr].1)));
        }
    }
    assert(disjoint_ids(zs, xs)) by {
        assert forall|a: int, b: int| 0 <= a < zs.len() && 0 <= b < xs.len() implies zs[a]
            != xs[b] by {}
    }
    // the receiver's new ids are distinct: old ids, then a suffix of the
    // sender's, and the two were disjoint
    assert forall|a: int, b: int| 0 <= a < b < ys.len() implies ys[a] != ys[b] by {
        if a < zs.len() && b >= zs.len() {
            assert(ys[a] == zs[a]);
            assert(ys[b] == moved[b - zs.len()]);
            assert(moved[b - zs.len()] == xs[cut + (b - zs.len())]);
        } else if a >= zs.len() {
            assert(ys[a] == moved[a - zs.len()]);
            assert(ys[b] == moved[b - zs.len()]);
        }
    }
    assert(all_below(ys, cur)) by {
        assert forall|b: int| 0 <= b < ys.len() implies (#[trigger] ys[b]) < cur by {
            if b >= zs.len() {
                assert(ys[b] == moved[b - zs.len()]);
                assert(moved[b - zs.len()] == xs[cut + (b - zs.len())]);
            }
        }
    }
    assert forall|i: int| 0 <= i < w.len() implies entry_ok(#[trigger] w[i], cur) by {
        if i == ifr {
            assert(w[i] == (from, pv));
            assert(all_below(kept, cur));
            assert(no_dups(kept));
        } else if i == ito {
            assert(w[i] == (to, mv));
        } else {
            assert(w[i] == v[i]);
            assert(entry_ok(v[i], cur));
        }
    }
    assert forall|i: int, j: int|
        0 <= i < j < w.len() && !is_reserved((#[trigger] w[i]).0) && !is_reserved(
            (#[trigger] w[j]).0,
        ) implies disjoint_ids(decoded_ids(w[i].1), decoded_ids(w[j].1)) by {
        lemma_peer_pair(v, w, ifr, ito, from, to, pv, mv, xs, kept, moved, zs, ys, cur, i, j);
    }
}

/// One pair of entries after a peer transfer is disjoint.
#[verifier::rlimit(80)]
proof fn lemma_peer_pair(
    v: Seq<(Seq<u8>, Seq<u8>)>,
    w: Seq<(Seq<u8>, Seq<u8>)>,
    ifr: int,
    ito: int,
    from: Seq<u8>,
    to: Seq<u8>,
    pv: Seq<u8>,
    mv: Seq<u8>,
    xs: Seq<u64>,
    kept: Seq<u64>,
    moved: Seq<u64>,
    zs: Seq<u64>,
    ys: Seq<u64>,
    cur: int,
    i: int,
    j: int,
)
    requires
        ledger_inv(v),
        0 <= ifr < v.len(),
        v[ifr].0 == from,
        ifr != ito,
        0 <= ito <= v.len(),
        w.len() == if ito == v.len() {
            v.len() + 1
        } else {
            v.len() as nat
        },
        w[ifr] == (from, pv),
        w[ito] == (to, mv),
        forall|p: int| 0 <= p < w.len() && p != ifr && p != ito ==> #[trigger] w[p] == v[p],
        ito < v.len() ==> v[ito].0 == to && zs == decoded_ids(v[ito].1),
        ito == v.len() ==> zs == Seq::<u64>::empty(),
        !is_reserved(from),
        !is_reserved(to),
        xs == decoded_ids(v[ifr].1),
        moved.len() <= xs.len(),
        kept == xs.take(xs.len() - moved.len()),
        moved == xs.skip(xs.len() - moved.len()),
        ys == zs + moved,
        decoded_ids(pv) == kept,
        decoded_ids(mv) == ys,
        no_dups(xs),
        0 <= i < j < w.len(),
        !is_reserved(w[i].0),
        !is_reserved(w[j].0),
    ensures
        disjoint_ids(decoded_ids(w[i].1), decoded_ids(w[j].1)),
{
    let cut = xs.len() - moved.len();
    // disjointness of each changed sequence against an untouched account `p`
    assert forall|p: int|
        0 <= p < v.len() && p != ifr && p != ito && !is_reserved(
            (#[trigger] v[p]).0,
        ) implies disjoint_ids(decoded_ids(v[p].1), kept) && disjoint_ids(decoded_ids(v[p].1), ys)
        && disjoint_ids(kept, decoded_ids(v[p].1)) && disjoint_ids(ys, decoded_ids(v[p].1)) by {
        let ps = decoded_ids(v[p].1);
        if p < ifr {
            assert(disjoint_ids(decoded_ids(v[p].1), decoded_ids(v[ifr].1)));
        } else {
            assert(disjoint_ids(decoded_ids(v[ifr].1), decoded_ids(v[p].1)));
        }
        if ito < v.len() {
            if p < ito {
                assert(disjoint_ids(decoded_ids(v[p].1), decoded_ids(v[ito].1)));
            } else {
                assert(disjoint_ids(decoded_ids(v[ito].1), decoded_ids(v[p].1)));
            }
        }
        assert forall|a: int, b: int| 0 <= a < ps.len() && 0 <= b < kept.len() implies ps[a]
            != kept[b] by {
            assert(kept[b] == xs[b]);
        }
        assert forall|a: int, b: int| 0 <= a < ps.len() && 0 <= b < ys.len() implies ps[a]
            != ys[b] by {
            if b < zs.len() {
                assert(ys[b] == zs[b]);
            } else {
                assert(ys[b] == moved[b - zs.len()]);
                assert(moved[b - zs.len()] == xs[cut + (b - zs.len())]);
            }
        }
    }
    // disjointness of the sender's kept prefix against the receiver's value
    assert(disjoint_ids(kept, ys) && disjoint_ids(ys, kept)) by {
        if ito < v.len() {
            if ifr < ito {
                assert(disjoint_ids(decoded_ids(v[ifr].1), decoded_ids(v[ito].1)));
            } else {
                assert(disjoint_ids(decoded_ids(v[ito].1), decoded_ids(v[ifr].1)));
            }
        }
        assert forall|a: int, b: int| 0 <= a < kept.len() && 0 <= b < ys.len() implies kept[a]
            != ys[b] by {
            assert(kept[a] == xs[a]);
            if b < zs.len() {
                assert(ys[b] == zs[b]);
            } else {
                assert(ys[b] == moved[b - zs.len()]);
                assert(moved[b - zs.len()] == xs[cut + (b - zs.len())]);
            }
        }
    }
    if i != ifr && i != ito && j != ifr && j != ito {
        assert(w[i] == v[i]);
        assert(w[j] == v[j]);
    } else if i == ifr && j == ito {
        assert(decoded_ids(w[i].1) == kept);
    } else if i == ito && j == ifr {
        assert(decoded_ids(w[i].1) == ys);
    } else if i == ifr || j == ifr {
        let p = if i == ifr {
            j
        } else {
            i
        };
        assert(w[p] == v[p]);
    } else {
        let p = if i == ito {
            j
        } else {
            i
        };
        assert(w[p] == v[p]);
    }
}

/// Unrolls the three-put bootstrap batch and shows it establishes the
/// invariant from a resettable state.
proof fn lemma_init_post(v: Seq<(Seq<u8>, Seq<u8>)>, b: Seq<BatchOp>, id: Seq<u8>, t: u64)
    requires
        keys_unique(v),
        id.len() > 0,
        t > 0,
        b.len() == 3,
        is_put(b[0], super_account_key(), id),
        is_put(b[1], total_supply_key(), scalar_bytes(t)),
        is_put(b[2], super_balance_key(), scalar_bytes(t)),
    ensures
        ({
            let w = apply_batch_spec(v, b);
            &&& keys_unique(w)
            &&& kv_get(w, super_account_key()) == Some(id)
            &&& kv_get(w, total_supply_key()) == Some(scalar_bytes(t))
            &&& kv_get(w, super_balance_key()) == Some(scalar_bytes(t))
            &&& forall|k: Seq<u8>| !is_reserved(k) ==> kv_get(w, k) == kv_get(v, k)
            &&& stored_super_id(w) == id
            &&& stored_total(w) == t
            &&& stored_avail(w) == t
            &&& resettable(v) ==> ledger_inv(w)
        }),
{
    lemma_reserved_distinct();
    let sak = super_account_key();
    let tk = total_supply_key();
    let bk = super_balance_key();
    let tb = scalar_bytes(t);
    let s1 = kv_put(v, sak, id);
    let s2 = kv_put(s1, tk, tb);
    let s3 = kv_put(s2, bk, tb);
    // unroll the batch fold
    assert(b.drop_last() =~= seq![b[0], b[1]]);
    assert(seq![b[0], b[1]].drop_last() =~= seq![b[0]]);
    assert(seq![b[0]].drop_last() =~= Seq::<BatchOp>::empty());
    assert(apply_batch_spec(v, Seq::<BatchOp>::empty()) == v);
    assert(apply_op(v, b[0]) == s1);
    assert(apply_batch_spec(v, seq![b[0]]) == s1);
    assert(apply_batch_spec(v, seq![b[0], b[1]]) == s2);
    assert(apply_batch_spec(v, b) == s3);
    let w = s3;
    // lookups
    assert forall|k: Seq<u8>| !is_reserved(k) implies kv_get(w, k) == kv_get(v, k) by {
        lemma_kv_put_get(s2, bk, tb, k);
        lemma_kv_put_get(s1, tk, tb, k);
        lemma_kv_put_get(v, sak, id, k);
    }
    lemma_kv_put_get(s2, bk, tb, sak);
    lemma_kv_put_get(s1, tk, tb, sak);
    lemma_kv_put_get(v, sak, id, sak);
    lemma_kv_put_get(s2, bk, tb, tk);
    lemma_kv_put_get(s1, tk, tb, tk);
    lemma_kv_put_get(s2, bk, tb, bk);
    lemma_kv_put_unique(v, sak, id);
    lemma_kv_put_unique(s1, tk, tb);
    lemma_kv_put_unique(s2, bk, tb);
    lemma_scalar_round_trip(t);
    assert(stored_total(w) == t);
    assert(stored_avail(w) == t);
    assert(cursor(w) == 0);
    // units are untouched by the three reserved overwrites
    lemma_units_put_reserved(v, sak, id);
    lemma_units_put_reserved(s1, tk, tb);
    lemma_units_put_reserved(s2, bk, tb);
    assert(units(w) == units(v));
    if resettable(v) {
        if v.len() == 0 {
            assert(units(v) == 0);
        }
        assert(units(w) == 0);
        // every non-reserved entry of w is an entry of v holding no units
        assert forall|i: int| 0 <= i < w.len() implies entry_ok(#[trigger] w[i], cursor(w)) by {
            if !is_reserved(w[i].0) {
                lemma_kv_put_entries(s2, bk, tb, i);
                let e = w[i];
                assert(e != (bk, tb));
                let j2 = choose|j: int| 0 <= j < s2.len() && #[trigger] s2[j] == e && s2[j].0 != bk;
                lemma_kv_put_entries(s1, tk, tb, j2);
                let j1 = choose|j: int| 0 <= j < s1.len() && #[trigger] s1[j] == e && s1[j].0 != tk;
                lemma_kv_put_entries(v, sak, id, j1);
                let j0 = choose|j: int| 0 <= j < v.len() && #[trigger] v[j] == e && v[j].0 != sak;
                assert(v.len() > 0);
                assert(ledger_inv(v));
                assert(entry_ok(v[j0], cursor(v)));
                lemma_units_entry_bound(v, j0);
                lemma_units_nonneg(v.drop_first());
                assert(entry_units(v[j0]) == 0);
                assert(decoded_ids(e.1).len() == 0);
                assert(all_below(decoded_ids(e.1), 0));
            }
        }
        assert forall|i: int, j: int|
            0 <= i < j < w.len() && !is_reserved((#[trigger] w[i]).0) && !is_reserved(
                (#[trigger] w[j]).0,
            ) implies disjoint_ids(decoded_ids(w[i].1), decoded_ids(w[j].1)) by {
            assert(entry_ok(w[i], cursor(w)));
            assert(entry_ok(w[j], cursor(w)));
            assert(decoded_ids(w[i].1).len() == 0);
        }
        assert(ledger_inv(w));
    }
}

impl Ledger {
    /// Transfer `amount` token units from `from` to `to`, as one atomic
    /// batch: a full overwrite of the shrinking side and a merge-append of
    /// the delta into the growing side.
    ///
    /// When `from` is the super account the transfer mints: the contiguous
    /// run of `amount` fresh ids starting at the issuance cursor
    /// (`total_supply - available_balance`) is appended to `to`, and the
    /// available balance drops by `amount`; `InsufficientSupply` when the
    /// balance is smaller than `amount`.  Otherwise it is a peer transfer:
    /// the sender's `amount` most recently received ids move to the end of
    /// `to`'s holdings; `AccountNotFound` when the sender has no entry at
    /// all, `InsufficientBalance` when it holds too few.  Empty ids, a zero
    /// amount, a transfer directed at the super account, and ids that
    /// collide with a reserved metadata key fail with `InvalidInput`.  On
    /// any failure the ledger is exactly as before: no partial effect is
    /// ever observable.
    pub fn transfer(&mut self, from: &Vec<u8>, to: &Vec<u8>, amount: u64) -> (r: Result<
        (),
        Error,
    >)
        requires
            old(self).inv(),
        ensures
            final(self).inv(),
            r == plan_result(
                stored_super_id(old(self)@),
                kv_get(old(self)@, total_supply_key()).unwrap(),
                kv_get(old(self)@, super_balance_key()).unwrap(),
                from@,
                kv_get(old(self)@, from@),
                to@,
                amount,
            ),
            r is Err ==> final(self)@ == old(self)@,
            r is Ok ==> transfer_effect(old(self)@, final(self)@, from@, to@, amount),
    {
        let ghost v = self@;
        let sak = make_super_account_key();
        let sid = match self.store.get(&sak) {
            Some(s) => dup_bytes(s),
            None => {
                proof {
                    assert(false);
                }
                vstd::pervasive::unreached()
            },
        };
        let tk = make_total_supply_key();
        let tv = match self.store.get(&tk) {
            Some(s) => dup_bytes(s),
            None => {
                proof {
                    assert(false);
                }
                vstd::pervasive::unreached()
            },
        };
        let bk = make_super_balance_key();
        let bv = match self.store.get(&bk) {
            Some(s) => dup_bytes(s),
            None => {
                proof {
                    assert(false);
                }
                vstd::pervasive::unreached()
            },
        };
        let fv: Option<Vec<u8>> = match self.store.get(from) {
            Some(x) => Some(dup_bytes(x)),
            None => None,
        };
        let fv_ref: Option<&Vec<u8>> = match &fv {
            Some(x) => Some(x),
            None => None,
        };
        proof {
            assert(opt_view(fv_ref) == kv_get(v, from@));
        }
        let planned = plan_transfer(&sid, &tv, &bv, from, fv_ref, to, amount);
        match planned {
            Err(e) => Err(e),
            Ok(batch) => {
                proof {
                    lemma_transfer_commit(v, from@, to@, amount, batch@);
                }
                self.store.apply_batch(&batch);
                Ok(())
            },
        }
    }
}

/// A planned batch of a successful transfer is applicable, and committing it
/// preserves the invariant and effects exactly the planned change.
proof fn lemma_transfer_commit(
    v: Seq<(Seq<u8>, Seq<u8>)>,
    from: Seq<u8>,
    to: Seq<u8>,
    amount: u64,
    b: Seq<BatchOp>,
)
    requires
        ledger_inv(v),
        plan_result(
            stored_super_id(v),
            kv_get(v, total_supply_key()).unwrap(),
            kv_get(v, super_balance_key()).unwrap(),
            from,
            kv_get(v, from),
            to,
            amount,
        ) is Ok,
        planned_batch(
            stored_super_id(v),
            kv_get(v, total_supply_key()).unwrap(),
            kv_get(v, super_balance_key()).unwrap(),
            from,
            kv_get(v, from),
            to,
            amount,
            b,
        ),
    ensures
        batch_ok(v, b),
        ledger_inv(apply_batch_spec(v, b)),
        transfer_effect(v, apply_batch_spec(v, b), from, to, amount),
{
    let sid = stored_super_id(v);
    if from == sid {
        lemma_mint_step(v, to, amount);
        let nb = scalar_bytes((stored_avail(v) - amount) as u64);
        let op = holdings_bytes(mint_ids(cursor(v), amount));
        lemma_two_op_batch(v, b, super_balance_key(), nb, to, op);
    } else {
        lemma_peer_step(v, from, to, amount);
        let xs = account_ids(v, from);
        let pv = holdings_bytes(xs.take(xs.len() - amount));
        let op = holdings_bytes(xs.skip(xs.len() - amount));
        lemma_two_op_batch(v, b, from, pv, to, op);
    }
}

/// Conservation: in every valid ledger state, the available balance plus
/// the token units held across all accounts equal the total supply.  The
/// contracts of `init_super_account` and `transfer` show that every
/// successful call leaves the ledger in such a state.
pub proof fn lemma_conservation(l: Ledger)
    requires
        l.inv(),
    ensures
        stored_avail(l@) + units(l@) == stored_total(l@),
{
}

/// Uniqueness: a token id held by one account is held by no other, and no
/// account holds an id twice.
pub proof fn lemma_uniqueness(l: Ledger, a: Seq<u8>, b: Seq<u8>)
    requires
        l.inv(),
        a != b,
        !is_reserved(a),
        !is_reserved(b),
        kv_has(l@, a),
        kv_has(l@, b),
    ensures
        disjoint_ids(account_ids(l@, a), account_ids(l@, b)),
        no_dups(account_ids(l@, a)),
{
    let v = l@;
    let i = lemma_account_props(v, a);
    let j = lemma_account_props(v, b);
    assert(i != j);
    if i < j {
        assert(disjoint_ids(decoded_ids(v[i].1), decoded_ids(v[j].1)));
    } else {
        assert(disjoint_ids(decoded_ids(v[j].1), decoded_ids(v[i].1)));
        let xs = account_ids(v, a);
        let ys = account_ids(v, b);
        assert forall|p: int, q: int| 0 <= p < xs.len() && 0 <= q < ys.len() implies xs[p]
            != ys[q] by {
            assert(ys[q] != xs[p]);
        }
    }
}

/// Freshness of minting: every id a successful mint would issue — the run of
/// `amount` ids at the issuance cursor — is in no account's holdings, so no
/// id is ever issued twice.
pub proof fn lemma_mint_freshness(l: Ledger, a: Seq<u8>, amount: u64)
    requires
        l.inv(),
        !is_reserved(a),
        kv_has(l@, a),
        amount <= stored_avail(l@),
    ensures
        disjoint_ids(account_ids(l@, a), mint_ids(cursor(l@), amount)),
{
    let v = l@;
    let i = lemma_account_props(v, a);
    let xs = account_ids(v, a);
    let cur = cursor(v);
    let minted = mint_ids(cur, amount);
    assert forall|p: int, q: int| 0 <= p < xs.len() && 0 <= q < minted.len() implies xs[p]
        != minted[q] by {
        assert(xs[p] < cur);
        assert(cur + q <= cur + amount <= stored_total(v) <= u64::MAX);
        assert(minted[q] == (cur + q) as u64);
        assert(minted[q] >= cur);
    }
}

} // verus!
