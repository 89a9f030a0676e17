//! The merge reducer.
//!
//! The store queues incremental appends to an account's holdings as *merge
//! operands* — each one a count header followed by that many 8-byte id
//! blocks, the same layout as a holdings value — and folds them into the
//! canonical encoded value at its own schedule.  The reducer here performs
//! that fold: it appends every operand's id blocks, in arrival order, after
//! the existing bytes, then adds the accumulated count into the 8-byte
//! header.  It is associative across re-invocations, so the store may fold
//! any prefix of the operand queue first and feed the partial result back in
//! as the existing value later.

use vstd::prelude::*;

use crate::codec::{
    encode_scalar, holdings_bytes, ids_bytes, lemma_ids_bytes_add, lemma_scalar_round_trip,
    read_scalar_at, scalar_bytes, scalar_value,
};

verus! {

/// The count header of a merge operand.
pub open spec fn operand_count(op: Seq<u8>) -> u64
    recommends
        op.len() >= 8,
{
    scalar_value(op)
}

/// The id blocks of a merge operand: everything after the count header.
pub open spec fn operand_body(op: Seq<u8>) -> Seq<u8>
    recommends
        op.len() >= 8,
{
    op.skip(8)
}

/// The sum of the operands' count headers.
pub open spec fn total_delta(ops: Seq<Seq<u8>>) -> int
    decreases ops.len(),
{
    if ops.len() == 0 {
        0
    } else {
        total_delta(ops.drop_last()) + operand_count(ops.last())
    }
}

/// The operands' id blocks, concatenated in arrival order.
pub open spec fn bodies(ops: Seq<Seq<u8>>) -> Seq<u8>
    decreases ops.len(),
{
    if ops.len() == 0 {
        Seq::empty()
    } else {
        bodies(ops.drop_last()) + operand_body(ops.last())
    }
}

/// The result of folding `ops` into the existing value `base`: the header
/// grows by the accumulated count, and every operand body is appended after
/// the existing bytes in arrival order.
pub open spec fn reduced(base: Seq<u8>, ops: Seq<Seq<u8>>) -> Seq<u8>
    recommends
        base.len() >= 8,
        scalar_value(base) + total_delta(ops) <= u64::MAX,
{
    scalar_bytes((scalar_value(base) + total_delta(ops)) as u64) + base.skip(8) + bodies(ops)
}

/// The base value the fold starts from: the existing encoded value, or the
/// encoding of an empty sequence for an account that does not exist yet.
pub open spec fn base_of(existing: Option<&Vec<u8>>) -> Seq<u8> {
    match existing {
        Some(b) => b@,
        None => scalar_bytes(0),
    }
}

/// The views of a vector of operand buffers.
pub open spec fn ops_views(ops: Seq<Vec<u8>>) -> Seq<Seq<u8>> {
    ops.map_values(|v: Vec<u8>| v@)
}

/// A count header is never negative, so the accumulated delta only grows.
pub proof fn lemma_total_delta_nonneg(ops: Seq<Seq<u8>>)
    ensures
        total_delta(ops) >= 0,
    decreases ops.len(),
{
    if ops.len() > 0 {
        lemma_total_delta_nonneg(ops.drop_last());
    }
}

/// Extending a prefix of the operand queue by one operand adds its count and
/// appends its body.
pub proof fn lemma_fold_take_succ(ops: Seq<Seq<u8>>, i: int)
    requires
        0 <= i < ops.len(),
    ensures
        total_delta(ops.take(i + 1)) == total_delta(ops.take(i)) + operand_count(ops[i]),
        bodies(ops.take(i + 1)) == bodies(ops.take(i)) + operand_body(ops[i]),
{
    assert(ops.take(i + 1).drop_last() =~= ops.take(i));
    assert(ops.take(i + 1).last() == ops[i]);
}

/// The delta accumulated over any prefix never exceeds the whole queue's.
pub proof fn lemma_total_delta_prefix(ops: Seq<Seq<u8>>, i: int)
    requires
        0 <= i <= ops.len(),
    ensures
        total_delta(ops.take(i)) <= total_delta(ops),
    decreases ops.len() - i,
{
    if i == ops.len() {
        assert(ops.take(i) =~= ops);
    } else {
        lemma_fold_take_succ(ops, i);
        lemma_total_delta_prefix(ops, i + 1);
    }
}

/// Counts and bodies distribute over a split of the operand queue.
pub proof fn lemma_fold_add(ops1: Seq<Seq<u8>>, ops2: Seq<Seq<u8>>)
    ensures
        total_delta(ops1 + ops2) == total_delta(ops1) + total_delta(ops2),
        bodies(ops1 + ops2) == bodies(ops1) + bodies(ops2),
    decreases ops2.len(),
{
    if ops2.len() == 0 {
        assert(ops1 + ops2 =~= ops1);
        assert(bodies(ops1) + bodies(ops2) =~= bodies(ops1));
    } else {
        assert((ops1 + ops2).drop_last() =~= ops1 + ops2.drop_last());
        assert((ops1 + ops2).last() == ops2.last());
        lemma_fold_add(ops1, ops2.drop_last());
        assert((bodies(ops1) + bodies(ops2.drop_last())) + operand_body(ops2.last())
            =~= bodies(ops1) + (bodies(ops2.drop_last()) + operand_body(ops2.last())));
    }
}

/// Reducer associativity: folding a whole operand queue in one invocation
/// yields the same value as folding a first group, then folding the rest
/// against the intermediate result.
pub proof fn lemma_reducer_associative(base: Seq<u8>, ops1: Seq<Seq<u8>>, ops2: Seq<Seq<u8>>)
    requires
        base.len() >= 8,
        scalar_value(base) + total_delta(ops1 + ops2) <= u64::MAX,
    ensures
        reduced(base, ops1 + ops2) == reduced(reduced(base, ops1), ops2),
{
    lemma_fold_add(ops1, ops2);
    lemma_total_delta_nonneg(ops1);
    lemma_total_delta_nonneg(ops2);
    let d1 = total_delta(ops1);
    let d2 = total_delta(ops2);
    let v = scalar_value(base);
    let mid = reduced(base, ops1);
    assert(scalar_value(mid) == scalar_value(scalar_bytes((v + d1) as u64)));
    lemma_scalar_round_trip((v + d1) as u64);
    assert(scalar_value(mid) == v + d1);
    assert(mid.skip(8) =~= base.skip(8) + bodies(ops1));
    assert(reduced(mid, ops2) =~= scalar_bytes((v + d1 + d2) as u64) + (base.skip(8) + bodies(
        ops1,
    )) + bodies(ops2));
    assert(reduced(base, ops1 + ops2) =~= scalar_bytes((v + d1 + d2) as u64) + (base.skip(8)
        + bodies(ops1)) + bodies(ops2));
}

/// The encoding of an empty holdings sequence is a bare zero header.
pub proof fn lemma_empty_holdings()
    ensures
        holdings_bytes(Seq::<u64>::empty()) == scalar_bytes(0),
{
    assert(holdings_bytes(Seq::<u64>::empty()) =~= scalar_bytes(0));
}

/// The reducer agrees with the codec: folding one operand that encodes `ys`
/// into the encoding of `xs` yields the encoding of `xs + ys`.
pub proof fn lemma_reduced_append(xs: Seq<u64>, ys: Seq<u64>)
    requires
        xs.len() + ys.len() <= u64::MAX,
    ensures
        reduced(holdings_bytes(xs), seq![holdings_bytes(ys)]) == holdings_bytes(xs + ys),
{
    let bx = holdings_bytes(xs);
    let by = holdings_bytes(ys);
    lemma_scalar_round_trip(xs.len() as u64);
    lemma_scalar_round_trip(ys.len() as u64);
    assert(scalar_value(bx) == scalar_value(scalar_bytes(xs.len() as u64)));
    assert(scalar_value(by) == scalar_value(scalar_bytes(ys.len() as u64)));
    assert(seq![by].drop_last() =~= Seq::<Seq<u8>>::empty());
    assert(seq![by].last() == by);
    assert(total_delta(Seq::<Seq<u8>>::empty()) == 0);
    assert(bodies(Seq::<Seq<u8>>::empty()) =~= Seq::<u8>::empty());
    assert(total_delta(seq![by]) == ys.len());
    assert(bodies(seq![by]) =~= by.skip(8));
    assert(bx.skip(8) =~= ids_bytes(xs));
    assert(by.skip(8) =~= ids_bytes(ys));
    lemma_ids_bytes_add(xs, ys);
    assert((xs + ys).len() == xs.len() + ys.len());
    assert(reduced(bx, seq![by]) =~= holdings_bytes(xs + ys));
}

/// Fold pending merge operands into an account's canonical encoded value.
///
/// `existing` is the value currently stored under the key, or `None` when the
/// account does not exist yet, in which case the fold starts from the
/// encoding of an empty sequence.  Operands are folded in the given order;
/// each must carry at least its 8-byte count header, and the final count must
/// fit the header.  The store must hand every operand to the reducer exactly
/// once over the key's lifetime, though it may split the queue across
/// invocations.
pub fn merge_holdings(existing: Option<&Vec<u8>>, operands: &Vec<Vec<u8>>) -> (r: Vec<u8>)
    requires
        (existing matches Some(b) ==> b@.len() >= 8),
        forall|i: int| 0 <= i < operands@.len() ==> (#[trigger] operands@[i])@.len() >= 8,
        scalar_value(base_of(existing)) + total_delta(ops_views(operands@)) <= u64::MAX,
    ensures
        r@ == reduced(base_of(existing), ops_views(operands@)),
{
    let ghost base = base_of(existing);
    let ghost ops = ops_views(operands@);
    let mut acc: Vec<u8> = Vec::new();
    match existing {
        None => {
            acc = encode_scalar(0);
        },
        Some(b) => {
            let blen = b.len();
            let mut j: usize = 0;
            while j < blen
                invariant
                    blen == b@.len(),
                    0 <= j <= blen,
                    acc@ == b@.take(j as int),
                decreases blen - j,
            {
                acc.push(b[j]);
                proof {
                    assert(b@.take(j + 1 as int) =~= b@.take(j as int).push(b@[j as int]));
                }
                j = j + 1;
            }
            proof {
                assert(b@.take(blen as int) =~= b@);
            }
        },
    }
    proof {
        assert(base.len() >= 8);
        assert(acc@ == base);
        assert(ops.take(0) =~= Seq::<Seq<u8>>::empty());
        assert(acc@ =~= base + bodies(ops.take(0)));
    }
    let mut delta: u64 = 0;
    let n = operands.len();
    let mut i: usize = 0;
    while i < n
        invariant
            n == operands@.len(),
            0 <= i <= n,
            ops == ops_views(operands@),
            forall|p: int| 0 <= p < n ==> (#[trigger] operands@[p])@.len() >= 8,
            scalar_value(base) + total_delta(ops) <= u64::MAX,
            delta == total_delta(ops.take(i as int)),
            acc@ == base + bodies(ops.take(i as int)),
        decreases n - i,
    {
        let op = &operands[i];
        let c = read_scalar_at(op, 0);
        proof {
            assert(op@.skip(0) =~= op@);
            assert(ops[i as int] == op@);
            lemma_fold_take_succ(ops, i as int);
            lemma_total_delta_prefix(ops, i + 1 as int);
            lemma_total_delta_nonneg(ops.take(i as int));
            assert(delta + c <= u64::MAX);
        }
        delta = delta + c;
        let oplen = op.len();
        let ghost before = acc@;
        let mut j: usize = 8;
        while j < oplen
            invariant
                oplen == op@.len(),
                8 <= j <= oplen,
                acc@ == before + op@.subrange(8, j as int),
            decreases oplen - j,
        {
            acc.push(op[j]);
            proof {
                assert(op@.subrange(8, j + 1 as int) =~= op@.subrange(8, j as int).push(
                    op@[j as int],
                ));
                assert(before + op@.subrange(8, j + 1 as int) =~= (before + op@.subrange(
                    8,
                    j as int,
                )).push(op@[j as int]));
            }
            j = j + 1;
        }
        proof {
            assert(op@.subrange(8, oplen as int) =~= operand_body(op@));
            assert(acc@ =~= base + bodies(ops.take(i + 1 as int)));
        }
        i = i + 1;
    }
    proof {
        assert(ops.take(n as int) =~= ops);
    }
    let hdr_old = read_scalar_at(&acc, 0);
    proof {
        let s = acc@.skip(0);
        assert(s =~= acc@);
        assert forall|p: int| 0 <= p < 8 implies acc@[p] == base[p] by {}
        assert(scalar_value(acc@) == scalar_value(base));
    }
    let new_count = hdr_old + delta;
    let hdr = encode_scalar(new_count);
    let ghost patched = acc@;
    let mut k: usize = 0;
    while k < 8
        invariant
            0 <= k <= 8,
            hdr@ == scalar_bytes(new_count),
            acc@.len() == patched.len(),
            patched.len() >= 8,
            forall|p: int| 0 <= p < k ==> acc@[p] == hdr@[p],
            forall|p: int| k <= p < patched.len() ==> acc@[p] == patched[p],
        decreases 8 - k,
    {
        let byte = hdr[k];
        acc[k] = byte;
        k = k + 1;
    }
    proof {
        assert(new_count == (scalar_value(base) + total_delta(ops)) as u64);
        assert(patched == base + bodies(ops));
        assert(acc@ =~= scalar_bytes(new_count) + patched.skip(8));
        assert(patched.skip(8) =~= base.skip(8) + bodies(ops));
        assert(scalar_bytes(new_count) + (base.skip(8) + bodies(ops)) =~= reduced(base, ops));
    }
    acc
}

} // verus!
