//! Laws of the engine contract, stated over the abstract contents that the
//! operations' contracts speak of.
use vstd::prelude::*;
use crate::engine::{apply_batch, apply_batches, apply_modify, is_seek_result, lookup, Contents, Modify};
use crate::keys::{lemma_lex_irreflexive, lemma_lex_total};

verus! {

/// The key that a mutation targets.
pub open spec fn modify_key(op: Modify) -> Seq<u8> {
    match op {
        Modify::Delete(k) => k@,
        Modify::Put((k, _)) => k@,
    }
}

/// What a lookup of its key yields right after a mutation.
pub open spec fn modify_effect(op: Modify) -> Option<Seq<u8>> {
    match op {
        Modify::Delete(_) => None,
        Modify::Put((_, v)) => Some(v@),
    }
}

/// A batch that never targets `k` leaves what `k` holds unchanged.
pub proof fn lemma_untouched_key(m: Contents, ops: Seq<Modify>, k: Seq<u8>)
    requires
        forall|i: int| 0 <= i < ops.len() ==> modify_key(#[trigger] ops[i]) != k,
    ensures
        lookup(apply_batch(m, ops), k) == lookup(m, k),
    decreases ops.len(),
{
    if ops.len() > 0 {
        assert(modify_key(ops[ops.len() - 1]) != k);
        lemma_untouched_key(m, ops.drop_last(), k);
    }
}

/// A key that no batch of a history writes is absent after that history,
/// applied to a fresh engine.
pub proof fn lemma_unwritten_key_absent(batches: Seq<Seq<Modify>>, k: Seq<u8>)
    requires
        forall|b: int, i: int|
            0 <= b < batches.len() && 0 <= i < batches[b].len() ==> modify_key(#[trigger] batches[b][i]) != k,
    ensures
        lookup(apply_batches(Contents::empty(), batches), k) is None,
    decreases batches.len(),
{
    if batches.len() > 0 {
        let last = batches.len() - 1;
        assert forall|i: int| 0 <= i < batches[last].len() implies modify_key(#[trigger] batches[last][i]) != k by {
            assert(modify_key(batches[last][i]) != k);
        };
        assert forall|b: int, i: int|
            0 <= b < batches.drop_last().len() && 0 <= i < batches.drop_last()[b].len() implies
            modify_key(#[trigger] batches.drop_last()[b][i]) != k by {
            assert(batches.drop_last()[b] == batches[b]);
        };
        lemma_unwritten_key_absent(batches.drop_last(), k);
        lemma_untouched_key(apply_batches(Contents::empty(), batches.drop_last()), batches.last(), k);
    }
}

/// Within a batch the last mutation of a key decides it, whatever its kind.
pub proof fn lemma_last_write_wins(m: Contents, ops: Seq<Modify>, i: int, k: Seq<u8>)
    requires
        0 <= i < ops.len(),
        modify_key(ops[i]) == k,
        forall|j: int| i < j < ops.len() ==> modify_key(#[trigger] ops[j]) != k,
    ensures
        lookup(apply_batch(m, ops), k) == modify_effect(ops[i]),
    decreases ops.len(),
{
    if i < ops.len() - 1 {
        assert(modify_key(ops[ops.len() - 1]) != k);
        lemma_last_write_wins(m, ops.drop_last(), i, k);
    }
}

/// After two puts of one key, a lookup yields the second value.
pub proof fn lemma_put_put(m: Contents, k: &[u8], v1: &[u8], v2: &[u8])
    ensures
        lookup(apply_batches(m, seq![seq![Modify::Put((k, v1))], seq![Modify::Put((k, v2))]]), k@) == Some(v2@),
{
    let bs = seq![seq![Modify::Put((k, v1))], seq![Modify::Put((k, v2))]];
    lemma_last_write_wins(apply_batches(m, bs.drop_last()), bs.last(), 0, k@);
}

/// After a put and then a delete of one key, the key is absent.
pub proof fn lemma_put_delete(m: Contents, k: &[u8], v: &[u8])
    ensures
        lookup(apply_batches(m, seq![seq![Modify::Put((k, v))], seq![Modify::Delete(k)]]), k@) is None,
{
    let bs = seq![seq![Modify::Put((k, v))], seq![Modify::Delete(k)]];
    lemma_last_write_wins(apply_batches(m, bs.drop_last()), bs.last(), 0, k@);
}

/// Deleting a key that is not stored changes nothing.
pub proof fn lemma_delete_absent(m: Contents, k: &[u8])
    requires
        !m.contains_key(k@),
    ensures
        apply_batch(m, seq![Modify::Delete(k)]) == m,
{
    let ops = seq![Modify::Delete(k)];
    assert(ops.drop_last() =~= Seq::<Modify>::empty());
    assert(apply_batch(m, ops.drop_last()) == m);
    assert(m.remove(k@) =~= m);
}

/// Putting two keys in one batch and deleting both in the next leaves both
/// absent.
pub proof fn lemma_put_pair_delete_pair(m: Contents, x: &[u8], a: &[u8], y: &[u8], b: &[u8])
    ensures
        ({
            let after = apply_batches(
                m,
                seq![
                    seq![Modify::Put((x, a)), Modify::Put((y, b))],
                    seq![Modify::Delete(x), Modify::Delete(y)],
                ],
            );
            lookup(after, x@) is None && lookup(after, y@) is None
        }),
{
    let bs = seq![
        seq![Modify::Put((x, a)), Modify::Put((y, b))],
        seq![Modify::Delete(x), Modify::Delete(y)],
    ];
    let mid = apply_batches(m, bs.drop_last());
    let dels = bs.last();
    lemma_last_write_wins(mid, dels, 1, y@);
    if x@ == y@ {
        lemma_last_write_wins(mid, dels, 1, x@);
    } else {
        lemma_last_write_wins(mid, dels, 0, x@);
    }
}

/// Seeking a stored key finds that key itself.
pub proof fn lemma_seek_exact(m: Contents, k: Seq<u8>, r: Option<(Seq<u8>, Seq<u8>)>)
    requires
        m.contains_key(k),
        is_seek_result(m, k, r),
    ensures
        r == Some((k, m[k])),
{
    lemma_lex_irreflexive(k);
    if let Some((fk, v)) = r {
        lemma_lex_total(fk, k);
    }
}

/// A seek has exactly one answer.
pub proof fn lemma_seek_unique(
    m: Contents,
    k: Seq<u8>,
    r1: Option<(Seq<u8>, Seq<u8>)>,
    r2: Option<(Seq<u8>, Seq<u8>)>,
)
    requires
        is_seek_result(m, k, r1),
        is_seek_result(m, k, r2),
    ensures
        r1 == r2,
{
    match (r1, r2) {
        (Some((k1, _)), Some((k2, _))) => {
            lemma_lex_total(k1, k2);
        },
        (Some((k1, _)), None) => {
            assert(m.contains_key(k1));
        },
        (None, Some((k2, _))) => {
            assert(m.contains_key(k2));
        },
        (None, None) => {},
    }
}

/// Applying one batch and then another is applying their concatenation.
pub proof fn lemma_batch_concat(m: Contents, a: Seq<Modify>, b: Seq<Modify>)
    ensures
        apply_batch(apply_batch(m, a), b) == apply_batch(m, a + b),
    decreases b.len(),
{
    if b.len() == 0 {
        assert(a + b =~= a);
    } else {
        lemma_batch_concat(m, a, b.drop_last());
        assert((a + b).drop_last() =~= a + b.drop_last());
        assert((a + b).last() == b.last());
    }
}

/// A history of batches has the effect of one batch holding all of their
/// mutations in order.
pub proof fn lemma_batches_flatten(m: Contents, batches: Seq<Seq<Modify>>)
    ensures
        apply_batches(m, batches) == apply_batch(m, batches.flatten_alt()),
    decreases batches.len(),
{
    if batches.len() > 0 {
        lemma_batches_flatten(m, batches.drop_last());
        lemma_batch_concat(m, batches.drop_last().flatten_alt(), batches.last());
    }
}

/// A batch has the effect of its mutations written one at a time, each as
/// a batch of its own: the single-key `put` and `delete`.
pub proof fn lemma_batch_as_single_writes(m: Contents, ops: Seq<Modify>)
    ensures
        apply_batch(m, ops) == apply_batches(m, ops.map_values(|op: Modify| seq![op])),
    decreases ops.len(),
{
    let singles = ops.map_values(|op: Modify| seq![op]);
    if ops.len() > 0 {
        lemma_batch_as_single_writes(m, ops.drop_last());
        assert(singles.drop_last() =~= ops.drop_last().map_values(|op: Modify| seq![op]));
        let one = singles.last();
        let pre = apply_batch(m, ops.drop_last());
        assert(one == seq![ops.last()]);
        assert(one.drop_last() =~= Seq::<Modify>::empty());
        assert(one.last() == ops.last());
        assert(apply_batch(pre, one.drop_last()) == pre);
        assert(apply_batch(apply_batch(m, ops.drop_last()), one) == apply_modify(
            apply_batch(m, ops.drop_last()),
            ops.last(),
        ));
    } else {
        assert(singles.len() == 0);
    }
}

} // verus!
