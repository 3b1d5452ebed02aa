//! What holds of every proof: the laws of the fold, proved over its model.

use vstd::prelude::*;

use crate::digest::{sha256_of, DIGEST_LEN};
use crate::hex_text::{hex_bytes, is_hex_text};
use crate::merkle::{
    digest_from_text, fold_path, joined, lemma_error_persists, path_from_items, proof_holds,
    FormatError, ItemModel, Side, StepModel,
};

verus! {

/// The hash does not collide on two inputs that differ.
pub open spec fn hash_separates(x: Seq<u8>, y: Seq<u8>) -> bool {
    x != y ==> sha256_of(x) != sha256_of(y)
}

/// At every step, the hash does not collide on what the two folds feed it.
pub open spec fn no_collision_between(
    p: Seq<StepModel>,
    a: Seq<u8>,
    q: Seq<StepModel>,
    b: Seq<u8>,
) -> bool {
    forall|i: int|
        0 <= i < p.len() ==> #[trigger] hash_separates(
            joined(fold_path(a, p.take(i)), p[i].0, p[i].1),
            joined(fold_path(b, q.take(i)), q[i].0, q[i].1),
        )
}

/// One more step of the fold is one more hash.
pub proof fn lemma_fold_step(leaf: Seq<u8>, path: Seq<StepModel>, i: int)
    requires
        0 <= i < path.len(),
    ensures
        fold_path(leaf, path.take(i + 1)) == sha256_of(
            joined(fold_path(leaf, path.take(i)), path[i].0, path[i].1),
        ),
{
    assert(path.take(i + 1).drop_last() =~= path.take(i));
    assert(path.take(i + 1).last() == path[i]);
}

proof fn lemma_joined_current_cancels(x: Seq<u8>, y: Seq<u8>, sibling: Seq<u8>, side: Side)
    requires
        x != y,
    ensures
        joined(x, sibling, side) != joined(y, sibling, side),
{
    if joined(x, sibling, side) == joined(y, sibling, side) {
        match side {
            Side::Right => {
                assert((x + sibling).subrange(0, x.len() as int) =~= x);
                assert((y + sibling).subrange(0, y.len() as int) =~= y);
            },
            Side::Left => {
                assert((sibling + x).subrange(sibling.len() as int, (sibling + x).len() as int)
                    =~= x);
                assert((sibling + y).subrange(sibling.len() as int, (sibling + y).len() as int)
                    =~= y);
            },
        }
    }
}

proof fn lemma_joined_sibling_cancels(current: Seq<u8>, s: Seq<u8>, t: Seq<u8>, side: Side)
    requires
        s != t,
        s.len() == t.len(),
    ensures
        joined(current, s, side) != joined(current, t, side),
{
    if joined(current, s, side) == joined(current, t, side) {
        match side {
            Side::Right => {
                assert((current + s).subrange(current.len() as int, (current + s).len() as int)
                    =~= s);
                assert((current + t).subrange(current.len() as int, (current + t).len() as int)
                    =~= t);
            },
            Side::Left => {
                assert((s + current).subrange(0, s.len() as int) =~= s);
                assert((t + current).subrange(0, t.len() as int) =~= t);
            },
        }
    }
}

/// Two folds over the same steps from step `k` on, which differ after `k`
/// steps, still differ at the end, as long as the hash does not collide on
/// what they feed it.
pub proof fn lemma_divergence_persists(
    p: Seq<StepModel>,
    a: Seq<u8>,
    q: Seq<StepModel>,
    b: Seq<u8>,
    k: int,
)
    requires
        0 <= k <= p.len(),
        p.len() == q.len(),
        forall|i: int| k <= i < p.len() ==> p[i] == q[i],
        fold_path(a, p.take(k)) != fold_path(b, q.take(k)),
        no_collision_between(p, a, q, b),
    ensures
        fold_path(a, p) != fold_path(b, q),
    decreases p.len() - k,
{
    if k < p.len() {
        lemma_joined_current_cancels(
            fold_path(a, p.take(k)),
            fold_path(b, q.take(k)),
            p[k].0,
            p[k].1,
        );
        assert(hash_separates(
            joined(fold_path(a, p.take(k)), p[k].0, p[k].1),
            joined(fold_path(b, q.take(k)), q[k].0, q[k].1),
        ));
        lemma_fold_step(a, p, k);
        lemma_fold_step(b, q, k);
        lemma_divergence_persists(p, a, q, b, k + 1);
    } else {
        assert(p.take(k) =~= p);
        assert(q.take(k) =~= q);
    }
}

/// With no steps, a proof holds exactly when the target is the root.
pub proof fn lemma_empty_path(root: Seq<u8>, target: Seq<u8>)
    ensures
        proof_holds(root, Seq::empty(), target) <==> target == root,
{
}

/// One step hashes the target and the sibling in the order of the sibling's
/// side: with the sibling on the right the root is `H(target || sibling)`,
/// on the left it is `H(sibling || target)`.
pub proof fn lemma_single_step(target: Seq<u8>, sibling: Seq<u8>)
    ensures
        proof_holds(sha256_of(target + sibling), seq![(sibling, Side::Right)], target),
        proof_holds(sha256_of(sibling + target), seq![(sibling, Side::Left)], target),
{
    let right = seq![(sibling, Side::Right)];
    let left = seq![(sibling, Side::Left)];
    assert(right.drop_last() =~= Seq::<StepModel>::empty());
    assert(left.drop_last() =~= Seq::<StepModel>::empty());
    assert(fold_path(target, Seq::<StepModel>::empty()) == target);
    assert(right.last() == (sibling, Side::Right));
    assert(left.last() == (sibling, Side::Left));
}

/// The order of concatenation matters: when the two orders of target and
/// sibling differ, and the hash does not collide on them, a one-step proof
/// that holds stops holding once the sibling's side is swapped.
pub proof fn lemma_order_matters(root: Seq<u8>, target: Seq<u8>, sibling: Seq<u8>)
    requires
        target + sibling != sibling + target,
        sha256_of(target + sibling) != sha256_of(sibling + target),
    ensures
        proof_holds(root, seq![(sibling, Side::Right)], target) ==> !proof_holds(
            root,
            seq![(sibling, Side::Left)],
            target,
        ),
        proof_holds(root, seq![(sibling, Side::Left)], target) ==> !proof_holds(
            root,
            seq![(sibling, Side::Right)],
            target,
        ),
{
    lemma_single_step(target, sibling);
    assert(seq![(sibling, Side::Right)].drop_last() =~= Seq::<StepModel>::empty());
    assert(seq![(sibling, Side::Left)].drop_last() =~= Seq::<StepModel>::empty());
}

/// A proof that holds stops holding when the root is changed in any way, a
/// single flipped bit among them.
pub proof fn lemma_tampered_root(root: Seq<u8>, other: Seq<u8>, path: Seq<StepModel>, target: Seq<u8>)
    requires
        proof_holds(root, path, target),
        other != root,
    ensures
        !proof_holds(other, path, target),
{
}

/// A proof that holds stops holding when the target is changed in any way,
/// as long as the hash does not collide on what the two folds feed it.
pub proof fn lemma_tampered_target(
    root: Seq<u8>,
    path: Seq<StepModel>,
    target: Seq<u8>,
    other: Seq<u8>,
)
    requires
        proof_holds(root, path, target),
        other != target,
        no_collision_between(path, target, path, other),
    ensures
        !proof_holds(root, path, other),
{
    assert(path.take(0) =~= Seq::<StepModel>::empty());
    lemma_divergence_persists(path, target, path, other, 0);
}

/// A proof that holds stops holding when one sibling is changed into another
/// of the same length, a single flipped bit among them, as long as the hash
/// does not collide on what the two folds feed it.
pub proof fn lemma_tampered_sibling(
    root: Seq<u8>,
    path: Seq<StepModel>,
    target: Seq<u8>,
    k: int,
    sibling: Seq<u8>,
)
    requires
        proof_holds(root, path, target),
        0 <= k < path.len(),
        sibling != path[k].0,
        sibling.len() == path[k].0.len(),
        no_collision_between(path, target, path.update(k, (sibling, path[k].1)), target),
    ensures
        !proof_holds(root, path.update(k, (sibling, path[k].1)), target),
{
    let q = path.update(k, (sibling, path[k].1));
    assert(path.take(k) =~= q.take(k));
    lemma_joined_sibling_cancels(fold_path(target, path.take(k)), path[k].0, sibling, path[k].1);
    assert(hash_separates(
        joined(fold_path(target, path.take(k)), path[k].0, path[k].1),
        joined(fold_path(target, q.take(k)), q[k].0, q[k].1),
    ));
    lemma_fold_step(target, path, k);
    lemma_fold_step(target, q, k);
    lemma_divergence_persists(path, target, q, target, k + 1);
}

/// A sibling whose text decodes to a number of bytes other than the digest
/// length makes the path fail to decode: it is never padded or cut. When the
/// siblings before it decode, the error is the wrong length.
pub proof fn lemma_wrong_length_rejected(items: Seq<ItemModel>, i: int)
    requires
        0 <= i < items.len(),
        is_hex_text(items[i].0),
        hex_bytes(items[i].0).len() != DIGEST_LEN,
    ensures
        path_from_items(items) is Err,
        path_from_items(items.take(i)) is Ok ==> path_from_items(items) == Err::<
            Seq<StepModel>,
            FormatError,
        >(FormatError::WrongLength),
        digest_from_text(items[i].0) == Err::<Seq<u8>, FormatError>(FormatError::WrongLength),
{
    assert(items.take(i + 1).drop_last() =~= items.take(i));
    assert(items.take(i + 1).last() == items[i]);
    lemma_error_persists(items, i + 1);
}

} // verus!
