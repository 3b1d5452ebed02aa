//! Merkle inclusion proofs and their verification.

use vstd::prelude::*;

use crate::digest::{sha256, sha256_of, DIGEST_LEN};
use crate::hex_text::{decode_hex, hex_bytes, is_hex_text};

verus! {

/// Where a sibling stands relative to the hash being folded upward.
#[derive(Clone, Copy, Debug, PartialEq, Eq, Structural)]
pub enum Side {
    Left,
    Right,
}

/// One sibling of the authentication path, decoded into bytes.
#[derive(Clone, Debug)]
pub struct ProofStep {
    pub sibling_hash: Vec<u8>,
    pub side: Side,
}

/// One sibling of the authentication path as it arrives: hexadecimal text and
/// whether the sibling stands on the right.
#[derive(Clone, Debug)]
pub struct ProofItem {
    pub hash: String,
    pub right: bool,
}

/// Why a proof could not be read.
#[derive(Clone, Copy, Debug, PartialEq, Eq, Structural)]
pub enum FormatError {
    /// A field is not an even number of hexadecimal digits.
    InvalidHex,
    /// A field decodes to a number of bytes other than the digest length.
    WrongLength,
}

/// A step as a mathematical value: the sibling's bytes and its side.
pub type StepModel = (Seq<u8>, Side);

pub open spec fn step_model(s: ProofStep) -> StepModel {
    (s.sibling_hash@, s.side)
}

pub open spec fn path_model(path: Seq<ProofStep>) -> Seq<StepModel> {
    path.map_values(|s: ProofStep| step_model(s))
}

pub open spec fn side_of(right: bool) -> Side {
    if right {
        Side::Right
    } else {
        Side::Left
    }
}

/// What is hashed at one step: the current hash and the sibling, in the
/// order that the sibling's side gives.
pub open spec fn joined(current: Seq<u8>, sibling: Seq<u8>, side: Side) -> Seq<u8> {
    match side {
        Side::Right => current + sibling,
        Side::Left => sibling + current,
    }
}

/// The hash reached by folding `path` into `leaf`, first step first.
pub open spec fn fold_path(leaf: Seq<u8>, path: Seq<StepModel>) -> Seq<u8>
    decreases path.len(),
{
    if path.len() == 0 {
        leaf
    } else {
        let last = path.last();
        sha256_of(joined(fold_path(leaf, path.drop_last()), last.0, last.1))
    }
}

/// A proof holds when folding its path into the target gives the root exactly.
pub open spec fn proof_holds(root: Seq<u8>, path: Seq<StepModel>, target: Seq<u8>) -> bool {
    fold_path(target, path) == root
}

/// A sibling as a mathematical value: its text and whether it stands on the right.
pub type ItemModel = (Seq<char>, bool);

pub open spec fn item_model(i: ProofItem) -> ItemModel {
    (i.hash@, i.right)
}

pub open spec fn items_model(items: Seq<ProofItem>) -> Seq<ItemModel> {
    items.map_values(|i: ProofItem| item_model(i))
}

/// The digest that a hexadecimal field stands for, or why it stands for none.
pub open spec fn digest_from_text(s: Seq<char>) -> Result<Seq<u8>, FormatError> {
    if !is_hex_text(s) {
        Err(FormatError::InvalidHex)
    } else if hex_bytes(s).len() != DIGEST_LEN {
        Err(FormatError::WrongLength)
    } else {
        Ok(hex_bytes(s))
    }
}

/// The decoded path, or the error of its first item that does not decode.
pub open spec fn path_from_items(items: Seq<ItemModel>) -> Result<Seq<StepModel>, FormatError>
    decreases items.len(),
{
    if items.len() == 0 {
        Ok(Seq::empty())
    } else {
        match path_from_items(items.drop_last()) {
            Err(e) => Err(e),
            Ok(p) => match digest_from_text(items.last().0) {
                Err(e) => Err(e),
                Ok(b) => Ok(p.push((b, side_of(items.last().1)))),
            },
        }
    }
}

/// The outcome of checking a proof given as text: the target is decoded first,
/// then the path in order, then the root; the first field that does not decode
/// gives the error, and otherwise the result says whether the proof holds.
pub open spec fn proof_outcome(root: Seq<char>, items: Seq<ItemModel>, target: Seq<char>) -> Result<
    bool,
    FormatError,
> {
    match digest_from_text(target) {
        Err(e) => Err(e),
        Ok(t) => match path_from_items(items) {
            Err(e) => Err(e),
            Ok(p) => match digest_from_text(root) {
                Err(e) => Err(e),
                Ok(r) => Ok(proof_holds(r, p, t)),
            },
        },
    }
}

fn push_all(out: &mut Vec<u8>, bytes: &[u8])
    ensures
        final(out)@ == old(out)@ + bytes@,
{
    let mut i: usize = 0;
    while i < bytes.len()
        invariant
            i <= bytes@.len(),
            out@ == old(out)@ + bytes@.subrange(0, i as int),
        decreases bytes.len() - i,
    {
        out.push(bytes[i]);
        i += 1;
        assert(bytes@.subrange(0, i as int) =~= bytes@.subrange(0, i - 1).push(bytes@[i - 1]));
    }
    assert(bytes@.subrange(0, bytes@.len() as int) =~= bytes@);
}

/// The bytes that are hashed at one step: the current hash followed by the
/// sibling when the sibling is on the right, the sibling first otherwise.
pub fn join_for_step(current: &[u8], step: &ProofStep) -> (r: Vec<u8>)
    ensures
        r@ == joined(current@, step.sibling_hash@, step.side),
{
    let mut r: Vec<u8> = Vec::new();
    match step.side {
        Side::Right => {
            push_all(&mut r, current);
            push_all(&mut r, step.sibling_hash.as_slice());
        },
        Side::Left => {
            push_all(&mut r, step.sibling_hash.as_slice());
            push_all(&mut r, current);
        },
    }
    assert(Seq::<u8>::empty() + current@ + step.sibling_hash@ =~= current@ + step.sibling_hash@);
    assert(Seq::<u8>::empty() + step.sibling_hash@ + current@ =~= step.sibling_hash@ + current@);
    r
}

/// Folds the path into the target hash, first step first, and returns the
/// hash reached.
pub fn fold_steps(target: &[u8], path: &Vec<ProofStep>) -> (r: Vec<u8>)
    ensures
        r@ == fold_path(target@, path_model(path@)),
{
    let ghost model = path_model(path@);
    let mut current: Vec<u8> = Vec::new();
    push_all(&mut current, target);
    assert(Seq::<u8>::empty() + target@ =~= target@);
    assert(model.take(0) =~= Seq::<StepModel>::empty());
    let mut i: usize = 0;
    while i < path.len()
        invariant
            i <= path@.len(),
            model == path_model(path@),
            current@ == fold_path(target@, model.take(i as int)),
        decreases path.len() - i,
    {
        let step = &path[i];
        let bytes = join_for_step(current.as_slice(), step);
        current = sha256(bytes.as_slice());
        assert(model.take(i + 1).drop_last() =~= model.take(i as int));
        i += 1;
    }
    assert(model.take(path@.len() as int) =~= model);
    current
}

/// Whether the hash reached by a fold is the root, byte for byte.
pub fn matches_root(a: &[u8], b: &[u8]) -> (r: bool)
    ensures
        r == (a@ == b@),
{
    if a.len() != b.len() {
        return false;
    }
    let mut i: usize = 0;
    while i < a.len()
        invariant
            i <= a@.len(),
            a@.len() == b@.len(),
            forall|j: int| 0 <= j < i ==> a@[j] == b@[j],
        decreases a.len() - i,
    {
        if a[i] != b[i] {
            return false;
        }
        i += 1;
    }
    assert(a@ =~= b@);
    true
}

/// Whether folding the path into the target reproduces the root byte for byte.
pub fn verify_steps(root: &[u8], path: &Vec<ProofStep>, target: &[u8]) -> (r: bool)
    ensures
        r == proof_holds(root@, path_model(path@), target@),
{
    let reached = fold_steps(target, path);
    matches_root(reached.as_slice(), root)
}

impl ProofItem {
    pub fn new(hash: String, right: bool) -> (r: ProofItem)
        ensures
            r.hash@ == hash@,
            r.right == right,
    {
        ProofItem { hash, right }
    }
}

/// Decodes one hexadecimal field into a digest, rejecting text that is not
/// hexadecimal and text of the wrong length; nothing is padded or cut.
pub fn decode_digest(s: &str) -> (r: Result<Vec<u8>, FormatError>)
    ensures
        match r {
            Ok(v) => digest_from_text(s@) == Ok::<Seq<u8>, FormatError>(v@),
            Err(e) => digest_from_text(s@) == Err::<Seq<u8>, FormatError>(e),
        },
{
    match decode_hex(s) {
        Err(_) => Err(FormatError::InvalidHex),
        Ok(bytes) => {
            if bytes.len() != DIGEST_LEN {
                Err(FormatError::WrongLength)
            } else {
                Ok(bytes)
            }
        },
    }
}

/// Decodes every sibling of the path in order, stopping at the first one
/// that does not decode.
pub fn decode_path(items: &Vec<ProofItem>) -> (r: Result<Vec<ProofStep>, FormatError>)
    ensures
        match r {
            Ok(steps) => path_from_items(items_model(items@)) == Ok::<Seq<StepModel>, FormatError>(
                path_model(steps@),
            ),
            Err(e) => path_from_items(items_model(items@)) == Err::<Seq<StepModel>, FormatError>(e),
        },
{
    let ghost model = items_model(items@);
    let mut steps: Vec<ProofStep> = Vec::new();
    let mut i: usize = 0;
    assert(model.take(0) =~= Seq::<ItemModel>::empty());
    assert(path_model(steps@) =~= Seq::<StepModel>::empty());
    while i < items.len()
        invariant
            i <= items@.len(),
            model == items_model(items@),
            path_from_items(model.take(i as int)) == Ok::<Seq<StepModel>, FormatError>(
                path_model(steps@),
            ),
        decreases items.len() - i,
    {
        let item = &items[i];
        assert(model.take(i + 1).drop_last() =~= model.take(i as int));
        assert(model.take(i + 1).last() == item_model(*item));
        match decode_digest(item.hash.as_str()) {
            Err(e) => {
                proof {
                    lemma_error_persists(model, i as int + 1);
                }
                return Err(e);
            },
            Ok(bytes) => {
                let side = if item.right {
                    Side::Right
                } else {
                    Side::Left
                };
                let ghost before = steps@;
                steps.push(ProofStep { sibling_hash: bytes, side });
                assert(path_model(steps@) =~= path_model(before).push(step_model(steps@.last())));
            },
        }
        i += 1;
    }
    assert(model.take(items@.len() as int) =~= model);
    Ok(steps)
}

/// Once a prefix of the items fails to decode, every longer prefix fails with
/// the same error.
pub proof fn lemma_error_persists(items: Seq<ItemModel>, n: int)
    requires
        0 <= n <= items.len(),
        path_from_items(items.take(n)) is Err,
    ensures
        path_from_items(items) == path_from_items(items.take(n)),
    decreases items.len() - n,
{
    if n < items.len() {
        let m = n + 1;
        assert(items.take(m).drop_last() =~= items.take(n));
        lemma_error_persists(items, m);
    } else {
        assert(items.take(n) =~= items);
    }
}

/// Checks a Merkle inclusion proof given as hexadecimal text: decodes the
/// target, each sibling and the root, then folds the path into the target and
/// compares the hash reached with the root byte for byte. A field that does
/// not decode to a digest gives an error, never `false`.
pub fn verify_proof(root: &str, proof: Vec<ProofItem>, target_hash: &str) -> (r: Result<bool, FormatError>)
    ensures
        r == proof_outcome(root@, items_model(proof@), target_hash@),
{
    let target = match decode_digest(target_hash) {
        Err(e) => return Err(e),
        Ok(t) => t,
    };
    let path = match decode_path(&proof) {
        Err(e) => return Err(e),
        Ok(p) => p,
    };
    let root_bytes = match decode_digest(root) {
        Err(e) => return Err(e),
        Ok(b) => b,
    };
    Ok(verify_steps(root_bytes.as_slice(), &path, target.as_slice()))
}

} // verus!
