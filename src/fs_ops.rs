//! Filesystem operations and a model of their effect on a directory tree.
use vstd::prelude::*;

use crate::rel_path::RelPath;

verus! {

/// What a path of a directory tree holds.
pub enum Node {
    Dir,
    File(Seq<u8>),
}

/// A directory tree: what each present path holds.
pub type Tree = Map<Seq<Seq<char>>, Node>;

/// The mathematical form of an [`Op`].
pub enum OpModel {
    CreateDirAll(Seq<Seq<char>>),
    WriteFile(Seq<Seq<char>>, Seq<u8>),
}

/// One filesystem operation, on a path relative to the working directory.
pub enum Op {
    /// Create the directory and each missing ancestor; a directory that
    /// exists already is left as it is.
    CreateDirAll(RelPath),
    /// Write the bytes to the file, replacing whatever it held.
    WriteFile(RelPath, Vec<u8>),
}

impl View for Op {
    type V = OpModel;

    open spec fn view(&self) -> OpModel {
        match self {
            Op::CreateDirAll(p) => OpModel::CreateDirAll(p@),
            Op::WriteFile(p, b) => OpModel::WriteFile(p@, b@),
        }
    }
}

/// The models of a list of operations.
pub open spec fn ops_view(ops: Seq<Op>) -> Seq<OpModel> {
    ops.map_values(|o: Op| o@)
}

/// Whether creating `p` with all its ancestors creates `k`: `k` is a
/// non-empty prefix of `p`.
pub open spec fn creates(p: Seq<Seq<char>>, k: Seq<Seq<char>>) -> bool {
    0 < k.len() && k.is_prefix_of(p)
}

/// The tree after one operation that succeeds.
pub open spec fn apply_op(t: Tree, op: OpModel) -> Tree {
    match op {
        OpModel::CreateDirAll(p) => Map::new(
            |k: Seq<Seq<char>>| t.contains_key(k) || creates(p, k),
            |k: Seq<Seq<char>>|
                if t.contains_key(k) {
                    t[k]
                } else {
                    Node::Dir
                },
        ),
        OpModel::WriteFile(p, b) => t.insert(p, Node::File(b)),
    }
}

/// The tree after a list of operations, each of which succeeds, in order.
pub open spec fn apply_ops(t: Tree, ops: Seq<OpModel>) -> Tree
    decreases ops.len(),
{
    if ops.len() == 0 {
        t
    } else {
        apply_op(apply_ops(t, ops.drop_last()), ops.last())
    }
}

/// The bytes of the last write to `k` among `ops`, if any.
pub open spec fn last_write(ops: Seq<OpModel>, k: Seq<Seq<char>>) -> Option<Seq<u8>>
    decreases ops.len(),
{
    if ops.len() == 0 {
        None
    } else {
        match ops.last() {
            OpModel::WriteFile(p, b) => if p == k {
                Some(b)
            } else {
                last_write(ops.drop_last(), k)
            },
            OpModel::CreateDirAll(_) => last_write(ops.drop_last(), k),
        }
    }
}

/// Whether some directory creation among `ops` creates `k`.
pub open spec fn created(ops: Seq<OpModel>, k: Seq<Seq<char>>) -> bool
    decreases ops.len(),
{
    if ops.len() == 0 {
        false
    } else {
        match ops.last() {
            OpModel::CreateDirAll(p) => creates(p, k) || created(ops.drop_last(), k),
            OpModel::WriteFile(_, _) => created(ops.drop_last(), k),
        }
    }
}

/// The bytes of the file at `k` in `t`, if `k` holds a file.
pub open spec fn file_of(t: Tree, k: Seq<Seq<char>>) -> Option<Seq<u8>> {
    if t.contains_key(k) {
        match t[k] {
            Node::File(b) => Some(b),
            Node::Dir => None,
        }
    } else {
        None
    }
}

/// After `ops`, a path is present when it was before, or some operation
/// made it; it holds the last bytes written to it, or else what it held
/// before, or else a directory.
pub proof fn lemma_apply_ops_closed_form(t: Tree, ops: Seq<OpModel>)
    ensures
        forall|k: Seq<Seq<char>>| #[trigger]
            apply_ops(t, ops).contains_key(k) == (t.contains_key(k) || created(ops, k)
                || last_write(ops, k) is Some),
        forall|k: Seq<Seq<char>>| #[trigger]
            apply_ops(t, ops).contains_key(k) ==> apply_ops(t, ops)[k] == match last_write(
                ops,
                k,
            ) {
                Some(b) => Node::File(b),
                None => if t.contains_key(k) {
                    t[k]
                } else {
                    Node::Dir
                },
            },
    decreases ops.len(),
{
    if ops.len() > 0 {
        lemma_apply_ops_closed_form(t, ops.drop_last());
    }
}

/// The last write among two lists run one after the other is the second
/// list's, where it writes at all.
pub proof fn lemma_last_write_concat(a: Seq<OpModel>, b: Seq<OpModel>, k: Seq<Seq<char>>)
    ensures
        last_write(a + b, k) == match last_write(b, k) {
            Some(x) => Some(x),
            None => last_write(a, k),
        },
    decreases b.len(),
{
    if b.len() == 0 {
        assert(a + b =~= a);
    } else {
        assert((a + b).drop_last() =~= a + b.drop_last());
        lemma_last_write_concat(a, b.drop_last(), k);
    }
}

/// Performing a list of operations a second time leaves the tree as the
/// first time left it.
pub proof fn lemma_apply_ops_idempotent(t: Tree, ops: Seq<OpModel>)
    ensures
        apply_ops(apply_ops(t, ops), ops) == apply_ops(t, ops),
{
    let once = apply_ops(t, ops);
    lemma_apply_ops_closed_form(t, ops);
    lemma_apply_ops_closed_form(once, ops);
    assert(apply_ops(once, ops) =~= once);
}

/// A copy of a byte vector.
pub fn copy_bytes(b: &Vec<u8>) -> (r: Vec<u8>)
    ensures
        r@ == b@,
{
    let mut r: Vec<u8> = Vec::new();
    let mut i: usize = 0;
    while i < b.len()
        invariant
            i <= b@.len(),
            r@ == b@.take(i as int),
        decreases b@.len() - i,
    {
        r.push(b[i]);
        assert(r@ =~= b@.take(i + 1));
        i = i + 1;
    }
    assert(b@.take(i as int) =~= b@);
    r
}

/// Appends `op` to `ops`.
pub fn push_op(ops: &mut Vec<Op>, op: Op)
    ensures
        ops_view(final(ops)@) == ops_view(old(ops)@).push(op@),
{
    ops.push(op);
    assert(ops_view(ops@) =~= ops_view(old(ops)@).push(op@));
}

} // verus!
