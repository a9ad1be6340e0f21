//! Extraction of a catalog directory as a list of filesystem operations.
use vstd::prelude::*;

use crate::catalog::{wf_dir, wf_entries, entry_path, Directory, Entry, FileEntry};
use crate::fs_ops::{
    apply_ops, copy_bytes, file_of, last_write, lemma_apply_ops_closed_form, lemma_last_write_concat,
    lemma_apply_ops_idempotent, ops_view,
    push_op, Op, OpModel, Tree,
};
use crate::rel_path::{strip_or_keep, RelPath};

verus! {

/// Where a catalog path lands: `strip` removed from its start where it is a
/// prefix, the result appended to `dest`.
pub open spec fn target(p: Seq<Seq<char>>, dest: Seq<Seq<char>>, strip: Seq<Seq<char>>) -> Seq<
    Seq<char>,
> {
    dest + strip_or_keep(p, strip)
}

/// `p` without its last segment; the empty path stays empty.
pub open spec fn parent_path(p: Seq<Seq<char>>) -> Seq<Seq<char>> {
    if p.len() == 0 {
        p
    } else {
        p.drop_last()
    }
}

/// The operations that extract one file: its directory, then its bytes.
pub open spec fn file_ops(f: FileEntry, dest: Seq<Seq<char>>, strip: Seq<Seq<char>>) -> Seq<
    OpModel,
> {
    let t = target(f.path@, dest, strip);
    seq![OpModel::CreateDirAll(parent_path(t)), OpModel::WriteFile(t, f.contents@)]
}

/// The operations that extract the first `n` entries of `d`, in catalog
/// order, each directory with everything below it.
pub open spec fn entries_ops(
    d: Directory,
    n: int,
    dest: Seq<Seq<char>>,
    strip: Seq<Seq<char>>,
) -> Seq<OpModel>
    decreases d, n,
{
    if n <= 0 || n > d.entries@.len() {
        Seq::empty()
    } else {
        entries_ops(d, n - 1, dest, strip) + match d.entries@[n - 1] {
            Entry::Dir(c) => seq![OpModel::CreateDirAll(target(c.path@, dest, strip))]
                + entries_ops(c, c.entries@.len() as int, dest, strip),
            Entry::File(f) => file_ops(f, dest, strip),
        }
    }
}

/// The operations that extract `d`: its own directory, then its entries.
pub open spec fn extract_ops(d: Directory, dest: Seq<Seq<char>>, strip: Seq<Seq<char>>) -> Seq<
    OpModel,
> {
    seq![OpModel::CreateDirAll(target(d.path@, dest, strip))] + entries_ops(
        d,
        d.entries@.len() as int,
        dest,
        strip,
    )
}

/// The bytes of the file at path `p` among the first `n` entries of `d` and
/// everything below them; where two files share a path, the later one in
/// catalog order.
pub open spec fn file_at_in(d: Directory, n: int, p: Seq<Seq<char>>) -> Option<Seq<u8>>
    decreases d, n,
{
    if n <= 0 || n > d.entries@.len() {
        None
    } else {
        match d.entries@[n - 1] {
            Entry::Dir(c) => match file_at_in(c, c.entries@.len() as int, p) {
                Some(b) => Some(b),
                None => file_at_in(d, n - 1, p),
            },
            Entry::File(f) => if f.path@ == p {
                Some(f.contents@)
            } else {
                file_at_in(d, n - 1, p)
            },
        }
    }
}

/// The bytes of the file at path `p` below `d`, if there is one.
pub open spec fn file_at(d: Directory, p: Seq<Seq<char>>) -> Option<Seq<u8>> {
    file_at_in(d, d.entries@.len() as int, p)
}

/// The path where `p` lands, computed.
fn target_of(p: &RelPath, dest: &RelPath, strip: &RelPath) -> (r: RelPath)
    ensures
        r@ == target(p@, dest@, strip@),
{
    dest.join(&p.strip_prefix_or_keep(strip))
}

/// Appends to `ops` the operations that extract `d`.
fn push_extract_ops(d: &Directory, dest: &RelPath, strip: &RelPath, ops: &mut Vec<Op>)
    ensures
        ops_view(final(ops)@) == ops_view(old(ops)@) + extract_ops(*d, dest@, strip@),
    decreases d,
{
    let ghost start = ops_view(ops@);
    push_op(ops, Op::CreateDirAll(target_of(&d.path, dest, strip)));
    let mut i: usize = 0;
    while i < d.entries.len()
        invariant
            i <= d.entries@.len(),
            ops_view(ops@) == start + seq![OpModel::CreateDirAll(target(d.path@, dest@, strip@))]
                + entries_ops(*d, i as int, dest@, strip@),
        decreases d.entries@.len() - i,
    {
        let ghost before = ops_view(ops@);
        match &d.entries[i] {
            Entry::Dir(c) => {
                push_extract_ops(c, dest, strip, ops);
            },
            Entry::File(f) => {
                let t = target_of(&f.path, dest, strip);
                push_op(ops, Op::CreateDirAll(t.parent()));
                push_op(ops, Op::WriteFile(t, copy_bytes(&f.contents)));
            },
        }
        assert(ops_view(ops@) =~= start + seq![
            OpModel::CreateDirAll(target(d.path@, dest@, strip@)),
        ] + entries_ops(*d, i + 1, dest@, strip@));
        i = i + 1;
    }
}

/// The operations that recreate `d` under `dest`: every directory and file
/// below it, at its path with `strip` removed from the start where it is a
/// prefix (and unchanged where it is not), appended to `dest`.
pub fn extract_dir(d: &Directory, dest: &RelPath, strip: &RelPath) -> (ops: Vec<Op>)
    ensures
        ops_view(ops@) == extract_ops(*d, dest@, strip@),
{
    let mut ops: Vec<Op> = Vec::new();
    push_extract_ops(d, dest, strip, &mut ops);
    assert(ops_view(Seq::<Op>::empty()) =~= Seq::<OpModel>::empty());
    ops
}

/// A lone directory creation writes nothing.
proof fn lemma_last_write_create(p: Seq<Seq<char>>, k: Seq<Seq<char>>)
    ensures
        last_write(seq![OpModel::CreateDirAll(p)], k) is None,
{
    let create = seq![OpModel::CreateDirAll(p)];
    assert(create.drop_last() =~= Seq::<OpModel>::empty());
    assert(last_write(Seq::<OpModel>::empty(), k) is None);
}

/// Where every path in question starts with `strip`, a path lands at `k`
/// exactly when `k` lies under `dest` and `strip` followed by the rest of
/// `k` is that path.
proof fn lemma_target_inverse(
    q: Seq<Seq<char>>,
    k: Seq<Seq<char>>,
    dest: Seq<Seq<char>>,
    strip: Seq<Seq<char>>,
)
    requires
        strip.is_prefix_of(q),
    ensures
        (k == target(q, dest, strip)) == (dest.is_prefix_of(k) && strip + k.skip(dest.len() as int)
            == q),
{
    let rest = q.skip(strip.len() as int);
    assert(strip + rest =~= q);
    if k == target(q, dest, strip) {
        assert(k.skip(dest.len() as int) =~= rest);
        assert(dest.is_prefix_of(k)) by {
            assert(k.subrange(0, dest.len() as int) =~= dest);
        }
    }
    if dest.is_prefix_of(k) && strip + k.skip(dest.len() as int) == q {
        assert(k.skip(dest.len() as int) =~= rest) by {
            assert((strip + k.skip(dest.len() as int)).skip(strip.len() as int) =~= k.skip(
                dest.len() as int,
            ));
        }
        assert(k =~= dest + rest) by {
            assert(k =~= k.subrange(0, dest.len() as int) + k.skip(dest.len() as int));
        }
    }
}

/// The last write to each path by the operations of the first `n` entries
/// is the bytes of the source file that lands there.
proof fn lemma_entries_last_write(
    d: Directory,
    n: int,
    dest: Seq<Seq<char>>,
    strip: Seq<Seq<char>>,
)
    requires
        0 <= n <= d.entries@.len(),
        wf_entries(d, n),
        strip.is_prefix_of(d.path@),
    ensures
        forall|k: Seq<Seq<char>>| #[trigger]
            last_write(entries_ops(d, n, dest, strip), k) == if dest.is_prefix_of(k) {
                file_at_in(d, n, strip + k.skip(dest.len() as int))
            } else {
                None
            },
    decreases d, n,
{
    if n > 0 {
        lemma_entries_last_write(d, n - 1, dest, strip);
        let prev = entries_ops(d, n - 1, dest, strip);
        let e = d.entries@[n - 1];
        assert(strip.is_prefix_of(entry_path(e))) by {
            assert(entry_path(e).subrange(0, strip.len() as int) =~= d.path@.subrange(
                0,
                strip.len() as int,
            ));
        }
        match e {
            Entry::Dir(c) => {
                lemma_entries_last_write(c, c.entries@.len() as int, dest, strip);
                let create = seq![OpModel::CreateDirAll(target(c.path@, dest, strip))];
                let inner = entries_ops(c, c.entries@.len() as int, dest, strip);
                assert forall|k: Seq<Seq<char>>|
                    #[trigger] last_write(entries_ops(d, n, dest, strip), k) == if dest.is_prefix_of(
                        k,
                    ) {
                        file_at_in(d, n, strip + k.skip(dest.len() as int))
                    } else {
                        None
                    } by {
                    lemma_last_write_concat(prev, create + inner, k);
                    lemma_last_write_concat(create, inner, k);
                    lemma_last_write_create(target(c.path@, dest, strip), k);
                }
            },
            Entry::File(f) => {
                let fo = file_ops(f, dest, strip);
                assert forall|k: Seq<Seq<char>>|
                    #[trigger] last_write(entries_ops(d, n, dest, strip), k) == if dest.is_prefix_of(
                        k,
                    ) {
                        file_at_in(d, n, strip + k.skip(dest.len() as int))
                    } else {
                        None
                    } by {
                    lemma_last_write_concat(prev, fo, k);
                    lemma_target_inverse(f.path@, k, dest, strip);
                    let t = target(f.path@, dest, strip);
                    assert(fo.drop_last() =~= seq![OpModel::CreateDirAll(parent_path(t))]);
                    lemma_last_write_create(parent_path(t), k);
                }
            },
        }
    }
}

/// Extracting a well-formed directory `d`, with a `strip` that is a prefix
/// of `d`'s path, into any tree `t`: at each path `dest + rest` where `d`
/// holds a file at `strip + rest`, the tree then holds that file with its
/// bytes; every other path holds the file it held before, if any. Into an
/// empty tree, the files are exactly those of `d`, relocated.
pub proof fn lemma_extract_fidelity(
    d: Directory,
    dest: Seq<Seq<char>>,
    strip: Seq<Seq<char>>,
    t: Tree,
)
    requires
        wf_dir(d),
        strip.is_prefix_of(d.path@),
    ensures
        forall|rest: Seq<Seq<char>>| #[trigger]
            file_of(apply_ops(t, extract_ops(d, dest, strip)), dest + rest) == match file_at(
                d,
                strip + rest,
            ) {
                Some(b) => Some(b),
                None => file_of(t, dest + rest),
            },
        forall|k: Seq<Seq<char>>|
            !dest.is_prefix_of(k) ==> #[trigger] file_of(
                apply_ops(t, extract_ops(d, dest, strip)),
                k,
            ) == file_of(t, k),
{
    let ops = extract_ops(d, dest, strip);
    let create = seq![OpModel::CreateDirAll(target(d.path@, dest, strip))];
    let inner = entries_ops(d, d.entries@.len() as int, dest, strip);
    lemma_apply_ops_closed_form(t, ops);
    lemma_entries_last_write(d, d.entries@.len() as int, dest, strip);
    assert forall|k: Seq<Seq<char>>| #[trigger]
        file_of(apply_ops(t, ops), k) == match last_write(inner, k) {
            Some(b) => Some(b),
            None => file_of(t, k),
        } by {
        lemma_last_write_concat(create, inner, k);
        lemma_last_write_create(target(d.path@, dest, strip), k);
    }
    assert forall|rest: Seq<Seq<char>>| #[trigger]
        file_of(apply_ops(t, ops), dest + rest) == match file_at(d, strip + rest) {
            Some(b) => Some(b),
            None => file_of(t, dest + rest),
        } by {
        let k = dest + rest;
        assert(k.subrange(0, dest.len() as int) =~= dest);
        assert(k.skip(dest.len() as int) =~= rest);
        assert(file_of(apply_ops(t, ops), k) == match last_write(inner, k) {
            Some(b) => Some(b),
            None => file_of(t, k),
        });
    }
    assert forall|k: Seq<Seq<char>>|
        !dest.is_prefix_of(k) implies #[trigger] file_of(apply_ops(t, ops), k) == file_of(t, k) by {
        assert(file_of(apply_ops(t, ops), k) == match last_write(inner, k) {
            Some(b) => Some(b),
            None => file_of(t, k),
        });
    }
}

/// Extracting a well-formed directory `d` into any tree `t` leaves every
/// path that already held something, and where `d` lands no file, holding
/// what it held: an existing directory stays the directory it was.
pub proof fn lemma_extract_keeps_unwritten(
    d: Directory,
    dest: Seq<Seq<char>>,
    strip: Seq<Seq<char>>,
    t: Tree,
)
    requires
        wf_dir(d),
        strip.is_prefix_of(d.path@),
    ensures
        forall|k: Seq<Seq<char>>|
            t.contains_key(k) && !(dest.is_prefix_of(k) && file_at(
                d,
                strip + k.skip(dest.len() as int),
            ) is Some) ==> #[trigger] apply_ops(t, extract_ops(d, dest, strip)).contains_key(k)
                && apply_ops(t, extract_ops(d, dest, strip))[k] == t[k],
{
    let ops = extract_ops(d, dest, strip);
    let create = seq![OpModel::CreateDirAll(target(d.path@, dest, strip))];
    let inner = entries_ops(d, d.entries@.len() as int, dest, strip);
    lemma_apply_ops_closed_form(t, ops);
    lemma_entries_last_write(d, d.entries@.len() as int, dest, strip);
    assert forall|k: Seq<Seq<char>>|
        t.contains_key(k) && !(dest.is_prefix_of(k) && file_at(
            d,
            strip + k.skip(dest.len() as int),
        ) is Some) implies #[trigger] apply_ops(t, ops).contains_key(k) && apply_ops(t, ops)[k]
        == t[k] by {
        lemma_last_write_concat(create, inner, k);
        lemma_last_write_create(target(d.path@, dest, strip), k);
        assert(ops == create + inner);
        assert(last_write(inner, k) is None);
        assert(last_write(ops, k) is None);
    }
}

/// The last write of an extraction to each path is the bytes of the
/// source file that lands there.
pub proof fn lemma_extract_last_write(
    d: Directory,
    dest: Seq<Seq<char>>,
    strip: Seq<Seq<char>>,
    k: Seq<Seq<char>>,
)
    requires
        wf_dir(d),
        strip.is_prefix_of(d.path@),
    ensures
        last_write(extract_ops(d, dest, strip), k) == if dest.is_prefix_of(k) {
            file_at(d, strip + k.skip(dest.len() as int))
        } else {
            None
        },
{
    let create = seq![OpModel::CreateDirAll(target(d.path@, dest, strip))];
    let inner = entries_ops(d, d.entries@.len() as int, dest, strip);
    lemma_entries_last_write(d, d.entries@.len() as int, dest, strip);
    lemma_last_write_concat(create, inner, k);
    lemma_last_write_create(target(d.path@, dest, strip), k);
    assert(last_write(inner, k) == if dest.is_prefix_of(k) {
        file_at(d, strip + k.skip(dest.len() as int))
    } else {
        None
    });
}

/// Every file below a well-formed directory lies below its path.
pub proof fn lemma_file_at_under(d: Directory, n: int, p: Seq<Seq<char>>)
    requires
        0 <= n <= d.entries@.len(),
        wf_entries(d, n),
        file_at_in(d, n, p) is Some,
    ensures
        d.path@.is_prefix_of(p),
    decreases d, n,
{
    let e = d.entries@[n - 1];
    match e {
        Entry::Dir(c) => {
            if file_at_in(c, c.entries@.len() as int, p) is Some {
                lemma_file_at_under(c, c.entries@.len() as int, p);
                assert(p.subrange(0, d.path@.len() as int) =~= c.path@.subrange(
                    0,
                    d.path@.len() as int,
                ));
            } else {
                lemma_file_at_under(d, n - 1, p);
            }
        },
        Entry::File(f) => {
            if f.path@ != p {
                lemma_file_at_under(d, n - 1, p);
            }
        },
    }
}

/// Extracting the same directory a second time leaves the tree as the
/// first extraction left it.
pub proof fn lemma_extract_idempotent(
    d: Directory,
    dest: Seq<Seq<char>>,
    strip: Seq<Seq<char>>,
    t: Tree,
)
    ensures
        apply_ops(apply_ops(t, extract_ops(d, dest, strip)), extract_ops(d, dest, strip))
            == apply_ops(t, extract_ops(d, dest, strip)),
{
    lemma_apply_ops_idempotent(t, extract_ops(d, dest, strip));
}

} // verus!
