//! Provider resolution and the plan of a scaffold run.
use vstd::prelude::*;

use crate::catalog::{
    child_dir_named, dir_at, dir_names, entry_path, lemma_child_dir_wf, lemma_entry_dir_wf, wf_dir,
    Directory, Entry,
};
use crate::extract::{
    extract_dir, extract_ops, file_at, lemma_extract_fidelity, lemma_extract_last_write,
    lemma_file_at_under,
};
use crate::fs_ops::{
    apply_ops, file_of, last_write, lemma_apply_ops_closed_form, lemma_last_write_concat,
    ops_view, Op, OpModel, Tree,
};
use crate::rel_path::{strings_view, RelPath};

verus! {

/// How a provider's templates are laid out on disk.
pub enum ScaffoldMode {
    /// Only the provider's hidden directory (`.<name>`) is extracted, its
    /// contents straight into the working directory: the hidden
    /// directory's own path is removed from each path.
    HiddenDir,
    /// The whole provider directory is extracted, its own name kept, under
    /// `templates/`.
    WholeProvider,
}

/// What scaffolding one provider comes to.
pub enum ProviderPlan {
    /// The catalog has no directory of that name.
    NotFound,
    /// The provider directory holds no hidden directory; its name is given.
    HiddenDirMissing(String),
    /// The operations that scaffold the provider.
    Extract(Vec<Op>),
}

/// What a scaffold run comes to.
pub enum ScaffoldPlan {
    /// No provider was named and not all were asked for.
    NothingSelected,
    /// Each resolved provider name, in order, with its plan.
    Providers(Vec<(String, ProviderPlan)>),
}

/// The name of a provider's hidden directory: the name after a `.`.
pub open spec fn hidden_name(name: Seq<char>) -> Seq<char> {
    seq!['.'] + name
}

/// The destination of the whole-provider layout: `templates`.
pub open spec fn templates_dest() -> Seq<Seq<char>> {
    seq!["templates"@]
}

/// The operations that a provider plan holds.
pub open spec fn plan_ops(r: ProviderPlan) -> Seq<OpModel> {
    match r {
        ProviderPlan::Extract(ops) => ops_view(ops@),
        _ => Seq::empty(),
    }
}

/// Whether `r` is what scaffolding the provider `name` from the catalog
/// `root` in `mode` comes to.
pub open spec fn plans_provider(root: Directory, name: Seq<char>, mode: ScaffoldMode, r: ProviderPlan) -> bool {
    match dir_at(root, name) {
        None => r is NotFound,
        Some(p) => match mode {
            ScaffoldMode::HiddenDir => match child_dir_named(
                p,
                p.entries@.len() as int,
                hidden_name(name),
            ) {
                None => r matches ProviderPlan::HiddenDirMissing(h) && h@ == hidden_name(name),
                Some(h) => r matches ProviderPlan::Extract(ops) && ops_view(ops@) == extract_ops(
                    h,
                    Seq::empty(),
                    h.path@,
                ),
            },
            ScaffoldMode::WholeProvider => r matches ProviderPlan::Extract(ops) && ops_view(ops@)
                == extract_ops(p, templates_dest(), Seq::empty()),
        },
    }
}

/// The provider names that a request resolves to: all the catalog's
/// top-level directories where `all` is set, else the given names in
/// order, duplicates kept; `None` where neither names a provider.
pub open spec fn resolved_names(root: Directory, all: bool, providers: Seq<Seq<char>>) -> Option<
    Seq<Seq<char>>,
> {
    if all {
        Some(dir_names(root, root.entries@.len() as int))
    } else if providers.len() == 0 {
        None
    } else {
        Some(providers)
    }
}

/// Resolves a request to the provider names to scaffold.
pub fn resolve_providers(root: &Directory, all: bool, providers: Vec<String>) -> (r: Option<
    Vec<String>,
>)
    ensures
        (match r {
            Some(v) => Some(strings_view(v@)),
            None => None,
        }) == resolved_names(*root, all, strings_view(providers@)),
{
    if all {
        Some(root.top_level_names())
    } else if providers.len() == 0 {
        None
    } else {
        Some(providers)
    }
}

/// What scaffolding the provider `name` from the catalog `root` comes to.
pub fn plan_provider(root: &Directory, name: &String, mode: &ScaffoldMode) -> (r: ProviderPlan)
    ensures
        plans_provider(*root, name@, *mode, r),
{
    match root.get_dir(name.as_str()) {
        None => ProviderPlan::NotFound,
        Some(p) => match mode {
            ScaffoldMode::HiddenDir => {
                let mut hidden = String::from_str(".");
                proof {
                    reveal_strlit(".");
                }
                hidden.append(name.as_str());
                assert(hidden@ == hidden_name(name@));
                match p.find_child_dir(hidden.as_str()) {
                    None => ProviderPlan::HiddenDirMissing(hidden),
                    Some(h) => ProviderPlan::Extract(extract_dir(h, &RelPath::root(), &h.path)),
                }
            },
            ScaffoldMode::WholeProvider => {
                let mut segments: Vec<String> = Vec::new();
                segments.push(String::from_str("templates"));
                let dest = RelPath::from_segments(segments);
                assert(dest@ =~= templates_dest());
                ProviderPlan::Extract(extract_dir(p, &dest, &RelPath::root()))
            },
        },
    }
}

/// Whether `r` is what a scaffold run that asks for `all` or for the
/// named `providers` comes to.
pub open spec fn plans_scaffold(
    root: Directory,
    all: bool,
    providers: Seq<Seq<char>>,
    mode: ScaffoldMode,
    r: ScaffoldPlan,
) -> bool {
    match resolved_names(root, all, providers) {
        None => r is NothingSelected,
        Some(names) => r matches ScaffoldPlan::Providers(v) && v@.len() == names.len() && forall|
            i: int,
        |
            0 <= i < names.len() ==> #[trigger] v@[i].0@ == names[i] && plans_provider(
                root,
                names[i],
                mode,
                v@[i].1,
            ),
    }
}

/// Plans a scaffold run: resolves the request, then plans each provider in
/// order.
pub fn plan_scaffold(root: &Directory, all: bool, providers: Vec<String>, mode: ScaffoldMode) -> (r:
    ScaffoldPlan)
    ensures
        plans_scaffold(*root, all, strings_view(providers@), mode, r),
{
    match resolve_providers(root, all, providers) {
        None => ScaffoldPlan::NothingSelected,
        Some(names) => {
            let mut plans: Vec<(String, ProviderPlan)> = Vec::new();
            let mut i: usize = 0;
            while i < names.len()
                invariant
                    i <= names@.len(),
                    plans@.len() == i,
                    forall|j: int|
                        0 <= j < i ==> #[trigger] plans@[j].0@ == names@[j]@ && plans_provider(
                            *root,
                            names@[j]@,
                            mode,
                            plans@[j].1,
                        ),
                decreases names@.len() - i,
            {
                let plan = plan_provider(root, &names[i], &mode);
                plans.push((names[i].clone(), plan));
                i = i + 1;
            }
            ScaffoldPlan::Providers(plans)
        },
    }
}

/// A provider that the catalog lacks is planned with no operation at all:
/// whatever the tree, the plan leaves it as it is.
pub proof fn lemma_missing_provider_writes_nothing(
    root: Directory,
    name: Seq<char>,
    mode: ScaffoldMode,
    r: ProviderPlan,
    t: Tree,
)
    requires
        dir_at(root, name) is None,
        plans_provider(root, name, mode, r),
    ensures
        plan_ops(r) == Seq::<OpModel>::empty(),
        apply_ops(t, plan_ops(r)) == t,
{
}

/// In the whole-provider layout, two distinct top-level providers of a
/// well-formed catalog never write a file at the same path.
pub proof fn lemma_whole_providers_disjoint(root: Directory, i: int, j: int)
    requires
        wf_dir(root),
        0 <= i < root.entries@.len(),
        0 <= j < root.entries@.len(),
        root.entries@[i] is Dir,
        root.entries@[j] is Dir,
        entry_path(root.entries@[i]) != entry_path(root.entries@[j]),
    ensures
        forall|k: Seq<Seq<char>>|
            !(#[trigger] file_of(
                apply_ops(
                    Map::empty(),
                    extract_ops(root.entries@[i]->Dir_0, templates_dest(), Seq::empty()),
                ),
                k,
            ) is Some && file_of(
                apply_ops(
                    Map::empty(),
                    extract_ops(root.entries@[j]->Dir_0, templates_dest(), Seq::empty()),
                ),
                k,
            ) is Some),
{
    let a = root.entries@[i]->Dir_0;
    let b = root.entries@[j]->Dir_0;
    let dest = templates_dest();
    let none = Seq::<Seq<char>>::empty();
    lemma_entry_dir_wf(root, root.entries@.len() as int, i);
    lemma_entry_dir_wf(root, root.entries@.len() as int, j);
    assert(none.is_prefix_of(a.path@));
    assert(none.is_prefix_of(b.path@));
    let empty: Tree = Map::empty();
    lemma_extract_fidelity(a, dest, none, empty);
    lemma_extract_fidelity(b, dest, none, empty);
    assert forall|k: Seq<Seq<char>>|
        !(#[trigger] file_of(apply_ops(Map::empty(), extract_ops(a, dest, none)), k) is Some
            && file_of(apply_ops(Map::empty(), extract_ops(b, dest, none)), k) is Some) by {
        if file_of(apply_ops(Map::empty(), extract_ops(a, dest, none)), k) is Some && file_of(
            apply_ops(Map::empty(), extract_ops(b, dest, none)),
            k,
        ) is Some {
            if !dest.is_prefix_of(k) {
                assert(file_of(empty, k) is None);
            }
            let rest = k.skip(dest.len() as int);
            assert(k =~= dest + rest);
            assert(file_of(empty, dest + rest) is None);
            assert(none + rest =~= rest);
            lemma_file_at_under(a, a.entries@.len() as int, rest);
            lemma_file_at_under(b, b.entries@.len() as int, rest);
            assert(a.path@ =~= rest.subrange(0, a.path@.len() as int));
            assert(b.path@ =~= rest.subrange(0, b.path@.len() as int));
        }
    }
}

/// The operations of a run over every top-level provider among the first
/// `n` entries of `root`, in catalog order, in the whole-provider layout.
pub open spec fn all_providers_ops(root: Directory, n: int) -> Seq<OpModel>
    decreases n,
{
    if n <= 0 || n > root.entries@.len() {
        Seq::empty()
    } else {
        all_providers_ops(root, n - 1) + match root.entries@[n - 1] {
            Entry::Dir(c) => extract_ops(c, templates_dest(), Seq::empty()),
            Entry::File(_) => Seq::empty(),
        }
    }
}

/// Whether the top-level directories of `root` have pairwise distinct paths.
pub open spec fn distinct_providers(root: Directory) -> bool {
    forall|i: int, j: int|
        0 <= i < root.entries@.len() && 0 <= j < root.entries@.len() && i != j
            && root.entries@[i] is Dir && root.entries@[j] is Dir ==> entry_path(
            #[trigger] root.entries@[i],
        ) != entry_path(#[trigger] root.entries@[j])
}

/// Within a run over the first `n` top-level providers, the last write to
/// `templates/rest` is provider `i`'s file at `rest`.
proof fn lemma_all_providers_last_write(root: Directory, n: int, i: int, rest: Seq<Seq<char>>)
    requires
        wf_dir(root),
        distinct_providers(root),
        0 <= i < n <= root.entries@.len(),
        root.entries@[i] is Dir,
        file_at(root.entries@[i]->Dir_0, rest) is Some,
    ensures
        last_write(all_providers_ops(root, n), templates_dest() + rest) == file_at(
            root.entries@[i]->Dir_0,
            rest,
        ),
    decreases n,
{
    let dest = templates_dest();
    let none = Seq::<Seq<char>>::empty();
    let k = dest + rest;
    let pi = root.entries@[i]->Dir_0;
    assert(k.subrange(0, dest.len() as int) =~= dest);
    assert(k.skip(dest.len() as int) =~= rest);
    assert(none + rest =~= rest);
    let last = match root.entries@[n - 1] {
        Entry::Dir(c) => extract_ops(c, dest, none),
        Entry::File(_) => Seq::<OpModel>::empty(),
    };
    lemma_last_write_concat(all_providers_ops(root, n - 1), last, k);
    lemma_entry_dir_wf(root, root.entries@.len() as int, i);
    assert(none.is_prefix_of(pi.path@));
    if n - 1 == i {
        lemma_extract_last_write(pi, dest, none, k);
    } else {
        lemma_all_providers_last_write(root, n - 1, i, rest);
        match root.entries@[n - 1] {
            Entry::Dir(pj) => {
                lemma_entry_dir_wf(root, root.entries@.len() as int, n - 1);
                assert(none.is_prefix_of(pj.path@));
                lemma_extract_last_write(pj, dest, none, k);
                if file_at(pj, rest) is Some {
                    lemma_file_at_under(pj, pj.entries@.len() as int, rest);
                    lemma_file_at_under(pi, pi.entries@.len() as int, rest);
                    assert(pi.path@ =~= rest.subrange(0, pi.path@.len() as int));
                    assert(pj.path@ =~= rest.subrange(0, pj.path@.len() as int));
                    assert(entry_path(root.entries@[i]) != entry_path(root.entries@[n - 1]));
                }
            },
            Entry::File(_) => {
                assert(last_write(Seq::<OpModel>::empty(), k) is None);
            },
        }
    }
}

/// A run that extracts every top-level provider of a well-formed catalog
/// with distinct provider paths, one after the other, in the
/// whole-provider layout, leaves each provider's files in place: no
/// provider's file is overwritten by another's.
pub proof fn lemma_all_providers_no_collision(root: Directory, t: Tree)
    requires
        wf_dir(root),
        distinct_providers(root),
    ensures
        forall|i: int, rest: Seq<Seq<char>>|
            0 <= i < root.entries@.len() && root.entries@[i] is Dir && #[trigger] file_at(
                root.entries@[i]->Dir_0,
                rest,
            ) is Some ==> file_of(
                apply_ops(t, all_providers_ops(root, root.entries@.len() as int)),
                templates_dest() + rest,
            ) == file_at(root.entries@[i]->Dir_0, rest),
{
    let ops = all_providers_ops(root, root.entries@.len() as int);
    lemma_apply_ops_closed_form(t, ops);
    assert forall|i: int, rest: Seq<Seq<char>>|
        0 <= i < root.entries@.len() && root.entries@[i] is Dir && #[trigger] file_at(
            root.entries@[i]->Dir_0,
            rest,
        ) is Some implies file_of(apply_ops(t, ops), templates_dest() + rest) == file_at(
        root.entries@[i]->Dir_0,
        rest,
    ) by {
        lemma_all_providers_last_write(root, root.entries@.len() as int, i, rest);
    }
}

/// In the hidden-directory layout, the contents of the provider's
/// `.<name>` directory land straight in the working directory: the file at
/// `rest` is the catalog's file at the hidden directory's path followed by
/// `rest`, and every other path keeps the file it held before.
pub proof fn lemma_hidden_layout(p: Directory, name: Seq<char>, t: Tree)
    requires
        wf_dir(p),
        child_dir_named(p, p.entries@.len() as int, hidden_name(name)) is Some,
    ensures
        ({
            let h = child_dir_named(p, p.entries@.len() as int, hidden_name(name))->0;
            let after = apply_ops(t, extract_ops(h, Seq::empty(), h.path@));
            forall|rest: Seq<Seq<char>>| #[trigger]
                file_of(after, rest) == match file_at(h, h.path@ + rest) {
                    Some(b) => Some(b),
                    None => file_of(t, rest),
                }
        }),
{
    let h = child_dir_named(p, p.entries@.len() as int, hidden_name(name))->0;
    let none = Seq::<Seq<char>>::empty();
    lemma_child_dir_wf(p, p.entries@.len() as int, hidden_name(name));
    assert(h.path@.is_prefix_of(h.path@)) by {
        assert(h.path@.subrange(0, h.path@.len() as int) =~= h.path@);
    }
    lemma_extract_fidelity(h, none, h.path@, t);
    let after = apply_ops(t, extract_ops(h, none, h.path@));
    assert forall|rest: Seq<Seq<char>>| #[trigger]
        file_of(after, rest) == match file_at(h, h.path@ + rest) {
            Some(b) => Some(b),
            None => file_of(t, rest),
        } by {
        assert(none + rest =~= rest);
    }
}

/// In the whole-provider layout, the provider directory lands under
/// `templates/` with its own path kept: the file at `templates/rest` is the
/// catalog's file at `rest` where there is one, and every other path keeps
/// the file it held before.
pub proof fn lemma_whole_layout(p: Directory, t: Tree)
    requires
        wf_dir(p),
    ensures
        ({
            let after = apply_ops(t, extract_ops(p, templates_dest(), Seq::empty()));
            &&& forall|rest: Seq<Seq<char>>| #[trigger]
                file_of(after, templates_dest() + rest) == match file_at(p, rest) {
                    Some(b) => Some(b),
                    None => file_of(t, templates_dest() + rest),
                }
            &&& forall|k: Seq<Seq<char>>|
                !templates_dest().is_prefix_of(k) ==> #[trigger] file_of(after, k) == file_of(t, k)
        }),
{
    let none = Seq::<Seq<char>>::empty();
    assert(none.is_prefix_of(p.path@));
    lemma_extract_fidelity(p, templates_dest(), none, t);
    assert forall|rest: Seq<Seq<char>>| #[trigger]
        file_of(apply_ops(t, extract_ops(p, templates_dest(), none)), templates_dest() + rest)
            == match file_at(p, rest) {
            Some(b) => Some(b),
            None => file_of(t, templates_dest() + rest),
        } by {
        assert(none + rest =~= rest);
    }
}

} // verus!
