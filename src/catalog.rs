//! The template catalog: an immutable tree of directories and files.
use vstd::prelude::*;

use crate::rel_path::{joined, strings_view, RelPath};

verus! {

/// A node of the catalog.
pub enum Entry {
    Dir(Directory),
    File(FileEntry),
}

/// A directory, with its path from the catalog root and its children in
/// catalog order.
pub struct Directory {
    pub path: RelPath,
    pub entries: Vec<Entry>,
}

/// A file, with its path from the catalog root and its bytes.
pub struct FileEntry {
    pub path: RelPath,
    pub contents: Vec<u8>,
}

/// The path of an entry.
pub open spec fn entry_path(e: Entry) -> Seq<Seq<char>> {
    match e {
        Entry::Dir(d) => d.path@,
        Entry::File(f) => f.path@,
    }
}

/// Whether each of the first `n` entries of `d`, and each entry below them,
/// lies one segment below its directory.
pub open spec fn wf_entries(d: Directory, n: int) -> bool
    decreases d, n,
{
    if n <= 0 || n > d.entries@.len() {
        n == 0
    } else {
        &&& wf_entries(d, n - 1)
        &&& entry_path(d.entries@[n - 1]).len() == d.path@.len() + 1
        &&& d.path@.is_prefix_of(entry_path(d.entries@[n - 1]))
        &&& match d.entries@[n - 1] {
            Entry::Dir(c) => wf_entries(c, c.entries@.len() as int),
            Entry::File(_) => true,
        }
    }
}

/// Whether every entry of the tree below `d` lies one segment below its
/// directory.
pub open spec fn wf_dir(d: Directory) -> bool {
    wf_entries(d, d.entries@.len() as int)
}

/// The first entry whose path, joined by `/`, reads `name`, searching the
/// first `n` entries of `d` in catalog order, each directory before its
/// later siblings.
pub open spec fn find_in_entries(d: Directory, n: int, name: Seq<char>) -> Option<Entry>
    decreases d, n,
{
    if n <= 0 || n > d.entries@.len() {
        None
    } else {
        match find_in_entries(d, n - 1, name) {
            Some(e) => Some(e),
            None => {
                let e = d.entries@[n - 1];
                if joined(entry_path(e)) == name {
                    Some(e)
                } else {
                    match e {
                        Entry::Dir(c) => find_in_entries(c, c.entries@.len() as int, name),
                        Entry::File(_) => None,
                    }
                }
            },
        }
    }
}

/// The directory that a lookup of `name` below `d` finds: the first entry
/// with that path, where it is a directory.
pub open spec fn dir_at(d: Directory, name: Seq<char>) -> Option<Directory> {
    match find_in_entries(d, d.entries@.len() as int, name) {
        Some(Entry::Dir(c)) => Some(c),
        _ => None,
    }
}

/// Whether `e` is a directory whose last path segment is `name`.
pub open spec fn is_dir_named(e: Entry, name: Seq<char>) -> bool {
    match e {
        Entry::Dir(c) => c.path@.len() > 0 && c.path@.last() == name,
        Entry::File(_) => false,
    }
}

/// The first of the first `n` entries of `d` that is a directory named
/// `name`.
pub open spec fn child_dir_named(d: Directory, n: int, name: Seq<char>) -> Option<Directory>
    decreases n,
{
    if n <= 0 || n > d.entries@.len() {
        None
    } else {
        match child_dir_named(d, n - 1, name) {
            Some(c) => Some(c),
            None => if is_dir_named(d.entries@[n - 1], name) {
                Some(d.entries@[n - 1]->Dir_0)
            } else {
                None
            },
        }
    }
}

/// The paths, joined by `/`, of the directories among the first `n`
/// entries of `d`, in catalog order.
pub open spec fn dir_names(d: Directory, n: int) -> Seq<Seq<char>>
    decreases n,
{
    if n <= 0 || n > d.entries@.len() {
        Seq::empty()
    } else {
        match d.entries@[n - 1] {
            Entry::Dir(c) => dir_names(d, n - 1).push(joined(c.path@)),
            Entry::File(_) => dir_names(d, n - 1),
        }
    }
}

impl Directory {
    /// The paths of this directory's immediate subdirectories, joined by
    /// `/`, in catalog order. On the catalog root these are the provider
    /// names.
    pub fn top_level_names(&self) -> (r: Vec<String>)
        ensures
            strings_view(r@) == dir_names(*self, self.entries@.len() as int),
    {
        let mut names: Vec<String> = Vec::new();
        let mut i: usize = 0;
        while i < self.entries.len()
            invariant
                i <= self.entries@.len(),
                strings_view(names@) == dir_names(*self, i as int),
            decreases self.entries@.len() - i,
        {
            match &self.entries[i] {
                Entry::Dir(c) => {
                    let s = c.path.to_path_string();
                    proof {
                        assert(strings_view(names@.push(s)) =~= strings_view(names@).push(s@));
                    }
                    names.push(s);
                },
                Entry::File(_) => {},
            }
            i = i + 1;
        }
        names
    }

    /// Whether each of the first `n` entries, and each entry below them,
    /// lies one segment below its directory.
    fn entries_well_formed(&self, n: usize) -> (r: bool)
        requires
            n <= self.entries@.len(),
        ensures
            r == wf_entries(*self, n as int),
        decreases self, n,
    {
        if n == 0 {
            return true;
        }
        if !self.entries_well_formed(n - 1) {
            return false;
        }
        match &self.entries[n - 1] {
            Entry::Dir(c) => {
                c.path.len() > self.path.len() && c.path.len() - 1 == self.path.len()
                    && c.path.starts_with(&self.path)
                    && c.entries_well_formed(c.entries.len())
            },
            Entry::File(f) => f.path.len() > self.path.len() && f.path.len() - 1 == self.path.len()
                && f.path.starts_with(
                &self.path,
            ),
        }
    }

    /// Whether every entry of the tree below this directory lies one
    /// segment below its directory.
    pub fn is_well_formed(&self) -> (r: bool)
        ensures
            r == wf_dir(*self),
    {
        self.entries_well_formed(self.entries.len())
    }

    /// Looks `name` up among the first `n` entries and everything below
    /// them, in catalog order.
    fn find_entry(&self, n: usize, name: &String) -> (r: Option<&Entry>)
        requires
            n <= self.entries@.len(),
        ensures
            (match r {
                Some(e) => Some(*e),
                None => None,
            }) == find_in_entries(*self, n as int, name@),
        decreases self, n,
    {
        if n == 0 {
            return None;
        }
        match self.find_entry(n - 1, name) {
            Some(e) => Some(e),
            None => {
                let e = &self.entries[n - 1];
                let p = match e {
                    Entry::Dir(c) => c.path.to_path_string(),
                    Entry::File(f) => f.path.to_path_string(),
                };
                if p == *name {
                    Some(e)
                } else {
                    match e {
                        Entry::Dir(c) => c.find_entry(c.entries.len(), name),
                        Entry::File(_) => None,
                    }
                }
            },
        }
    }

    /// The directory whose path, joined by `/`, is exactly `name`, found
    /// anywhere below this one; `None` where the first entry with that path
    /// is a file, or where there is none.
    pub fn get_dir(&self, name: &str) -> (r: Option<&Directory>)
        ensures
            (match r {
                Some(c) => Some(*c),
                None => None,
            }) == dir_at(*self, name@),
    {
        let name = name.to_owned();
        match self.find_entry(self.entries.len(), &name) {
            Some(Entry::Dir(c)) => Some(c),
            _ => None,
        }
    }

    /// The first immediate subdirectory whose last path segment is exactly
    /// `name`.
    pub fn find_child_dir(&self, name: &str) -> (r: Option<&Directory>)
        ensures
            (match r {
                Some(c) => Some(*c),
                None => None,
            }) == child_dir_named(*self, self.entries@.len() as int, name@),
    {
        let wanted = name.to_owned();
        let mut i: usize = 0;
        while i < self.entries.len()
            invariant
                i <= self.entries@.len(),
                wanted@ == name@,
                child_dir_named(*self, i as int, name@) is None,
            decreases self.entries@.len() - i,
        {
            match &self.entries[i] {
                Entry::Dir(c) => {
                    match c.path.file_name() {
                        Some(last) => {
                            if *last == wanted {
                                proof {
                                    assert(self.entries@[i as int] == Entry::Dir(*c));
                                    lemma_child_dir_named_found(*self, i as int + 1, self.entries@.len() as int, name@);
                                }
                                return Some(c);
                            }
                        },
                        None => {},
                    }
                },
                Entry::File(_) => {},
            }
            i = i + 1;
        }
        None
    }
}

/// Once a directory named `name` is found, later entries do not change
/// the answer.
proof fn lemma_child_dir_named_found(d: Directory, n: int, m: int, name: Seq<char>)
    requires
        0 < n <= m <= d.entries@.len(),
        child_dir_named(d, n - 1, name) is None,
        is_dir_named(d.entries@[n - 1], name),
    ensures
        child_dir_named(d, m, name) == Some(d.entries@[n - 1]->Dir_0),
    decreases m,
{
    if m > n {
        lemma_child_dir_named_found(d, n, m - 1, name);
    }
}

/// A directory that a child lookup finds among well-formed entries is
/// well formed, and lies one segment, the name looked up, below its parent.
pub proof fn lemma_child_dir_wf(d: Directory, n: int, name: Seq<char>)
    requires
        0 <= n <= d.entries@.len(),
        wf_entries(d, n),
        child_dir_named(d, n, name) is Some,
    ensures
        wf_dir(child_dir_named(d, n, name)->0),
        child_dir_named(d, n, name)->0.path@ == d.path@.push(name),
    decreases n,
{
    if child_dir_named(d, n - 1, name) is Some {
        lemma_child_dir_wf(d, n - 1, name);
    } else {
        let c = d.entries@[n - 1]->Dir_0;
        assert(c.path@ =~= d.path@.push(name)) by {
            assert(c.path@ =~= c.path@.subrange(0, d.path@.len() as int).push(c.path@.last()));
        }
    }
}

/// A directory among well-formed entries is well formed, and lies one
/// segment below its parent.
pub proof fn lemma_entry_dir_wf(d: Directory, n: int, i: int)
    requires
        0 <= i < n <= d.entries@.len(),
        wf_entries(d, n),
        d.entries@[i] is Dir,
    ensures
        wf_dir(d.entries@[i]->Dir_0),
        d.entries@[i]->Dir_0.path@.len() == d.path@.len() + 1,
        d.path@.is_prefix_of(d.entries@[i]->Dir_0.path@),
    decreases n,
{
    if i < n - 1 {
        lemma_entry_dir_wf(d, n - 1, i);
    }
}

} // verus!
