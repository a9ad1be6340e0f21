//! Relative paths, held as sequences of segments.
use vstd::prelude::*;

verus! {

/// A path relative to some root, one `String` per segment.
///
/// The empty path denotes the root itself.
pub struct RelPath {
    pub segments: Vec<String>,
}

/// The segments of a list of strings, as character sequences.
pub open spec fn strings_view(v: Seq<String>) -> Seq<Seq<char>> {
    v.map_values(|s: String| s@)
}

/// `path` with `prefix` removed from its start when `prefix` is a
/// segment-wise prefix of it; `path` unchanged otherwise.
pub open spec fn strip_or_keep(path: Seq<Seq<char>>, prefix: Seq<Seq<char>>) -> Seq<Seq<char>> {
    if prefix.is_prefix_of(path) {
        path.skip(prefix.len() as int)
    } else {
        path
    }
}

/// The segments of `path` joined by `/`.
pub open spec fn joined(path: Seq<Seq<char>>) -> Seq<char>
    decreases path.len(),
{
    if path.len() == 0 {
        Seq::empty()
    } else if path.len() == 1 {
        path[0]
    } else {
        joined(path.drop_last()) + seq!['/'] + path.last()
    }
}

impl View for RelPath {
    type V = Seq<Seq<char>>;

    open spec fn view(&self) -> Seq<Seq<char>> {
        strings_view(self.segments@)
    }
}

impl RelPath {
    /// The empty path.
    pub fn root() -> (r: RelPath)
        ensures
            r@ == Seq::<Seq<char>>::empty(),
    {
        let r = RelPath { segments: Vec::new() };
        assert(r@ =~= Seq::<Seq<char>>::empty());
        r
    }

    /// A path built from its segments.
    pub fn from_segments(segments: Vec<String>) -> (r: RelPath)
        ensures
            r@ == strings_view(segments@),
    {
        RelPath { segments }
    }

    /// The number of segments.
    pub fn len(&self) -> (r: usize)
        ensures
            r == self@.len(),
    {
        self.segments.len()
    }

    /// A copy of this path.
    pub fn copy(&self) -> (r: RelPath)
        ensures
            r@ == self@,
    {
        let mut segs: Vec<String> = Vec::new();
        let mut i: usize = 0;
        while i < self.segments.len()
            invariant
                i <= self.segments@.len(),
                segs@ == self.segments@.take(i as int),
            decreases self.segments@.len() - i,
        {
            segs.push(self.segments[i].clone());
            assert(segs@ =~= self.segments@.take(i + 1));
            i = i + 1;
        }
        assert(segs@ =~= self.segments@);
        RelPath { segments: segs }
    }

    /// Whether `prefix` is a segment-wise prefix of this path.
    pub fn starts_with(&self, prefix: &RelPath) -> (r: bool)
        ensures
            r == prefix@.is_prefix_of(self@),
    {
        if prefix.segments.len() > self.segments.len() {
            return false;
        }
        let mut i: usize = 0;
        while i < prefix.segments.len()
            invariant
                prefix@.len() <= self@.len(),
                i <= prefix@.len(),
                forall|j: int| 0 <= j < i ==> prefix@[j] == self@[j],
            decreases prefix@.len() - i,
        {
            if !(prefix.segments[i] == self.segments[i]) {
                assert(prefix@[i as int] != self@[i as int]);
                return false;
            }
            i = i + 1;
        }
        true
    }

    /// The segments from index `start` on.
    pub fn suffix(&self, start: usize) -> (r: RelPath)
        requires
            start <= self@.len(),
        ensures
            r@ == self@.skip(start as int),
    {
        let mut segs: Vec<String> = Vec::new();
        let mut i: usize = start;
        while i < self.segments.len()
            invariant
                start <= i <= self.segments@.len(),
                segs@ == self.segments@.subrange(start as int, i as int),
            decreases self.segments@.len() - i,
        {
            segs.push(self.segments[i].clone());
            assert(segs@ =~= self.segments@.subrange(start as int, i + 1));
            i = i + 1;
        }
        let r = RelPath { segments: segs };
        assert(r@ =~= self@.skip(start as int));
        r
    }

    /// This path with `prefix` removed from its start, or `None` where
    /// `prefix` is not a prefix of it.
    pub fn strip_prefix(&self, prefix: &RelPath) -> (r: Option<RelPath>)
        ensures
            r matches Some(p) ==> prefix@.is_prefix_of(self@) && p@ == self@.skip(
                prefix@.len() as int,
            ),
            r is None <==> !prefix@.is_prefix_of(self@),
    {
        if self.starts_with(prefix) {
            Some(self.suffix(prefix.segments.len()))
        } else {
            None
        }
    }

    /// This path with `prefix` removed from its start where it is a prefix,
    /// and this path unchanged where it is not.
    pub fn strip_prefix_or_keep(&self, prefix: &RelPath) -> (r: RelPath)
        ensures
            r@ == strip_or_keep(self@, prefix@),
    {
        match self.strip_prefix(prefix) {
            Some(p) => p,
            None => self.copy(),
        }
    }

    /// `other` appended to this path.
    pub fn join(&self, other: &RelPath) -> (r: RelPath)
        ensures
            r@ == self@ + other@,
    {
        let mut segs: Vec<String> = Vec::new();
        segs.append(&mut self.copy().segments);
        let mut i: usize = 0;
        while i < other.segments.len()
            invariant
                i <= other.segments@.len(),
                strings_view(segs@) == self@ + other@.take(i as int),
                segs@.len() == self@.len() + i,
            decreases other.segments@.len() - i,
        {
            let seg = other.segments[i].clone();
            proof {
                let prev = segs@;
                assert(strings_view(prev.push(seg)) =~= strings_view(prev).push(seg@));
            }
            segs.push(seg);
            assert(self@ + other@.take(i + 1) =~= (self@ + other@.take(i as int)).push(other@[i as int]));
            i = i + 1;
        }
        assert(other@.take(i as int) =~= other@);
        RelPath { segments: segs }
    }

    /// This path without its last segment; the empty path stays empty.
    pub fn parent(&self) -> (r: RelPath)
        ensures
            r@ == (if self@.len() == 0 {
                self@
            } else {
                self@.drop_last()
            }),
    {
        let mut r = self.copy();
        if r.segments.len() > 0 {
            r.segments.pop();
            assert(r@ =~= self@.drop_last());
        }
        r
    }

    /// The last segment, if any.
    pub fn file_name(&self) -> (r: Option<&String>)
        ensures
            r matches Some(s) ==> self@.len() > 0 && s@ == self@.last(),
            r is None <==> self@.len() == 0,
    {
        if self.segments.len() == 0 {
            None
        } else {
            Some(&self.segments[self.segments.len() - 1])
        }
    }

    /// The segments joined by `/`.
    pub fn to_path_string(&self) -> (r: String)
        ensures
            r@ == joined(self@),
    {
        let mut s = String::new();
        let mut i: usize = 0;
        while i < self.segments.len()
            invariant
                i <= self@.len(),
                s@ == joined(self@.take(i as int)),
            decreases self@.len() - i,
        {
            assert(self@.take(i + 1).drop_last() =~= self@.take(i as int));
            if i > 0 {
                s.append("/");
                proof {
                    reveal_strlit("/");
                }
            }
            s.append(self.segments[i].as_str());
            i = i + 1;
        }
        assert(self@.take(i as int) =~= self@);
        s
    }
}

} // verus!
