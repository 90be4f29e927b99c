//! Paths: a sequence of non-empty segments that leads from the root of a
//! tree to a node.

use vstd::prelude::*;

verus! {

/// Whether no segment of the path is empty.
pub open spec fn segments_non_empty(segments: Seq<Seq<char>>) -> bool {
    forall|i: int| 0 <= i < segments.len() ==> (#[trigger] segments[i]).len() > 0
}

/// The segments of a list of strings as mathematical values.
pub open spec fn segment_views(segments: Seq<String>) -> Seq<Seq<char>> {
    Seq::new(segments.len(), |i: int| segments[i]@)
}

/// A path from the root: zero or more segments, none of them empty. The path
/// without segments names the root itself.
#[derive(Debug)]
pub struct RootPath {
    segments: Vec<String>,
}

impl View for RootPath {
    type V = Seq<Seq<char>>;

    closed spec fn view(&self) -> Seq<Seq<char>> {
        segment_views(self.segments@)
    }
}

impl RootPath {
    #[verifier::type_invariant]
    spec fn inv(&self) -> bool {
        segments_non_empty(segment_views(self.segments@))
    }

    /// The path of the root: no segments.
    pub fn root() -> (r: RootPath)
        ensures
            r@ == Seq::<Seq<char>>::empty(),
    {
        let r = RootPath { segments: Vec::new() };
        assert(r@ =~= Seq::<Seq<char>>::empty());
        r
    }

    /// The path with the given segments, unless one of them is empty.
    pub fn new(segments: Vec<String>) -> (r: Option<RootPath>)
        ensures
            r is Some <==> segments_non_empty(segment_views(segments@)),
            r matches Some(path) ==> path@ == segment_views(segments@),
    {
        let mut i: usize = 0;
        while i < segments.len()
            invariant
                i <= segments.len(),
                forall|j: int| 0 <= j < i ==> (#[trigger] segment_views(segments@)[j]).len() > 0,
            decreases segments.len() - i,
        {
            if segments[i].as_str().is_empty() {
                assert(segment_views(segments@)[i as int].len() == 0);
                return None;
            }
            i = i + 1;
        }
        Some(RootPath { segments })
    }

    /// Whether the path names the root, that is, has no segments.
    pub fn is_root(&self) -> (r: bool)
        ensures
            r == (self@.len() == 0),
    {
        self.segments.len() == 0
    }

    /// The number of segments.
    pub fn len(&self) -> (r: usize)
        ensures
            r == self@.len(),
    {
        self.segments.len()
    }

    /// The segment at position `i`, counted from the root.
    pub fn segment(&self, i: usize) -> (r: &str)
        requires
            i < self@.len(),
        ensures
            r@ == self@[i as int],
            r@.len() > 0,
    {
        proof {
            use_type_invariant(self);
            assert(segment_views(self.segments@)[i as int].len() > 0);
        }
        self.segments[i].as_str()
    }

    /// All segments, from the root downwards.
    pub fn segments(&self) -> (r: &Vec<String>)
        ensures
            segment_views(r@) == self@,
            segments_non_empty(self@),
    {
        proof {
            use_type_invariant(self);
        }
        &self.segments
    }

    /// Splits the path into the segments that lead to the parent and the last
    /// segment. The path of the root has neither.
    pub fn parent_child_segments(&self) -> (r: (Vec<&str>, Option<&str>))
        ensures
            self@.len() == 0 ==> r.0@.len() == 0 && r.1 is None,
            self@.len() > 0 ==> {
                &&& r.0@.len() == self@.len() - 1
                &&& forall|i: int| 0 <= i < r.0@.len() ==> (#[trigger] r.0@[i])@ == self@[i]
                &&& r.1 matches Some(last) && last@ == self@.last()
            },
    {
        let mut parents: Vec<&str> = Vec::new();
        let n = self.segments.len();
        if n == 0 {
            return (parents, None);
        }
        let mut i: usize = 0;
        while i < n - 1
            invariant
                n == self.segments.len(),
                n > 0,
                i <= n - 1,
                parents@.len() == i,
                forall|j: int| 0 <= j < i ==> (#[trigger] parents@[j])@ == self@[j],
            decreases n - 1 - i,
        {
            parents.push(self.segments[i].as_str());
            i = i + 1;
        }
        (parents, Some(self.segments[n - 1].as_str()))
    }
}

impl Clone for RootPath {
    fn clone(&self) -> (r: Self)
        ensures
            r@ == self@,
    {
        proof {
            use_type_invariant(self);
        }
        let mut segments: Vec<String> = Vec::new();
        let mut i: usize = 0;
        while i < self.segments.len()
            invariant
                i <= self.segments.len(),
                segments@.len() == i,
                forall|j: int| 0 <= j < i ==> (#[trigger] segments@[j])@ == self.segments@[j]@,
            decreases self.segments.len() - i,
        {
            segments.push(self.segments[i].clone());
            i = i + 1;
        }
        assert(segment_views(segments@) =~= segment_views(self.segments@));
        RootPath { segments }
    }
}

} // verus!
