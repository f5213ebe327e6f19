//! Paths as sequences of component names.
//!
//! A path is compared component by component, never as text: `ab` is no
//! descendant of `a`, and two spellings with the same components, such as
//! `a/b` and `a//b`, are one path. Nothing here looks through a component:
//! `a/b/..` has three components and is not `a`, and a link is a name like
//! any other. Where the place that a path names matters, the caller asks
//! the file system and hands the answer over as a path of its own.

use vstd::prelude::*;

verus! {

/// A path, one name for each component, the outermost first.
#[derive(Debug, Clone, PartialEq, Eq)]
pub struct DirPath {
    pub components: Vec<String>,
}

impl View for DirPath {
    type V = Seq<Seq<char>>;

    open spec fn view(&self) -> Seq<Seq<char>> {
        Seq::new(self.components@.len(), |i: int| self.components@[i]@)
    }
}

/// `path` is `base` or lies beneath it.
pub open spec fn within(path: Seq<Seq<char>>, base: Seq<Seq<char>>) -> bool {
    base.is_prefix_of(path)
}

/// The path one level up, where there is one.
pub open spec fn parent_of(path: Seq<Seq<char>>) -> Option<Seq<Seq<char>>> {
    if path.len() == 0 {
        None
    } else {
        Some(path.drop_last())
    }
}

impl DirPath {
    /// The path made of `components`.
    pub fn new(components: Vec<String>) -> (path: DirPath)
        ensures
            path.components == components,
    {
        DirPath { components }
    }

    /// Number of components.
    pub fn len(&self) -> (n: usize)
        ensures
            n == self@.len(),
    {
        self.components.len()
    }

    /// A copy of the first `n` components.
    fn prefix(&self, n: usize) -> (path: DirPath)
        requires
            n <= self@.len(),
        ensures
            path@ == self@.take(n as int),
    {
        let mut components: Vec<String> = Vec::new();
        let mut i: usize = 0;
        while i < n
            invariant
                i <= n,
                n <= self.components@.len(),
                components@.len() == i,
                forall|k: int| 0 <= k < i ==> components@[k]@ == self.components@[k]@,
            decreases n - i,
        {
            components.push(self.components[i].clone());
            i = i + 1;
        }
        let path = DirPath { components };
        assert(path@ =~= self@.take(n as int));
        path
    }

    /// A copy of the path.
    pub fn duplicate(&self) -> (path: DirPath)
        ensures
            path@ == self@,
    {
        let path = self.prefix(self.components.len());
        assert(self@.take(self@.len() as int) =~= self@);
        path
    }

    /// Whether both paths have the same components.
    pub fn equals(&self, other: &DirPath) -> (same: bool)
        ensures
            same == (self@ == other@),
    {
        if self.components.len() != other.components.len() {
            return false;
        }
        let same = self.starts_with(other);
        assert(same ==> self@ =~= other@);
        same
    }

    /// Whether the path is `base` or lies beneath it.
    pub fn starts_with(&self, base: &DirPath) -> (inside: bool)
        ensures
            inside == within(self@, base@),
    {
        let n: usize = base.components.len();
        if n > self.components.len() {
            return false;
        }
        let mut i: usize = 0;
        while i < n
            invariant
                i <= n,
                n == base.components@.len(),
                n <= self.components@.len(),
                forall|k: int| 0 <= k < i ==> self@[k] == base@[k],
            decreases n - i,
        {
            if self.components[i] != base.components[i] {
                assert(self@[i as int] != base@[i as int]);
                return false;
            }
            i = i + 1;
        }
        assert(base@ =~= self@.subrange(0, base@.len() as int));
        true
    }

    /// The path one level up; `None` for the path without components.
    pub fn parent(&self) -> (up: Option<DirPath>)
        ensures
            up.is_some() == (self@.len() > 0),
            up matches Some(p) ==> parent_of(self@) == Some(p@),
    {
        let n: usize = self.components.len();
        if n == 0 {
            None
        } else {
            let p = self.prefix(n - 1);
            assert(self@.take(n - 1) =~= self@.drop_last());
            Some(p)
        }
    }

    /// The path of the child called `name`.
    pub fn join(&self, name: &str) -> (child: DirPath)
        ensures
            child@ == self@.push(name@),
    {
        let mut child = self.duplicate();
        child.components.push(String::from_str(name));
        assert(child@ =~= self@.push(name@));
        child
    }
}

/// Going down one level and up again leads back.
pub proof fn lemma_parent_of_child(path: Seq<Seq<char>>, name: Seq<char>)
    ensures
        parent_of(path.push(name)) == Some(path),
        within(path.push(name), path),
{
    assert(path.push(name).drop_last() =~= path);
    assert(path =~= path.push(name).subrange(0, path.len() as int));
}

/// What lies within a directory lies within every directory above it.
pub proof fn lemma_within_transitive(a: Seq<Seq<char>>, b: Seq<Seq<char>>, c: Seq<Seq<char>>)
    requires
        within(a, b),
        within(b, c),
    ensures
        within(a, c),
{
    assert(c =~= a.subrange(0, c.len() as int));
}

} // verus!
