//! Paths as sequences of components.
//!
//! A path is held as its list of components, each a byte string, together
//! with a flag that tells whether it starts at the filesystem root. Two paths
//! are the same when their components are the same, and one path lies under
//! another when the other's components are a proper prefix of its own.

use vstd::prelude::*;
use vstd::string::StringSliceAdditionalSpecFns;

verus! {

/// What a [`TreePath`] stands for.
pub struct PathModel {
    /// Whether the path starts at the filesystem root.
    pub absolute: bool,
    /// The components, outermost first.
    pub parts: Seq<Seq<u8>>,
}

impl PathModel {
    /// The path without its last component; `None` for a path without components.
    pub open spec fn parent(self) -> Option<PathModel> {
        if self.parts.len() > 0 {
            Some(PathModel { absolute: self.absolute, parts: self.parts.drop_last() })
        } else {
            None
        }
    }

    /// The last component, unless there is none or it is `..`.
    pub open spec fn file_name(self) -> Option<Seq<u8>> {
        if self.parts.len() > 0 && self.parts.last() != parent_dir_name() {
            Some(self.parts.last())
        } else {
            None
        }
    }

    /// The path extended by one component.
    pub open spec fn join(self, name: Seq<u8>) -> PathModel {
        PathModel { absolute: self.absolute, parts: self.parts.push(name) }
    }

    /// The path extended by the components `rel`.
    pub open spec fn extend(self, rel: Seq<Seq<u8>>) -> PathModel {
        PathModel { absolute: self.absolute, parts: self.parts + rel }
    }

    /// Whether `self` is `other` or one of the directories above it.
    pub open spec fn contains(self, other: PathModel) -> bool {
        self.absolute == other.absolute && self.parts.is_prefix_of(other.parts)
    }

    /// Whether `self` is one of the directories above `other`, `other` itself excluded.
    pub open spec fn is_ancestor_of(self, other: PathModel) -> bool {
        self.contains(other) && self.parts.len() < other.parts.len()
    }
}

/// The bytes of a text made of ASCII characters.
pub open spec fn ascii(text: Seq<char>) -> Seq<u8> {
    Seq::new(text.len(), |i: int| text[i] as u8)
}

/// The component `..`.
pub open spec fn parent_dir_name() -> Seq<u8> {
    seq!['.' as u8, '.' as u8]
}

/// The views of the items of a list, in order.
pub open spec fn views<T: View>(items: Seq<T>) -> Seq<T::V> {
    Seq::new(items.len(), |i: int| items[i]@)
}

/// The component-wise view of a list of names.
pub open spec fn names_view(names: Seq<Vec<u8>>) -> Seq<Seq<u8>> {
    views(names)
}

/// Appending an item appends its view.
pub proof fn lemma_views_push<T: View>(items: Seq<T>, item: T)
    ensures
        views(items.push(item)) == views(items).push(item@),
{
    assert(views(items.push(item)) =~= views(items).push(item@));
}

/// Appending a name appends its view.
pub proof fn lemma_names_view_push(names: Seq<Vec<u8>>, name: Vec<u8>)
    ensures
        names_view(names.push(name)) == names_view(names).push(name@),
{
    assert(names_view(names.push(name)) =~= names_view(names).push(name@));
}

/// A path, held as its components.
#[derive(Debug, Clone, PartialEq, Eq, Hash)]
pub struct TreePath {
    /// Whether the path starts at the filesystem root.
    pub absolute: bool,
    /// The components, outermost first.
    pub parts: Vec<Vec<u8>>,
}

impl View for TreePath {
    type V = PathModel;

    open spec fn view(&self) -> PathModel {
        PathModel { absolute: self.absolute, parts: names_view(self.parts@) }
    }
}

/// Whether two byte strings are equal.
pub fn bytes_eq(a: &[u8], b: &[u8]) -> (same: bool)
    ensures
        same == (a@ == b@),
{
    if a.len() != b.len() {
        return false;
    }
    let mut i: usize = 0;
    while i < a.len()
        invariant
            a.len() == b.len(),
            i <= a.len(),
            a@.subrange(0, i as int) == b@.subrange(0, i as int),
        decreases a.len() - i,
    {
        if a[i] != b[i] {
            return false;
        }
        assert(a@.subrange(0, i + 1) == a@.subrange(0, i as int).push(a@[i as int]));
        assert(b@.subrange(0, i + 1) == b@.subrange(0, i as int).push(b@[i as int]));
        i += 1;
    }
    assert(a@ == a@.subrange(0, a.len() as int));
    assert(b@ == b@.subrange(0, b.len() as int));
    true
}

/// A copy of a byte string.
pub fn bytes_clone(a: &[u8]) -> (copy: Vec<u8>)
    ensures
        copy@ == a@,
{
    let mut out: Vec<u8> = Vec::new();
    let mut i: usize = 0;
    while i < a.len()
        invariant
            i <= a.len(),
            out@ == a@.subrange(0, i as int),
        decreases a.len() - i,
    {
        out.push(a[i]);
        assert(a@.subrange(0, i + 1) == a@.subrange(0, i as int).push(a@[i as int]));
        i += 1;
    }
    assert(a@ == a@.subrange(0, a.len() as int));
    out
}

/// Whether a byte string holds exactly the bytes of `word`.
pub fn bytes_eq_str(a: &[u8], word: &str) -> (same: bool)
    ensures
        same == (a@ == word.spec_bytes()),
{
    bytes_eq(a, word.as_bytes())
}

impl TreePath {
    /// The path with the given components.
    pub fn new(absolute: bool, parts: Vec<Vec<u8>>) -> (path: TreePath)
        ensures
            path@ == (PathModel { absolute, parts: names_view(parts@) }),
    {
        TreePath { absolute, parts }
    }

    /// A copy of the path.
    pub fn duplicate(&self) -> (copy: TreePath)
        ensures
            copy@ == self@,
    {
        let copy = self.prefix(self.parts.len());
        assert(self@.parts.subrange(0, self.parts.len() as int) == self@.parts);
        copy
    }

    /// The path made of the first `n` components.
    pub fn prefix(&self, n: usize) -> (head: TreePath)
        requires
            n <= self@.parts.len(),
        ensures
            head@ == (PathModel { absolute: self@.absolute, parts: self@.parts.subrange(0, n as int) }),
    {
        let mut parts: Vec<Vec<u8>> = Vec::new();
        let mut i: usize = 0;
        while i < n
            invariant
                i <= n <= self.parts.len(),
                names_view(parts@) == self@.parts.subrange(0, i as int),
            decreases n - i,
        {
            let name = bytes_clone(self.parts[i].as_slice());
            proof {
                lemma_names_view_push(parts@, name);
                assert(self@.parts.subrange(0, i + 1) == self@.parts.subrange(0, i as int).push(
                    self@.parts[i as int],
                ));
            }
            parts.push(name);
            i += 1;
        }
        TreePath { absolute: self.absolute, parts }
    }

    /// The directory that holds this path; `None` for a path without components.
    pub fn parent(&self) -> (up: Option<TreePath>)
        ensures
            match up {
                Some(dir) => self@.parent() == Some(dir@),
                None => self@.parent() is None,
            },
    {
        let n = self.parts.len();
        if n == 0 {
            None
        } else {
            Some(self.prefix(n - 1))
        }
    }

    /// The last component, unless there is none or it is `..`.
    pub fn file_name(&self) -> (name: Option<Vec<u8>>)
        ensures
            match name {
                Some(bytes) => self@.file_name() == Some(bytes@),
                None => self@.file_name() is None,
            },
    {
        let n = self.parts.len();
        if n == 0 {
            return None;
        }
        let last = &self.parts[n - 1];
        assert(self@.parts.last() == last@);
        if last.len() == 2 && last[0] == '.' as u8 && last[1] == '.' as u8 {
            assert(last@ == parent_dir_name());
            None
        } else {
            Some(bytes_clone(last.as_slice()))
        }
    }

    /// The path extended by one component.
    pub fn join(&self, name: &[u8]) -> (longer: TreePath)
        ensures
            longer@ == self@.join(name@),
    {
        let mut longer = self.duplicate();
        let last = bytes_clone(name);
        proof {
            lemma_names_view_push(longer.parts@, last);
        }
        longer.parts.push(last);
        longer
    }

    /// The path extended by the components `rel`.
    pub fn extend(&self, rel: &Vec<Vec<u8>>) -> (longer: TreePath)
        ensures
            longer@ == self@.extend(names_view(rel@)),
    {
        let mut longer = self.duplicate();
        let mut i: usize = 0;
        assert(self@.parts + names_view(rel@).subrange(0, 0) =~= self@.parts);
        while i < rel.len()
            invariant
                i <= rel.len(),
                longer.absolute == self.absolute,
                names_view(longer.parts@) == self@.parts + names_view(rel@).subrange(0, i as int),
            decreases rel.len() - i,
        {
            let name = bytes_clone(rel[i].as_slice());
            proof {
                lemma_names_view_push(longer.parts@, name);
                assert((self@.parts + names_view(rel@).subrange(0, i as int)).push(name@)
                    =~= self@.parts + names_view(rel@).subrange(0, i + 1));
            }
            longer.parts.push(name);
            i += 1;
        }
        assert(names_view(rel@).subrange(0, rel.len() as int) == names_view(rel@));
        longer
    }

    /// Whether `self` is `other` or one of the directories above it.
    pub fn contains(&self, other: &TreePath) -> (inside: bool)
        ensures
            inside == self@.contains(other@),
    {
        let same = self.same_as(other);
        proof {
            if self@ == other@ {
                assert(self@.parts.is_prefix_of(other@.parts));
            }
            if self@.contains(other@) && self@.parts.len() == other@.parts.len() {
                assert(self@.parts =~= other@.parts);
            }
        }
        same || self.is_ancestor_of(other)
    }

    /// Whether `self` is one of the directories above `other`.
    pub fn is_ancestor_of(&self, other: &TreePath) -> (above: bool)
        ensures
            above == self@.is_ancestor_of(other@),
    {
        let n = self.parts.len();
        if self.absolute != other.absolute || n >= other.parts.len() {
            return false;
        }
        let mut i: usize = 0;
        while i < n
            invariant
                n == self.parts.len(),
                n < other.parts.len(),
                i <= n,
                self@.parts.subrange(0, i as int) == other@.parts.subrange(0, i as int),
            decreases n - i,
        {
            if !bytes_eq(self.parts[i].as_slice(), other.parts[i].as_slice()) {
                assert(self@.parts[i as int] != other@.parts[i as int]);
                return false;
            }
            assert(self@.parts.subrange(0, i + 1) == self@.parts.subrange(0, i as int).push(
                self@.parts[i as int],
            ));
            assert(other@.parts.subrange(0, i + 1) == other@.parts.subrange(0, i as int).push(
                other@.parts[i as int],
            ));
            i += 1;
        }
        assert(self@.parts == self@.parts.subrange(0, n as int));
        true
    }

    /// Whether the two paths have the same components.
    pub fn same_as(&self, other: &TreePath) -> (same: bool)
        ensures
            same == (self@ == other@),
    {
        if self.absolute != other.absolute || self.parts.len() != other.parts.len() {
            assert(self@.parts.len() != other@.parts.len() || self@.absolute != other@.absolute);
            return false;
        }
        let mut i: usize = 0;
        while i < self.parts.len()
            invariant
                self.parts.len() == other.parts.len(),
                i <= self.parts.len(),
                self@.parts.subrange(0, i as int) == other@.parts.subrange(0, i as int),
            decreases self.parts.len() - i,
        {
            if !bytes_eq(self.parts[i].as_slice(), other.parts[i].as_slice()) {
                assert(self@.parts[i as int] != other@.parts[i as int]);
                return false;
            }
            assert(self@.parts.subrange(0, i + 1) == self@.parts.subrange(0, i as int).push(
                self@.parts[i as int],
            ));
            assert(other@.parts.subrange(0, i + 1) == other@.parts.subrange(0, i as int).push(
                other@.parts[i as int],
            ));
            i += 1;
        }
        assert(self@.parts == self@.parts.subrange(0, self.parts.len() as int));
        assert(other@.parts == other@.parts.subrange(0, other.parts.len() as int));
        true
    }
}

} // verus!
