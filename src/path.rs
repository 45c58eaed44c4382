use vstd::prelude::*;

verus! {

/// A path as the sequence of its components, e.g. `/sys/fs` is `["/", "sys", "fs"]`
/// and `test_dirs/dir0` is `["test_dirs", "dir0"]`.
pub type PathModel = Seq<Seq<char>>;

/// What `std::path::Path::components` yields for a path, each component as text.
pub uninterp spec fn path_parts(s: Seq<char>) -> Seq<Seq<char>>;

/// The component sequences of a sequence of paths.
pub open spec fn paths_view(s: Seq<FsPath>) -> Seq<PathModel> {
    s.map_values(|p: FsPath| p@)
}

/// `p` is a (not necessarily strict) leading part of `q`, component by component.
pub open spec fn is_prefix_of(p: PathModel, q: PathModel) -> bool {
    p.len() <= q.len() && q.subrange(0, p.len() as int) == p
}

/// A filesystem path held as its components.
#[derive(Clone, Debug, PartialEq, Eq, Hash)]
pub struct FsPath {
    pub parts: Vec<String>,
}

impl View for FsPath {
    type V = PathModel;

    open spec fn view(&self) -> PathModel {
        self.parts@.map_values(|s: String| s@)
    }
}

/// Relies on std::path::Path::components: splits a path into its components.
#[verifier::external_body]
fn split_components(s: &str) -> (r: Vec<String>)
    ensures
        r@.map_values(|c: String| c@) == path_parts(s@),
{
    std::path::Path::new(s).components().map(|c| c.as_os_str().to_string_lossy().into_owned()).collect()
}

impl FsPath {
    /// The path written as `s`, split into components as `std::path::Path` does.
    pub fn parse(s: &str) -> (r: FsPath)
        ensures
            r@ == path_parts(s@),
    {
        FsPath { parts: split_components(s) }
    }

    /// The path made of the given components.
    pub fn from_parts(parts: Vec<String>) -> (r: FsPath)
        ensures
            r.parts == parts,
    {
        FsPath { parts }
    }

    /// The number of components.
    pub fn len(&self) -> (r: usize)
        ensures
            r == self@.len(),
    {
        self.parts.len()
    }

    /// The path of the entry called `name` inside this directory.
    pub fn join(&self, name: &String) -> (r: FsPath)
        ensures
            r@ == self@.push(name@),
    {
        let mut parts = self.parts.clone();
        parts.push(name.clone());
        let r = FsPath { parts };
        proof {
            assert(r@ =~= self@.push(name@));
        }
        r
    }

    /// A copy of this path.
    pub fn clone_path(&self) -> (r: FsPath)
        ensures
            r@ == self@,
    {
        let r = FsPath { parts: self.parts.clone() };
        proof {
            assert(r@ =~= self@);
        }
        r
    }

    /// Component-wise equality, as `std::path::Path` compares paths.
    pub fn same_as(&self, other: &FsPath) -> (r: bool)
        ensures
            r == (self@ == other@),
    {
        if self.parts.len() != other.parts.len() {
            proof {
                assert(self@.len() != other@.len());
            }
            return false;
        }
        proof {
            assert(self@.subrange(0, self@.len() as int) =~= self@);
        }
        self.starts_with(other)
    }

    /// `base` is a leading part of this path, component by component.
    pub fn starts_with(&self, base: &FsPath) -> (r: bool)
        ensures
            r == is_prefix_of(base@, self@),
    {
        let n = base.parts.len();
        if n > self.parts.len() {
            return false;
        }
        let mut i: usize = 0;
        while i < n
            invariant
                n == base.parts@.len(),
                n <= self.parts@.len(),
                0 <= i <= n,
                forall|j: int| 0 <= j < i ==> self@[j] == base@[j],
            decreases n - i,
        {
            if self.parts[i] != base.parts[i] {
                proof {
                    assert(self@.subrange(0, n as int)[i as int] != base@[i as int]);
                }
                return false;
            }
            i = i + 1;
        }
        proof {
            assert(self@.subrange(0, n as int) =~= base@);
        }
        true
    }
}

} // verus!
