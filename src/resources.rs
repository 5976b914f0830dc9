use vstd::prelude::*;
use crate::hash::{get, text_hash};

verus! {

/// A resource read from a file, known by its absolute path and the hash of
/// that path.
#[derive(Clone, Debug)]
pub struct FileResource {
    pub path: String,
    pub hash: u64,
}

impl FileResource {
    /// The hash is that of the path.
    pub open spec fn consistent(&self) -> bool {
        self.hash == text_hash(self.path@)
    }

    /// The resource for the file at the absolute path `abs_path`.
    pub fn new(abs_path: String) -> (r: FileResource)
        ensures
            r.path@ == abs_path@,
            r.hash == text_hash(abs_path@),
            r.consistent(),
    {
        let hash = get(abs_path.as_str());
        FileResource { path: abs_path, hash }
    }

    /// Points the resource at the file at the absolute path `abs_path`.
    pub fn set(&mut self, abs_path: String)
        ensures
            final(self).path@ == abs_path@,
            final(self).hash == text_hash(abs_path@),
            final(self).consistent(),
    {
        let hash = get(abs_path.as_str());
        self.path = abs_path;
        self.hash = hash;
    }
}

impl PartialEq for FileResource {
    /// Two file resources are the same when their hashes are.
    fn eq(&self, other: &FileResource) -> (r: bool)
        ensures
            r == (self.hash == other.hash),
    {
        self.hash == other.hash
    }
}

impl vstd::std_specs::cmp::PartialEqSpecImpl for FileResource {
    open spec fn obeys_eq_spec() -> bool {
        true
    }

    open spec fn eq_spec(&self, other: &FileResource) -> bool {
        self.hash == other.hash
    }
}

/// A scene, known by a hash.
#[derive(Clone, Copy, Debug, PartialEq, Eq, Structural)]
pub struct SceneResource {
    pub hash: u64,
}

impl SceneResource {
    pub fn new(hash: u64) -> (r: SceneResource)
        ensures
            r.hash == hash,
    {
        SceneResource { hash }
    }

    pub fn set(&mut self, hash: u64)
        ensures
            final(self).hash == hash,
    {
        self.hash = hash;
    }
}

} // verus!
