//! A local clone of a template repository.
use vstd::prelude::*;

verus! {

/// A repository, by the path of its working tree.
#[derive(Debug)]
pub struct Repository {
    path: String,
}

impl View for Repository {
    type V = Seq<char>;

    closed spec fn view(&self) -> Seq<char> {
        self.path@
    }
}

impl Repository {
    /// The repository whose working tree lies at `path`.
    pub fn new(path: &str) -> (r: Repository)
        ensures
            r@ == path@,
    {
        Repository { path: path.to_string() }
    }

    /// The path of the working tree.
    pub fn path(&self) -> (r: &str)
        ensures
            r@ == self@,
    {
        self.path.as_str()
    }
}

} // verus!
