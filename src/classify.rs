use vstd::prelude::*;

verus! {

/// What the configured root path turned out to be on disk.
#[derive(Clone, Copy, Debug, PartialEq, Eq, Structural)]
pub enum PathKind {
    SingleFile,
    Directory,
}

/// The root is neither a regular file nor a directory.
#[derive(Clone, Copy, Debug, PartialEq, Eq, Structural)]
pub struct InvalidRoot;

impl InvalidRoot {
    /// The text shown to the user for this error.
    pub fn message(&self) -> (r: &'static str)
        ensures
            r@ == "Path either doesn't exist or is not a regular file or a directory"@,
    {
        "Path either doesn't exist or is not a regular file or a directory"
    }
}

/// Classifies the root from the two facts the filesystem reported about it.
/// A regular file wins over a directory, as the file check comes first.
pub fn classify(is_file: bool, is_dir: bool) -> (r: Result<PathKind, InvalidRoot>)
    ensures
        is_file ==> r == Ok::<PathKind, InvalidRoot>(PathKind::SingleFile),
        !is_file && is_dir ==> r == Ok::<PathKind, InvalidRoot>(PathKind::Directory),
        !is_file && !is_dir ==> r == Err::<PathKind, InvalidRoot>(InvalidRoot),
{
    if is_file {
        Ok(PathKind::SingleFile)
    } else if is_dir {
        Ok(PathKind::Directory)
    } else {
        Err(InvalidRoot)
    }
}

} // verus!
