//! Choosing the source files to open when no diagnostics are known yet:
//! a depth-first walk that skips well-known non-source directories and
//! stops at a fixed number of files.

use vstd::prelude::*;

verus! {

/// The most files one sweep opens.
pub const MAX_WORKSPACE_DIAGNOSTIC_FILES: usize = 128;

/// Directories that hold no sources of the workspace.
pub open spec fn skipped_dir(name: Seq<char>) -> bool {
    name == ".git"@ || name == "target"@ || name == "node_modules"@ || name == ".idea"@ || name
        == ".vscode"@
}

/// Whether the walk stays out of a directory with this name; a name that
/// is not UTF-8 is never skipped.
pub fn should_skip_workspace_dir(name: Option<&str>) -> (r: bool)
    ensures
        r == (name matches Some(n) && skipped_dir(n@)),
{
    let name = match name {
        Some(n) => n.to_owned(),
        None => return false,
    };
    name == ".git".to_owned() || name == "target".to_owned() || name == "node_modules".to_owned()
        || name == ".idea".to_owned() || name == ".vscode".to_owned()
}

/// A file with the extension `rs`.
pub fn is_rust_source(extension: Option<&str>) -> (r: bool)
    ensures
        r == (extension matches Some(e) && e@ == "rs"@),
{
    match extension {
        Some(e) => e.to_owned() == "rs".to_owned(),
        None => false,
    }
}

/// The files a sweep has chosen so far.
pub struct WorkspaceScan<P> {
    files: Vec<P>,
}

impl<P> WorkspaceScan<P> {
    pub closed spec fn files(&self) -> Seq<P> {
        self.files@
    }

    pub open spec fn wf(&self) -> bool {
        self.files().len() <= MAX_WORKSPACE_DIAGNOSTIC_FILES
    }

    pub open spec fn full(&self) -> bool {
        self.files().len() >= MAX_WORKSPACE_DIAGNOSTIC_FILES
    }

    pub fn new() -> (r: Self)
        ensures
            r.wf(),
            r.files().len() == 0,
    {
        WorkspaceScan { files: Vec::new() }
    }

    /// The sweep has all the files it may take.
    pub fn is_full(&self) -> (r: bool)
        ensures
            r == self.full(),
    {
        self.files.len() >= MAX_WORKSPACE_DIAGNOSTIC_FILES
    }

    /// Whether the walk goes into a directory with this name.
    pub fn should_enter(&self, name: Option<&str>) -> (r: bool)
        ensures
            r == (!self.full() && !(name matches Some(n) && skipped_dir(n@))),
    {
        !self.is_full() && !should_skip_workspace_dir(name)
    }

    /// Takes a file the walk met if it is a Rust source and there is
    /// room; says whether the walk should go on.
    pub fn offer_file(&mut self, path: P, extension: Option<&str>) -> (r: bool)
        requires
            old(self).wf(),
        ensures
            final(self).wf(),
            (is_rust_source_spec(extension) && !old(self).full()) ==> final(self).files() == old(
                self,
            ).files().push(path),
            !(is_rust_source_spec(extension) && !old(self).full()) ==> final(self).files() == old(
                self,
            ).files(),
            r == !final(self).full(),
    {
        if is_rust_source(extension) && !self.is_full() {
            self.files.push(path);
        }
        !self.is_full()
    }

    /// The chosen files, in the order the walk met them.
    pub fn into_files(self) -> (r: Vec<P>)
        requires
            self.wf(),
        ensures
            r@ == self.files(),
            r@.len() <= MAX_WORKSPACE_DIAGNOSTIC_FILES,
    {
        self.files
    }
}

pub open spec fn is_rust_source_spec(extension: Option<&str>) -> bool {
    extension matches Some(e) && e@ == "rs"@
}

/// The `file://` uri of an absolute path.
pub fn file_uri(path: &str) -> (r: String)
    ensures
        r@ == "file://"@ + path@,
{
    let mut uri = "file://".to_owned();
    uri.append(path);
    uri
}

} // verus!
