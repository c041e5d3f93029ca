//! The files read while loading a ledger, so that an include can be
//! resolved against the file it is in and a circle of includes is caught.

use vstd::prelude::*;
use crate::config::{join_path, joined_path, is_absolute, parent_of};
use crate::text::chars::{chars_of, string_of, extend_chars, str_eq};

verus! {

/// The paths of the files declared so far.
pub struct Filesystem {
    included_files: Vec<String>,
}

impl Filesystem {
    /// The paths declared so far, in order.
    pub closed spec fn declared(&self) -> Seq<Seq<char>> {
        self.included_files@.map_values(|s: String| s@)
    }

    /// No path is declared twice.
    pub open spec fn wf(&self) -> bool {
        forall|i: int, j: int| 0 <= i < j < self.declared().len() ==> self.declared()[i] != self.declared()[j]
    }

    pub fn new() -> (r: Self)
        ensures
            r.declared() == Seq::<Seq<char>>::empty(),
            r.wf(),
    {
        let r = Filesystem { included_files: Vec::new() };
        assert(r.declared() =~= Seq::<Seq<char>>::empty());
        r
    }

    /// Whether a path has been declared.
    pub fn is_declared(&self, file_path: &str) -> (r: bool)
        ensures
            r == self.declared().contains(file_path@),
    {
        let mut i: usize = 0;
        while i < self.included_files.len()
            invariant
                i <= self.included_files@.len(),
                forall|k: int| 0 <= k < i ==> self.declared()[k] != file_path@,
            decreases self.included_files@.len() - i,
        {
            assert(self.declared()[i as int] == self.included_files@[i as int]@);
            if str_eq(self.included_files[i].as_str(), file_path) {
                assert(self.declared()[i as int] == file_path@);
                return true;
            }
            i = i + 1;
        }
        false
    }

    /// Records that a file is being read, refusing one already being read:
    /// that would be a circle of includes.
    pub fn declare_file(&mut self, file_path: &str) -> (r: Result<(), String>)
        requires
            old(self).wf(),
        ensures
            final(self).wf(),
            old(self).declared().contains(file_path@) ==> final(self).declared() == old(self).declared()
                && (r matches Err(e) && e@ == "Circular file includes: "@ + file_path@),
            !old(self).declared().contains(file_path@) ==> final(self).declared() == old(self).declared().push(file_path@)
                && r is Ok,
    {
        if self.is_declared(file_path) {
            let mut msg: Vec<char> = Vec::new();
            extend_chars(&mut msg, "Circular file includes: ");
            extend_chars(&mut msg, file_path);
            return Err(string_of(&msg));
        }
        let ghost before = self.declared();
        self.included_files.push(file_path.to_owned());
        assert(self.declared() =~= before.push(file_path@));
        Ok(())
    }

    /// Resolves a path relative to the directory of the parent file.
    /// If the path is absolute, it's returned as is.
    pub fn resolve_path(&self, parent_file_path: &str, relative_path: &str) -> (r: String)
        ensures
            r@ == (if is_absolute(relative_path@) {
                relative_path@
            } else {
                joined_path(parent_of(parent_file_path@), relative_path@)
            }),
    {
        let rc = chars_of(relative_path);
        if rc.len() > 0 && rc[0] == '/' {
            return relative_path.to_owned();
        }
        let pc = chars_of(parent_file_path);
        let dir = crate::config::parent_dir(&pc);
        let ds = string_of(&dir);
        join_path(ds.as_str(), relative_path)
    }
}

} // verus!
