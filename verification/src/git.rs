//! A plain-value model of the repository state that the library reads:
//! the paths of the git directory and of the work directory, and the name
//! of the current branch. The surrounding program fills this in from the
//! version-control state and performs all file-system work itself.

use vstd::prelude::*;

verus! {

use crate::Error;
use crate::config::config_filenames;
use crate::config::spec_config_filenames;

/// Index of the first `true` in `present` at or after `i`, or
/// `present.len()` when the rest is all `false`.
pub open spec fn first_present(present: Seq<bool>, i: int) -> int
    decreases present.len() - i,
{
    if i < 0 || i >= present.len() {
        present.len() as int
    } else if present[i] {
        i
    } else {
        first_present(present, i + 1)
    }
}

/// What the library reads of a repository, as plain values.
pub struct Repository {
    /// Path of the git directory itself (such as `/work/repo/.git`).
    pub git_dir: String,
    /// Path of the work directory, absent for a bare repository.
    pub work_dir: Option<String>,
    /// Shorthand name of the current HEAD branch, absent when HEAD is
    /// unborn or carries no shorthand.
    pub head_name: Option<String>,
}

impl Repository {
    /// Path of the prepare-commit-msg hook inside the git directory.
    pub fn hook_path(&self) -> (r: String)
        ensures
            r@ == self.git_dir@ + "/hooks/prepare-commit-msg"@,
    {
        let mut out = self.git_dir.clone();
        out.append("/hooks/prepare-commit-msg");
        out
    }

    /// The name of the current HEAD branch, or `Error::NoBranch` when the
    /// repository has none.
    pub fn current_branch(&self) -> (r: Result<String, Error>)
        ensures
            r is Ok <==> self.head_name is Some,
            r is Ok ==> (r->Ok_0)@ == (self.head_name->0)@,
            r is Err ==> r->Err_0 == Error::NoBranch,
    {
        match &self.head_name {
            Some(name) => Ok(name.clone()),
            None => Err(Error::NoBranch),
        }
    }

    /// Path of the first candidate configuration file that is present in
    /// the work directory. `present` says, for each candidate name in
    /// probing order, whether the work directory holds a file of that
    /// name; the caller reads the file system to fill it in.
    pub fn discover_config(&self, present: &Vec<bool>) -> (r: Result<String, Error>)
        requires
            present@.len() == spec_config_filenames().len(),
        ensures
            self.work_dir is None ==> r == Err::<String, Error>(Error::NoConfigurationFile),
            self.work_dir is Some ==> ({
                let p = first_present(present@, 0);
                if p < present@.len() {
                    r is Ok && (r->Ok_0)@ == (self.work_dir->0)@ + seq!['/']
                        + spec_config_filenames()[p]
                } else {
                    r == Err::<String, Error>(Error::NoConfigurationFile)
                }
            }),
    {
        match &self.work_dir {
            None => Err(Error::NoConfigurationFile),
            Some(root) => {
                let names = config_filenames();
                let mut idx: usize = 0;
                while idx < present.len()
                    invariant
                        idx <= present@.len(),
                        present@.len() == spec_config_filenames().len(),
                        names.deep_view() == spec_config_filenames(),
                        names@.len() == spec_config_filenames().len(),
                        first_present(present@, 0) == first_present(present@, idx as int),
                        self.work_dir is Some,
                        (self.work_dir->0)@ == root@,
                    decreases present@.len() - idx,
                {
                    if present[idx] {
                        let mut out = root.clone();
                        out.append("/");
                        out.append(names[idx]);
                        proof {
                            reveal_strlit("/");
                        }
                        assert(out@ =~= root@ + seq!['/'] + spec_config_filenames()[idx as int]);
                        return Ok(out);
                    }
                    idx = idx + 1;
                }
                Err(Error::NoConfigurationFile)
            },
        }
    }
}

} // verus!
