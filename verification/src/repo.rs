//! The root aggregate: every local branch of a repository, materialized.

use vstd::prelude::*;

use crate::abstraction::{branch_matches, Branch, CommandError};
use crate::store;

verus! {

/// The materialized repository: its local branches in store order.
#[derive(Debug, PartialEq)]
pub struct Repo {
    pub branches: Vec<Branch>,
}

/// The model repository `rp` materializes the store `r`: one model branch
/// per local branch record, in store order.
pub open spec fn repo_matches(rp: Repo, r: git2::Repository) -> bool {
    let brs = store::store_branches(r);
    &&& rp.branches@.len() == brs.len()
    &&& forall|i: int|
        0 <= i < brs.len() ==> branch_matches(#[trigger] rp.branches@[i], r, brs[i])
}

impl Repo {
    /// Materializes every local branch of an open repository, in store
    /// order.  Any branch's failure aborts the whole load: no partial
    /// repository is returned, so an empty branch list means the store
    /// truly has no local branches.
    pub fn load(repo: &git2::Repository) -> (res: Result<Repo, CommandError>)
        ensures
            res matches Ok(rp) ==> repo_matches(rp, *repo),
    {
        let refs = match store::local_branch_refs(repo) {
            Ok(v) => v,
            Err(e) => return Err(CommandError::StoreUnavailable(store::store_error_message(&e))),
        };
        let mut branches: Vec<Branch> = Vec::new();
        let mut j: usize = 0;
        while j < refs.len()
            invariant
                j <= refs.len(),
                refs@ == store::store_branches(*repo),
                branches@.len() == j,
                forall|i: int|
                    0 <= i < j ==> branch_matches(#[trigger] branches@[i], *repo, refs@[i]),
            decreases refs.len() - j,
        {
            let b = match Branch::try_from_git(&refs[j], repo) {
                Ok(b) => b,
                Err(e) => return Err(e),
            };
            branches.push(b);
            j += 1;
        }
        Ok(Repo { branches })
    }

    /// Opens the repository at `path` and materializes it whole.
    pub fn new(path: &str) -> (res: Result<Repo, CommandError>)
        ensures
            res matches Ok(rp) ==> exists|r: git2::Repository| #[trigger] repo_matches(rp, r),
    {
        let repo = match store::open_store(path) {
            Ok(r) => r,
            Err(e) => return Err(CommandError::StoreUnavailable(store::store_error_message(&e))),
        };
        match Repo::load(&repo) {
            Ok(rp) => {
                proof {
                    assert(repo_matches(rp, repo));
                }
                Ok(rp)
            },
            Err(e) => Err(e),
        }
    }
}

} // verus!
