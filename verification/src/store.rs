//! The boundary to the object store.
//!
//! Everything the engine reads from a repository comes through the functions
//! of this module.  Each one hands back plain values; what a call returns is
//! stated over spec functions that name the store's contents.  Those names
//! treat the open repository as a fixed, read-only collection: nothing in
//! this crate writes to the store, and the contracts assume the repository
//! is not modified elsewhere while the engine runs.

use vstd::prelude::*;

verus! {

/// Raw record of one entry of a tree object: its name (when representable
/// as text), its declared kind, and the id of the child object it points to.
pub struct RawEntry {
    pub name: Option<String>,
    pub kind: RawKind,
    pub id: String,
}

/// The declared kind of a tree entry.
pub enum RawKind {
    TreeKind,
    BlobKind,
    OtherKind,
}

/// Raw record of a commit as the store reports it.  Author and committer
/// names, emails and the message are `None` when the store cannot deliver
/// them as text.
pub struct RawCommit {
    pub author_name: Option<String>,
    pub author_email: Option<String>,
    pub committer_name: Option<String>,
    pub committer_email: Option<String>,
    pub message: Option<String>,
    pub parent_ids: Vec<String>,
    pub tree_id: String,
}

/// Raw record of one local branch: its name (when representable as text)
/// and the id of the commit its reference resolves to.
pub struct BranchRef {
    pub name: Option<String>,
    pub tip_id: String,
}

/// Raw record of one delta of a tree-to-tree diff: the changed path split
/// at the `/` separators the store uses (`None` when the path is absent or
/// not representable as text), the id of the new side's blob, and whether
/// the delta deletes the path.
pub struct RawDelta {
    pub path: Option<Vec<String>>,
    pub new_id: String,
    pub deleted: bool,
}

#[verifier::external_type_specification]
#[verifier::external_body]
pub struct ExRepository(git2::Repository);

#[verifier::external_type_specification]
#[verifier::external_body]
pub struct ExGitError(git2::Error);

/// The entries of the tree object `id` holds in the store `r`.
pub uninterp spec fn store_tree(r: git2::Repository, id: Seq<char>) -> Seq<RawEntry>;

/// The byte content of the blob object `id` holds in the store `r`.
pub uninterp spec fn store_blob(r: git2::Repository, id: Seq<char>) -> Seq<u8>;

/// The record of the commit object `id` holds in the store `r`.
pub uninterp spec fn store_commit(r: git2::Repository, id: Seq<char>) -> RawCommit;

/// The ids an ancestry walk from `tip` yields, in the order the store
/// reports them.
pub uninterp spec fn store_ancestry(r: git2::Repository, tip: Seq<char>) -> Seq<String>;

/// The local branches of the store `r`, in the order the store reports them.
pub uninterp spec fn store_branches(r: git2::Repository) -> Seq<BranchRef>;

/// The deltas of the store's structural diff from tree `parent` to tree
/// `child`, in the order the store reports them.
pub uninterp spec fn store_diff(r: git2::Repository, parent: Seq<char>, child: Seq<char>) -> Seq<
    RawDelta,
>;

/// `parent` is recorded as a direct parent of the commit `child`.
pub open spec fn parent_edge(r: git2::Repository, parent: Seq<char>, child: Seq<char>) -> bool {
    exists|k: int|
        0 <= k < store_commit(r, child).parent_ids@.len() && store_commit(
            r,
            child,
        ).parent_ids@[k]@ == parent
}

/// `anc` is a proper ancestor of `desc`, along a chain of at most `n`
/// parent edges.
pub open spec fn ancestor_within(
    r: git2::Repository,
    anc: Seq<char>,
    desc: Seq<char>,
    n: nat,
) -> bool
    decreases n,
{
    n > 0 && (parent_edge(r, anc, desc) || exists|mid: Seq<char>|
        parent_edge(r, mid, desc) && ancestor_within(r, anc, mid, (n - 1) as nat))
}

/// Relies on git2::Repository::open: opens the repository at `path`.
/// Nothing is promised of the handle; what the contracts of the other
/// functions say of its contents is keyed on the handle that came back.
#[verifier::external_body]
pub(crate) fn open_store(path: &str) -> (res: Result<git2::Repository, git2::Error>) {
    git2::Repository::open(path)
}

/// Relies on git2::Error::message for the text of a store error.
#[verifier::external_body]
pub(crate) fn store_error_message(e: &git2::Error) -> (res: String) {
    e.message().to_string()
}

/// Relies on git2::Repository::branches with the local filter,
/// git2::Branch::name (documented to be `Ok(None)` when the name is not
/// valid text) and git2::Reference::peel_to_commit for each branch's tip.
/// The contract holds while nothing modifies the repository during the
/// run.
#[verifier::external_body]
pub(crate) fn local_branch_refs(repo: &git2::Repository) -> (res: Result<Vec<BranchRef>, git2::Error>)
    ensures
        res matches Ok(v) ==> v@ == store_branches(*repo),
{
    let mut out = Vec::new();
    for b in repo.branches(Some(git2::BranchType::Local))? {
        let (b, _) = b?;
        let name = b.name()?.map(|s| s.to_string());
        let tip_id = b.get().peel_to_commit()?.id().to_string();
        out.push(BranchRef { name, tip_id });
    }
    Ok(out)
}

/// Relies on git2::Repository::find_commit and the accessors of
/// git2::Commit (author, committer, message, parents, tree_id), with
/// git2::Signature::{name, email}; each text field is `None` when it is not
/// representable as text.  The parents iterator stops at a parent whose
/// object cannot be loaded, so in a damaged store a merge commit can
/// surface with fewer parents; the record the name stands for is this
/// read, and it holds while nothing modifies the repository during the
/// run.
#[verifier::external_body]
pub(crate) fn lookup_commit(repo: &git2::Repository, id: &str) -> (res: Result<RawCommit, git2::Error>)
    ensures
        res matches Ok(c) ==> c == store_commit(*repo, id@),
{
    let c = repo.find_commit(git2::Oid::from_str(id)?)?;
    let (a, m) = (c.author(), c.committer());
    Ok(RawCommit {
        author_name: a.name().ok().map(str::to_string),
        author_email: a.email().ok().map(str::to_string),
        committer_name: m.name().ok().map(str::to_string),
        committer_email: m.email().ok().map(str::to_string),
        message: c.message().ok().map(str::to_string),
        parent_ids: c.parents().map(|p| p.id().to_string()).collect(),
        tree_id: c.tree_id().to_string(),
    })
}

/// Relies on git2::Repository::find_tree and git2::Tree::iter with
/// git2::TreeEntry::{name, kind, id}; an entry's name is `None` when it is
/// not representable as text, and its kind is `OtherKind` when it is
/// neither a tree nor a blob.
#[verifier::external_body]
pub(crate) fn lookup_tree(repo: &git2::Repository, id: &str) -> (res: Result<Vec<RawEntry>, git2::Error>)
    ensures
        res matches Ok(v) ==> v@ == store_tree(*repo, id@),
{
    let t = repo.find_tree(git2::Oid::from_str(id)?)?;
    let mut out = Vec::new();
    for e in t.iter() {
        let kind = match e.kind() {
            Some(git2::ObjectType::Tree) => RawKind::TreeKind,
            Some(git2::ObjectType::Blob) => RawKind::BlobKind,
            _ => RawKind::OtherKind,
        };
        out.push(RawEntry { name: e.name().ok().map(|s| s.to_string()), kind, id: e.id().to_string() });
    }
    Ok(out)
}

/// Relies on git2::Repository::find_blob and git2::Blob::content.
#[verifier::external_body]
pub(crate) fn lookup_blob(repo: &git2::Repository, id: &str) -> (res: Result<Vec<u8>, git2::Error>)
    ensures
        res matches Ok(v) ==> v@ == store_blob(*repo, id@),
{
    Ok(repo.find_blob(git2::Oid::from_str(id)?)?.content().to_vec())
}

/// `anc` is a proper ancestor of `desc`: some chain of parent edges leads
/// from `desc` back to it.
pub open spec fn reachable_from(r: git2::Repository, anc: Seq<char>, desc: Seq<char>) -> bool {
    exists|n: nat| ancestor_within(r, anc, desc, n)
}

/// Relies on git2::Repository::revwalk with git2::Revwalk::{set_sorting,
/// push} and its iterator.  The pushed id names a commitish whose peeled
/// commit roots the walk, so a successful walk is never empty; the walk
/// yields each reachable commit exactly once, and topological sorting is
/// documented to emit children before parents, so no id of the walk is an
/// ancestor of an earlier one.  Nothing here says the first id spells the
/// requested tip: the store parses ids case-insensitively and peels tag
/// ids, so the caller compares.  The ancestor clauses are read over the
/// model's parent edges, and, like every contract of this module, hold
/// while nothing modifies the repository during the run.
#[verifier::external_body]
pub(crate) fn walk_ancestry(repo: &git2::Repository, tip: &str) -> (res: Result<Vec<String>, git2::Error>)
    ensures
        res matches Ok(v) ==> v@ == store_ancestry(*repo, tip@),
        res matches Ok(v) ==> forall|i: int, j: int, n: nat|
            0 <= i < j < v@.len() ==> !ancestor_within(*repo, v@[i]@, v@[j]@, n),
        res matches Ok(v) ==> v@.len() > 0,
        res matches Ok(v) ==> forall|i: int, j: int|
            0 <= i < j < v@.len() ==> (#[trigger] v@[i])@ != (#[trigger] v@[j])@,
        res matches Ok(v) ==> forall|i: int|
            0 < i < v@.len() ==> reachable_from(*repo, (#[trigger] v@[i])@, tip@),
        res matches Ok(v) ==> forall|id: Seq<char>| #[trigger]
            reachable_from(*repo, id, tip@) ==> exists|i: int|
                0 <= i < v@.len() && (#[trigger] v@[i])@ == id,
{
    let mut rw = repo.revwalk()?;
    rw.set_sorting(git2::Sort::TOPOLOGICAL)?;
    rw.push(git2::Oid::from_str(tip)?)?;
    let mut out = Vec::new();
    for id in rw {
        out.push(id?.to_string());
    }
    Ok(out)
}

/// Relies on git2::Repository::diff_tree_to_tree with default options,
/// git2::Repository::find_tree for the two sides, and the delta accessors
/// git2::DiffDelta::{status, new_file} with git2::DiffFile::{id, path};
/// the path is split at the `/` separators the store uses.
#[verifier::external_body]
pub(crate) fn diff_trees(repo: &git2::Repository, parent_id: &str, child_id: &str) -> (res: Result<
    Vec<RawDelta>,
    git2::Error,
>)
    ensures
        res matches Ok(v) ==> v@ == store_diff(*repo, parent_id@, child_id@),
{
    let p = repo.find_tree(git2::Oid::from_str(parent_id)?)?;
    let c = repo.find_tree(git2::Oid::from_str(child_id)?)?;
    let diff = repo.diff_tree_to_tree(Some(&p), Some(&c), None)?;
    let mut out = Vec::new();
    for d in diff.deltas() {
        let path = d.new_file().path().and_then(|p| p.to_str()).map(|s| {
            s.split('/').map(|seg| seg.to_string()).collect()
        });
        let deleted = matches!(d.status(), git2::Delta::Deleted);
        out.push(RawDelta { path, new_id: d.new_file().id().to_string(), deleted });
    }
    Ok(out)
}

} // verus!
