//! End-to-end tests of the history materialization engine against small
//! fixture repositories built through the object store itself.

use githist::abstraction::{Branch, Commit, CommandError, EntryType, Signature, Tree};
use githist::repo::Repo;

fn sig() -> git2::Signature<'static> {
    git2::Signature::now("Alice", "alice@example.com").unwrap()
}

fn blob_tree(repo: &git2::Repository, files: &[(&str, &[u8])]) -> git2::Oid {
    let mut tb = repo.treebuilder(None).unwrap();
    for (name, content) in files {
        let b = repo.blob(content).unwrap();
        tb.insert(*name, b, 0o100644).unwrap();
    }
    tb.write().unwrap()
}

/// One root commit adding `a.txt` ("hello"), one child commit changing
/// `a.txt` to "hello world" and adding `b.txt` ("new"), on branch `main`.
fn fixture_two_commits(path: &str) -> (git2::Repository, git2::Oid, git2::Oid) {
    let repo = git2::Repository::init(path).unwrap();
    let t1 = blob_tree(&repo, &[("a.txt", b"hello")]);
    let c1 = {
        let tree1 = repo.find_tree(t1).unwrap();
        repo.commit(None, &sig(), &sig(), "first commit", &tree1, &[])
            .unwrap()
    };
    let t2 = blob_tree(&repo, &[("a.txt", b"hello world"), ("b.txt", b"new")]);
    let c2 = {
        let tree2 = repo.find_tree(t2).unwrap();
        let parent = repo.find_commit(c1).unwrap();
        repo.commit(None, &sig(), &sig(), "second commit", &tree2, &[&parent])
            .unwrap()
    };
    repo.branch("main", &repo.find_commit(c2).unwrap(), true)
        .unwrap();
    (repo, c1, c2)
}

fn leaf<'a>(t: &'a Tree, name: &str) -> &'a Tree {
    let entries = t.entries.as_ref().unwrap();
    entries.iter().find(|e| e.id == name).unwrap()
}

fn blob_content<'a>(t: &'a Tree, name: &str) -> &'a [u8] {
    match &leaf(t, name).entry_type {
        EntryType::Blob(b) => b,
        EntryType::Tree => panic!("expected a blob"),
    }
}

fn count_blob_leaves(t: &Tree) -> usize {
    match &t.entry_type {
        EntryType::Blob(_) => 1,
        EntryType::Tree => t
            .entries
            .as_ref()
            .map(|es| es.iter().map(count_blob_leaves).sum())
            .unwrap_or(0),
    }
}

#[test]
fn end_to_end_two_commit_history() {
    let (_repo, c1, c2) = fixture_two_commits("/tmp/githist_fixture_end_to_end");
    let model = Repo::new("/tmp/githist_fixture_end_to_end").unwrap();
    assert_eq!(model.branches.len(), 1);
    let main = &model.branches[0];
    assert_eq!(main.name, "main");
    assert_eq!(main.tip_commit_id, c2.to_string());
    assert_eq!(main.commits.len(), 2);

    let newest = &main.commits[0];
    assert_eq!(newest.id, c2.to_string());
    assert_eq!(newest.message.as_deref(), Some("second commit"));
    assert_eq!(newest.parent_ids, vec![c1.to_string()]);
    assert_eq!(blob_content(&newest.diff_tree, "a.txt"), b"hello world");
    assert_eq!(blob_content(&newest.diff_tree, "b.txt"), b"new");
    assert_eq!(newest.diff_tree.entries.as_ref().unwrap().len(), 2);

    let root = &main.commits[1];
    assert_eq!(root.id, c1.to_string());
    assert_eq!(root.message.as_deref(), Some("first commit"));
    assert!(root.parent_ids.is_empty());
    assert_eq!(blob_content(&root.diff_tree, "a.txt"), b"hello");
    assert_eq!(root.diff_tree.entries.as_ref().unwrap().len(), 1);
    assert_eq!(root.author.name, "Alice");
    assert_eq!(root.author.email, "alice@example.com");
}

#[test]
fn root_commit_completeness_nested() {
    let repo = git2::Repository::init("/tmp/githist_fixture_nested").unwrap();
    let sub = blob_tree(&repo, &[("b.txt", b"beta"), ("c.txt", b"gamma")]);
    let mut tb = repo.treebuilder(None).unwrap();
    let a = repo.blob(b"alpha").unwrap();
    tb.insert("a.txt", a, 0o100644).unwrap();
    tb.insert("dir", sub, 0o040000).unwrap();
    let t = tb.write().unwrap();
    {
        let tree = repo.find_tree(t).unwrap();
        repo.commit(None, &sig(), &sig(), "root", &tree, &[]).unwrap();
    }

    let model = Tree::try_from_git(&repo, &t.to_string()).unwrap();
    assert_eq!(count_blob_leaves(&model), 3);
    assert_eq!(blob_content(&model, "a.txt"), b"alpha");
    let dir = leaf(&model, "dir");
    assert!(matches!(dir.entry_type, EntryType::Tree));
    assert_eq!(blob_content(dir, "b.txt"), b"beta");
    assert_eq!(blob_content(dir, "c.txt"), b"gamma");
}

#[test]
fn materialization_is_idempotent() {
    let repo = git2::Repository::init("/tmp/githist_fixture_idem").unwrap();
    let t = blob_tree(&repo, &[("x.txt", b"one"), ("y.txt", b"two")]);
    let first = Tree::try_from_git(&repo, &t.to_string()).unwrap();
    let second = Tree::try_from_git(&repo, &t.to_string()).unwrap();
    assert_eq!(first, second);
}

#[test]
fn sparse_diff_holds_exactly_the_changed_paths() {
    let repo = git2::Repository::init("/tmp/githist_fixture_sparse").unwrap();
    let sub1 = blob_tree(&repo, &[("kept.txt", b"same"), ("mod.txt", b"old")]);
    let mut tb1 = repo.treebuilder(None).unwrap();
    let top = repo.blob(b"top").unwrap();
    tb1.insert("top.txt", top, 0o100644).unwrap();
    tb1.insert("dir", sub1, 0o040000).unwrap();
    let t1 = tb1.write().unwrap();

    let sub2 = blob_tree(&repo, &[("kept.txt", b"same"), ("mod.txt", b"new")]);
    let mut tb2 = repo.treebuilder(None).unwrap();
    let top2 = repo.blob(b"top").unwrap();
    tb2.insert("top.txt", top2, 0o100644).unwrap();
    tb2.insert("dir", sub2, 0o040000).unwrap();
    let t2 = tb2.write().unwrap();

    let diff = Commit::load_diffs(Some(&t1.to_string()), &t2.to_string(), &repo).unwrap();
    // only the one changed path appears, inside its directory skeleton
    assert_eq!(diff.entries.as_ref().unwrap().len(), 1);
    let dir = leaf(&diff, "dir");
    assert_eq!(dir.entries.as_ref().unwrap().len(), 1);
    assert_eq!(blob_content(dir, "mod.txt"), b"new");
}

#[test]
fn deleted_paths_are_omitted_from_the_sparse_diff() {
    let repo = git2::Repository::init("/tmp/githist_fixture_delete").unwrap();
    let t1 = blob_tree(&repo, &[("gone.txt", b"bye"), ("stay.txt", b"old")]);
    let t2 = blob_tree(&repo, &[("stay.txt", b"newer")]);
    let diff = Commit::load_diffs(Some(&t1.to_string()), &t2.to_string(), &repo).unwrap();
    assert_eq!(diff.entries.as_ref().unwrap().len(), 1);
    assert_eq!(blob_content(&diff, "stay.txt"), b"newer");
}

#[test]
fn merge_commits_are_excluded_from_the_walk() {
    let repo = git2::Repository::init("/tmp/githist_fixture_merge").unwrap();
    let t1 = blob_tree(&repo, &[("a.txt", b"left")]);
    let c1 = {
        let tree1 = repo.find_tree(t1).unwrap();
        repo.commit(None, &sig(), &sig(), "left root", &tree1, &[]).unwrap()
    };
    let t2 = blob_tree(&repo, &[("b.txt", b"right")]);
    let c2 = {
        let tree2 = repo.find_tree(t2).unwrap();
        repo.commit(None, &sig(), &sig(), "right root", &tree2, &[]).unwrap()
    };
    let t3 = blob_tree(&repo, &[("a.txt", b"left"), ("b.txt", b"right")]);
    let m = {
        let tree3 = repo.find_tree(t3).unwrap();
        let p1 = repo.find_commit(c1).unwrap();
        let p2 = repo.find_commit(c2).unwrap();
        repo.commit(None, &sig(), &sig(), "merge", &tree3, &[&p1, &p2])
            .unwrap()
    };
    repo.branch("main", &repo.find_commit(m).unwrap(), true).unwrap();

    let commits = Branch::load_commits(&m.to_string(), &repo).unwrap();
    // the merge itself never appears; both roots do, after it
    assert_eq!(commits.len(), 2);
    assert!(commits.iter().all(|c| c.id != m.to_string()));
    assert!(commits.iter().all(|c| c.parent_ids.len() <= 1));
    let ids: Vec<&str> = commits.iter().map(|c| c.id.as_str()).collect();
    assert!(ids.contains(&c1.to_string().as_str()));
    assert!(ids.contains(&c2.to_string().as_str()));
}

#[test]
fn commits_come_tip_first() {
    let (repo, c1, c2) = fixture_two_commits("/tmp/githist_fixture_order");
    let commits = Branch::load_commits(&c2.to_string(), &repo).unwrap();
    assert_eq!(commits.len(), 2);
    // the child precedes its ancestor
    assert_eq!(commits[0].id, c2.to_string());
    assert_eq!(commits[1].id, c1.to_string());
}

#[test]
fn missing_email_falls_back_to_the_sentinel() {
    let s = Signature::from_parts(Some("Alice".to_string()), None);
    assert_eq!(s.name, "Alice");
    assert_eq!(s.email, "Unknown");
    let t = Signature::from_parts(None, Some("a@b.c".to_string()));
    assert_eq!(t.name, "Unknown");
    assert_eq!(t.email, "a@b.c");
}

#[test]
fn opening_a_missing_repository_fails() {
    let res = Repo::new("/tmp/githist_no_such_repository");
    assert!(matches!(res, Err(CommandError::StoreUnavailable(_))));
}

#[test]
fn walking_from_a_bogus_tip_fails() {
    let repo = git2::Repository::init("/tmp/githist_fixture_bogus_tip").unwrap();
    let res = Branch::load_commits(&"not a commit id".to_string(), &repo);
    assert!(matches!(res, Err(CommandError::RevisionWalk(_))));
}

#[test]
fn materializing_a_bogus_tree_fails() {
    let repo = git2::Repository::init("/tmp/githist_fixture_bogus_tree").unwrap();
    let res = Tree::try_from_git(&repo, &"0123456789abcdef0123456789abcdef01234567".to_string());
    assert!(matches!(res, Err(CommandError::ObjectResolution(_))));
}

#[test]
fn diffing_bogus_trees_fails() {
    let repo = git2::Repository::init("/tmp/githist_fixture_bogus_diff").unwrap();
    let bad = "0123456789abcdef0123456789abcdef01234567".to_string();
    let res = Commit::load_diffs(Some(&bad), &bad, &repo);
    assert!(matches!(res, Err(CommandError::DiffComputation(_))));
}

#[test]
fn an_empty_repository_yields_no_branches() {
    git2::Repository::init("/tmp/githist_fixture_empty").unwrap();
    let model = Repo::new("/tmp/githist_fixture_empty").unwrap();
    assert!(model.branches.is_empty());
}

#[test]
fn a_nameless_branch_record_is_rejected() {
    let (repo, _c1, c2) = fixture_two_commits("/tmp/githist_fixture_nameless");
    let nameless = githist::store::BranchRef { name: None, tip_id: c2.to_string() };
    let res = Branch::try_from_git(&nameless, &repo);
    assert!(matches!(res, Err(CommandError::InvalidBranchName)));
    let named = githist::store::BranchRef {
        name: Some("main".to_string()),
        tip_id: c2.to_string(),
    };
    let b = Branch::try_from_git(&named, &repo).unwrap();
    assert_eq!(b.name, "main");
    assert_eq!(b.tip_commit_id, c2.to_string());
    assert_eq!(b.commits.len(), 2);
}

#[test]
fn a_walk_that_starts_elsewhere_is_refused() {
    let (repo, _c1, c2) = fixture_two_commits("/tmp/githist_fixture_tipcase");
    // the store parses uppercase hex, but the walk then starts at the
    // canonical lowercase spelling, not at the requested text
    let upper = c2.to_string().to_uppercase();
    let res = Branch::load_commits(&upper, &repo);
    assert!(matches!(res, Err(CommandError::TipMismatch)));
    let exact = Branch::load_commits(&c2.to_string(), &repo).unwrap();
    assert_eq!(exact[0].id, c2.to_string());
}

#[test]
fn default_tree_is_an_empty_directory() {
    let t = Tree::default();
    assert_eq!(t.id, "");
    assert!(matches!(t.entry_type, EntryType::Tree));
    assert_eq!(t.entries, Some(Vec::new()));
}
