//! The materialized model of a repository's history, and the engine that
//! builds it: tree materialization, per-commit diff trees, and the
//! classified walk over a branch's ancestry.

use vstd::prelude::*;

use crate::store;
use crate::store::{BranchRef, RawCommit, RawDelta, RawEntry, RawKind};

verus! {

broadcast use {
    vstd::seq::axiom_seq_index_decreases,
    vstd::std_specs::vec::axiom_vec_decreases_to_view,
    vstd::std_specs::vec::axiom_vec_index_decreases,
};

/// The errors of the engine.  Variants that carry a `String` hold the text
/// of the underlying store error.
#[derive(Debug, PartialEq)]
pub enum CommandError {
    /// The store could not open the repository.
    StoreUnavailable(String),
    /// A tree entry could not be delivered as the kind it claims.
    ObjectResolution(String),
    /// A tree entry has no name representable as text.
    MissingName,
    /// The store could not compute a structural diff.
    DiffComputation(String),
    /// A delta's referenced blob could not be read.
    BlobResolution(String),
    /// The ancestry walk could not start or advance.
    RevisionWalk(String),
    /// A visited id could not be loaded as a commit.
    CommitResolution(String),
    /// A branch's name is not representable as text.
    InvalidBranchName,
    /// The ancestry walk did not start at the requested tip id.
    TipMismatch,
    /// A delta path is absent, empty, or collides with another delta path.
    MalformedPath,
    /// A tree is nested more deeply than the engine supports.
    DepthExceeded,
}

/// A tree node of the materialized model: a directory with named children,
/// or a blob leaf carrying the full byte content of a file.  `id` is the
/// path-segment name of the node at its level (empty at the synthetic
/// root), not a content hash.
#[derive(Debug, PartialEq)]
pub struct Tree {
    pub id: String,
    pub entry_type: EntryType,
    pub entries: Option<Vec<Tree>>,
}

/// The kind of a tree node.
#[derive(Debug, PartialEq)]
pub enum EntryType {
    Blob(Vec<u8>),
    Tree,
}

impl Tree {
    /// Well-formedness of the model: a node carries `entries` if and only
    /// if it is a directory, recursively.
    pub open spec fn wf(self) -> bool
        decreases self,
    {
        match self.entry_type {
            EntryType::Blob(_) => self.entries is None,
            EntryType::Tree => self.entries matches Some(es) && forall|i: int|
                0 <= i < es.len() ==> (#[trigger] es[i]).wf(),
        }
    }
}

impl Default for Tree {
    /// The empty directory with the synthetic root's empty name.
    fn default() -> (res: Tree)
        ensures
            res.id@ == Seq::<char>::empty(),
            res.entry_type is Tree,
            res.entries matches Some(es) && es@ == Seq::<Tree>::empty(),
            res.wf(),
    {
        Tree { id: String::new(), entry_type: EntryType::Tree, entries: Some(Vec::new()) }
    }
}

/// The author or committer of a commit, copied from the commit's record.
#[derive(Debug, PartialEq)]
pub struct Signature {
    pub name: String,
    pub email: String,
}

/// The sentinel that stands in for a name or email the record lacks.
pub open spec fn unknown_text() -> Seq<char> {
    "Unknown"@
}

/// What a recorded optional text field materializes to: itself when
/// present, the sentinel otherwise.
pub open spec fn or_unknown(o: Option<String>) -> Seq<char> {
    match o {
        Some(s) => s@,
        None => unknown_text(),
    }
}

impl Signature {
    /// Builds a signature from the recorded name and email, falling back
    /// to the sentinel for either field the record lacks.
    pub fn from_parts(name: Option<String>, email: Option<String>) -> (res: Signature)
        ensures
            res.name@ == or_unknown(name),
            res.email@ == or_unknown(email),
    {
        proof {
            reveal_strlit("Unknown");
        }
        let n = match name {
            Some(s) => s,
            None => "Unknown".to_string(),
        };
        let e = match email {
            Some(s) => s,
            None => "Unknown".to_string(),
        };
        Signature { name: n, email: e }
    }
}

/// The deepest tree nesting the engine materializes before giving up with
/// `DepthExceeded`.
pub const TREE_DEPTH_LIMIT: u64 = 4096;

/// Whether the materializer keeps a store entry: subtrees and blobs are
/// kept, entries of any other kind are skipped.
pub open spec fn kept(e: RawEntry) -> bool {
    e.kind is TreeKind || e.kind is BlobKind
}

/// The subsequence of `es` that the materializer keeps, in order.
pub open spec fn kept_entries(es: Seq<RawEntry>) -> Seq<RawEntry>
    decreases es.len(),
{
    if es.len() == 0 {
        Seq::empty()
    } else {
        let rest = kept_entries(es.drop_last());
        if kept(es.last()) {
            rest.push(es.last())
        } else {
            rest
        }
    }
}

/// `t` is the full materialization of the store's tree object `oid`: it is
/// a directory whose children correspond one to one, in order, with the
/// kept entries of the store's record, blobs carrying the store's byte
/// content and subtrees materialized in turn.
pub open spec fn materializes(t: Tree, r: git2::Repository, oid: Seq<char>) -> bool
    decreases t, 0int,
{
    &&& t.entry_type is Tree
    &&& t.entries matches Some(children) && {
        let ks = kept_entries(store::store_tree(r, oid));
        &&& children.len() == ks.len()
        &&& forall|i: int| 0 <= i < ks.len() ==> child_matches(#[trigger] children[i], r, ks[i])
    }
}

/// The child node `c` materializes the kept store entry `e`: it carries the
/// entry's name, and the store's blob content or the entry's subtree.
pub open spec fn child_matches(c: Tree, r: git2::Repository, e: RawEntry) -> bool
    decreases c, 1int,
{
    &&& e.name matches Some(n) && c.id@ == n@
    &&& match e.kind {
        RawKind::BlobKind => c.entries is None && (c.entry_type matches EntryType::Blob(b) && b@
            == store::store_blob(r, e.id@)),
        RawKind::TreeKind => materializes(c, r, e.id@),
        RawKind::OtherKind => false,
    }
}

/// Within `n` levels below the tree object `oid`, some kept entry lacks a
/// name representable as text.
pub open spec fn nameless_within(r: git2::Repository, oid: Seq<char>, n: nat) -> bool {
    n > 0 && nameless_entry_within(r, store::store_tree(r, oid), 0, n)
}

/// Among the entries `es[i..]`, some kept entry lacks a readable name, or
/// a named subtree entry hides one within `n - 1` further levels.
pub open spec fn nameless_entry_within(r: git2::Repository, es: Seq<RawEntry>, i: int, n: nat) -> bool
    decreases n, es.len() - i,
{
    if 0 <= i < es.len() {
        ||| (kept(es[i]) && es[i].name is None)
        ||| (es[i].kind is TreeKind && es[i].name is Some && n > 1 && nameless_entry_within(
            r,
            store::store_tree(r, es[i].id@),
            0,
            (n - 1) as nat,
        ))
        ||| nameless_entry_within(r, es, i + 1, n)
    } else {
        false
    }
}

/// Every chain of kept subtree entries below the tree object `oid` ends
/// within `n` levels.
pub open spec fn fits_within(r: git2::Repository, oid: Seq<char>, n: nat) -> bool {
    n > 0 && subtrees_fit(r, store::store_tree(r, oid), 0, n)
}

/// Every subtree entry among `es[i..]` fits within `n - 1` further levels.
pub open spec fn subtrees_fit(r: git2::Repository, es: Seq<RawEntry>, i: int, n: nat) -> bool
    decreases n, es.len() - i,
{
    if 0 <= i < es.len() {
        &&& (es[i].kind is TreeKind ==> n > 1 && subtrees_fit(
            r,
            store::store_tree(r, es[i].id@),
            0,
            (n - 1) as nat,
        ))
        &&& subtrees_fit(r, es, i + 1, n)
    } else {
        true
    }
}

/// A nameless kept entry at position `j` shows from every position at or
/// before it.
proof fn lemma_nameless_at(r: git2::Repository, es: Seq<RawEntry>, i: int, j: int, n: nat)
    requires
        0 <= i <= j < es.len(),
        kept(es[j]),
        es[j].name is None,
    ensures
        nameless_entry_within(r, es, i, n),
    decreases j - i,
{
    if i < j {
        lemma_nameless_at(r, es, i + 1, j, n);
    }
}

/// A named subtree entry at position `j` that hides a nameless entry shows
/// from every position at or before it.
proof fn lemma_nameless_sub_at(r: git2::Repository, es: Seq<RawEntry>, i: int, j: int, n: nat)
    requires
        0 <= i <= j < es.len(),
        es[j].kind is TreeKind,
        es[j].name is Some,
        n > 1,
        nameless_entry_within(r, store::store_tree(r, es[j].id@), 0, (n - 1) as nat),
    ensures
        nameless_entry_within(r, es, i, n),
    decreases j - i,
{
    if i < j {
        lemma_nameless_sub_at(r, es, i + 1, j, n);
    }
}

/// A subtree entry at position `j` that does not fit refutes the fit from
/// every position at or before it.
proof fn lemma_unfit_at(r: git2::Repository, es: Seq<RawEntry>, i: int, j: int, n: nat)
    requires
        0 <= i <= j < es.len(),
        es[j].kind is TreeKind,
        !(n > 1 && subtrees_fit(r, store::store_tree(r, es[j].id@), 0, (n - 1) as nat)),
    ensures
        !subtrees_fit(r, es, i, n),
    decreases j - i,
{
    if i < j {
        lemma_unfit_at(r, es, i + 1, j, n);
    }
}

impl Tree {
    /// Materializes the store's tree object `oid` as a directory node named
    /// `name`, recursing through at most `fuel` further levels.
    fn materialize_dir(repo: &git2::Repository, oid: &String, name: String, fuel: u64) -> (res:
        Result<Tree, CommandError>)
        ensures
            res matches Ok(t) ==> materializes(t, *repo, oid@) && t.id@ == name@ && t.wf(),
            res matches Err(e) ==> e is ObjectResolution || e is MissingName
                || e is DepthExceeded,
            res matches Err(e) ==> (e is MissingName ==> nameless_within(*repo, oid@, fuel as nat)),
            res matches Err(e) ==> (e is DepthExceeded ==> !fits_within(*repo, oid@, fuel as nat)),
        decreases fuel,
    {
        if fuel == 0 {
            return Err(CommandError::DepthExceeded);
        }
        let raw = match store::lookup_tree(repo, oid.as_str()) {
            Ok(v) => v,
            Err(e) => return Err(CommandError::ObjectResolution(store::store_error_message(&e))),
        };
        let mut children: Vec<Tree> = Vec::new();
        let mut j: usize = 0;
        while j < raw.len()
            invariant
                fuel >= 1,
                j <= raw.len(),
                raw@ == store::store_tree(*repo, oid@),
                children.len() == kept_entries(raw@.take(j as int)).len(),
                forall|i: int|
                    0 <= i < children.len() ==> child_matches(
                        #[trigger] children[i],
                        *repo,
                        kept_entries(raw@.take(j as int))[i],
                    ),
                forall|i: int| 0 <= i < children.len() ==> (#[trigger] children[i]).wf(),
            decreases raw.len() - j,
        {
            let e = &raw[j];
            proof {
                assert(raw@.take(j as int + 1).drop_last() =~= raw@.take(j as int));
                assert(raw@.take(j as int + 1).last() == raw@[j as int]);
            }
            match e.kind {
                RawKind::OtherKind => {},
                RawKind::BlobKind => {
                    let n = match &e.name {
                        Some(n) => n.clone(),
                        None => {
                            proof {
                                lemma_nameless_at(*repo, raw@, 0, j as int, fuel as nat);
                            }
                            return Err(CommandError::MissingName);
                        },
                    };
                    let content = match store::lookup_blob(repo, e.id.as_str()) {
                        Ok(b) => b,
                        Err(err) => return Err(
                            CommandError::ObjectResolution(store::store_error_message(&err)),
                        ),
                    };
                    children.push(
                        Tree { id: n, entry_type: EntryType::Blob(content), entries: None },
                    );
                },
                RawKind::TreeKind => {
                    let n = match &e.name {
                        Some(n) => n.clone(),
                        None => {
                            proof {
                                lemma_nameless_at(*repo, raw@, 0, j as int, fuel as nat);
                            }
                            return Err(CommandError::MissingName);
                        },
                    };
                    let sub = match Tree::materialize_dir(repo, &e.id, n, fuel - 1) {
                        Ok(t) => t,
                        Err(err) => {
                            proof {
                                if err is MissingName {
                                    lemma_nameless_sub_at(*repo, raw@, 0, j as int, fuel as nat);
                                }
                                if err is DepthExceeded {
                                    lemma_unfit_at(*repo, raw@, 0, j as int, fuel as nat);
                                    assert(!fits_within(*repo, oid@, fuel as nat));
                                }
                            }
                            return Err(err);
                        },
                    };
                    children.push(sub);
                },
            }
            j += 1;
        }
        proof {
            assert(raw@.take(raw@.len() as int) =~= raw@);
        }
        Ok(Tree { id: name, entry_type: EntryType::Tree, entries: Some(children) })
    }

    /// Materializes the entire tree object `id`: the synthetic root is a
    /// directory with the empty name.  A missing-name error owns up to a
    /// nameless kept entry in the subtree, and `DepthExceeded` comes back
    /// only for trees nested more deeply than `TREE_DEPTH_LIMIT` levels.
    pub fn try_from_git(repo: &git2::Repository, id: &String) -> (res: Result<Tree, CommandError>)
        ensures
            res matches Ok(t) ==> materializes(t, *repo, id@) && t.id@ == Seq::<char>::empty()
                && t.wf(),
            res matches Err(e) ==> e is ObjectResolution || e is MissingName
                || e is DepthExceeded,
            res matches Err(e) ==> (e is MissingName ==> nameless_within(
                *repo,
                id@,
                TREE_DEPTH_LIMIT as nat,
            )),
            res matches Err(e) ==> (e is DepthExceeded ==> !fits_within(
                *repo,
                id@,
                TREE_DEPTH_LIMIT as nat,
            )),
    {
        Tree::materialize_dir(repo, id, String::new(), TREE_DEPTH_LIMIT)
    }
}

/// Structural identity of two model trees: the same name, the same kind,
/// the same byte content, and the same children in the same order, node
/// for node.
pub open spec fn same_tree(a: Tree, b: Tree) -> bool
    decreases a,
{
    &&& a.id@ == b.id@
    &&& match (a.entry_type, b.entry_type) {
        (EntryType::Blob(x), EntryType::Blob(y)) => x@ == y@ && a.entries is None
            && b.entries is None,
        (EntryType::Tree, EntryType::Tree) => a.entries matches Some(xs) && (b.entries matches Some(
            ys,
        ) && xs.len() == ys.len() && forall|i: int|
            0 <= i < xs.len() ==> same_tree(#[trigger] xs[i], ys[i])),
        _ => false,
    }
}

/// Materializing the same tree identity twice yields structurally
/// identical trees: any two materializations of one store tree, carrying
/// one name, agree node for node in shape, order and content.
pub proof fn lemma_materialize_idempotent(t1: Tree, t2: Tree, r: git2::Repository, oid: Seq<char>)
    requires
        materializes(t1, r, oid),
        materializes(t2, r, oid),
        t1.id@ == t2.id@,
    ensures
        same_tree(t1, t2),
    decreases t1, 0int,
{
    let ks = kept_entries(store::store_tree(r, oid));
    let xs = t1.entries->Some_0;
    let ys = t2.entries->Some_0;
    assert forall|i: int| 0 <= i < xs.len() implies same_tree(#[trigger] xs[i], ys[i]) by {
        lemma_child_idempotent(xs[i], ys[i], r, ks[i]);
    }
}

/// Any two materializations of one kept store entry agree node for node.
proof fn lemma_child_idempotent(c1: Tree, c2: Tree, r: git2::Repository, e: RawEntry)
    requires
        child_matches(c1, r, e),
        child_matches(c2, r, e),
    ensures
        same_tree(c1, c2),
    decreases c1, 1int,
{
    match e.kind {
        RawKind::BlobKind => {},
        RawKind::TreeKind => lemma_materialize_idempotent(c1, c2, r, e.id@),
        RawKind::OtherKind => {},
    }
}

/// The deep view of a path: each segment's character sequence, in order.
pub open spec fn path_view(p: Seq<String>) -> Seq<Seq<char>> {
    p.map_values(|s: String| s@)
}

/// The paths `p` and `q` agree from position `i` on: equal lengths, equal
/// segments at every position from `i` up.
pub open spec fn suffix_eq(p: Seq<Seq<char>>, q: Seq<Seq<char>>, i: int) -> bool {
    p.len() == q.len() && forall|m: int| i <= m < p.len() ==> p[m] == q[m]
}

/// The directory node `t` holds a blob with byte content `c` at the path
/// `p[i..]` below it.
pub open spec fn has_blob_from(t: Tree, p: Seq<Seq<char>>, i: int, c: Seq<u8>) -> bool
    decreases p.len() - i,
{
    &&& 0 <= i < p.len()
    &&& t.entries matches Some(ch) && exists|j: int|
        0 <= j < ch.len() && (#[trigger] ch[j]).id@ == p[i] && (if i == p.len() - 1 {
            ch[j].entry_type matches EntryType::Blob(b) && b@ == c
        } else {
            has_blob_from(ch[j], p, i + 1, c)
        })
}

/// The directory node `t` holds a blob at the path `p[i..]` below it.
pub open spec fn has_path_from(t: Tree, p: Seq<Seq<char>>, i: int) -> bool {
    exists|c: Seq<u8>| has_blob_from(t, p, i, c)
}

/// Inserting the path `p[i..]` into the directory node `t` collides with
/// what the node already holds: a child already stands where the new path
/// ends, a blob stands where the path needs a directory, or the collision
/// arises further down.
pub open spec fn insert_conflict(t: Tree, p: Seq<Seq<char>>, i: int) -> bool
    decreases p.len() - i,
{
    &&& 0 <= i < p.len()
    &&& t.entries matches Some(ch) && exists|j: int|
        0 <= j < ch.len() && (#[trigger] ch[j]).id@ == p[i] && (if i == p.len() - 1 {
            true
        } else {
            ch[j].entry_type is Blob || insert_conflict(ch[j], p, i + 1)
        })
}

/// The children of every directory at or below `t` carry pairwise distinct
/// names.
pub open spec fn uniq_names(t: Tree) -> bool
    decreases t,
{
    t.entries matches Some(ch) ==> (forall|j: int, k: int|
        0 <= j < k < ch.len() ==> ch[j].id@ != ch[k].id@) && forall|j: int|
        0 <= j < ch.len() ==> uniq_names(#[trigger] ch[j])
}

/// Every directory strictly below `t` has at least one child: the sparse
/// builder never leaves an empty directory behind.
pub open spec fn packed_below(t: Tree) -> bool
    decreases t,
{
    t.entries matches Some(ch) ==> forall|j: int|
        0 <= j < ch.len() ==> ((#[trigger] ch[j]).entries matches Some(gch) ==> gch.len() > 0)
            && packed_below(ch[j])
}

/// Inserts a blob with byte content `content` at the path `segs[i..]`
/// below the directory `node`, creating the minimal directory skeleton on
/// the way, and fails exactly when the path collides with one the node
/// already holds.
fn insert_path(node: Tree, segs: &Vec<String>, i: usize, content: &Vec<u8>) -> (res: Result<
    Tree,
    CommandError,
>)
    requires
        node.wf(),
        node.entry_type is Tree,
        uniq_names(node),
        packed_below(node),
        i < segs.len(),
    ensures
        res is Err <==> insert_conflict(node, path_view(segs@), i as int),
        res matches Err(e) ==> e is MalformedPath,
        res matches Ok(t2) ==> {
            &&& t2.id@ == node.id@
            &&& t2.entry_type is Tree
            &&& t2.wf()
            &&& uniq_names(t2)
            &&& packed_below(t2)
            &&& t2.entries matches Some(ch2) && ch2.len() > 0
            &&& forall|q: Seq<Seq<char>>, c: Seq<u8>|
                has_blob_from(t2, q, i as int, c) <==> (has_blob_from(node, q, i as int, c) || (
                suffix_eq(q, path_view(segs@), i as int) && c == content@))
        },
    decreases segs.len() - i,
{
    let ghost p = path_view(segs@);
    let ghost ii = i as int;
    let ghost orig = node;
    let node_id = node.id;
    let mut children = match node.entries {
        Some(v) => v,
        None => return unreached(),
    };
    let ghost ch0 = children@;
    let seg = &segs[i];
    proof {
        assert(p[ii] == seg@);
    }
    let mut k: usize = 0;
    let mut found: Option<usize> = None;
    while k < children.len()
        invariant
            k <= children.len(),
            children@ == ch0,
            seg@ == p[ii],
            found is None ==> forall|m: int| 0 <= m < k ==> ch0[m].id@ != p[ii],
            found matches Some(f) ==> f < children.len() && ch0[f as int].id@ == p[ii],
        decreases children.len() - k,
    {
        if found.is_none() && children[k].id == *seg {
            found = Some(k);
        }
        k += 1;
    }
    match found {
        None => {
            proof {
                assert(!insert_conflict(orig, p, ii));
            }
            if i + 1 == segs.len() {
                let leaf = Tree {
                    id: seg.clone(),
                    entry_type: EntryType::Blob(content.clone()),
                    entries: None,
                };
                children.push(leaf);
                let t2 = Tree { id: node_id, entry_type: EntryType::Tree, entries: Some(children) };
                proof {
                    let ch2 = ch0.push(leaf);
                    assert forall|j: int| 0 <= j < ch2.len() implies (#[trigger] ch2[j]).wf()
                        && uniq_names(ch2[j]) && packed_below(ch2[j]) && (ch2[j].entries matches Some(
                        g,
                    ) ==> g.len() > 0) by {
                        if j < ch0.len() {
                            assert(ch2[j] == ch0[j]);
                        } else {
                            assert(ch2[j] == leaf);
                            assert(leaf.wf() && uniq_names(leaf) && packed_below(leaf));
                        }
                    }
                    assert(t2.wf() && uniq_names(t2) && packed_below(t2));
                    assert forall|q: Seq<Seq<char>>, c: Seq<u8>|
                        has_blob_from(t2, q, ii, c) <==> (has_blob_from(orig, q, ii, c) || (
                        suffix_eq(q, p, ii) && c == content@)) by {
                        if has_blob_from(t2, q, ii, c) {
                            let j = choose|j: int|
                                0 <= j < ch2.len() && (#[trigger] ch2[j]).id@ == q[ii] && (if ii
                                    == q.len() - 1 {
                                    ch2[j].entry_type matches EntryType::Blob(b) && b@ == c
                                } else {
                                    has_blob_from(ch2[j], q, ii + 1, c)
                                });
                            if j < ch0.len() {
                                assert(ch2[j] == ch0[j]);
                                assert(has_blob_from(orig, q, ii, c));
                            } else {
                                assert(ch2[j] == leaf);
                                if ii == q.len() - 1 {
                                    assert(q.len() == p.len());
                                    assert(suffix_eq(q, p, ii) && c == content@);
                                } else {
                                    assert(false);
                                }
                            }
                        }
                        if has_blob_from(orig, q, ii, c) {
                            let j = choose|j: int|
                                0 <= j < ch0.len() && (#[trigger] ch0[j]).id@ == q[ii] && (if ii
                                    == q.len() - 1 {
                                    ch0[j].entry_type matches EntryType::Blob(b) && b@ == c
                                } else {
                                    has_blob_from(ch0[j], q, ii + 1, c)
                                });
                            assert(ch2[j] == ch0[j]);
                            assert(has_blob_from(t2, q, ii, c));
                        }
                        if suffix_eq(q, p, ii) && c == content@ {
                            let j = ch0.len() as int;
                            assert(ch2[j] == leaf);
                            assert(leaf.id@ == q[ii]);
                            assert(has_blob_from(t2, q, ii, c));
                        }
                    }
                }
                Ok(t2)
            } else {
                let fresh = Tree {
                    id: seg.clone(),
                    entry_type: EntryType::Tree,
                    entries: Some(Vec::new()),
                };
                let sub = match insert_path(fresh, segs, i + 1, content) {
                    Ok(s) => s,
                    Err(_) => return unreached(),
                };
                children.push(sub);
                let t2 = Tree { id: node_id, entry_type: EntryType::Tree, entries: Some(children) };
                proof {
                    let ch2 = ch0.push(sub);
                    assert forall|j: int| 0 <= j < ch2.len() implies (#[trigger] ch2[j]).wf()
                        && uniq_names(ch2[j]) && packed_below(ch2[j]) && (ch2[j].entries matches Some(
                        g,
                    ) ==> g.len() > 0) by {
                        if j < ch0.len() {
                            assert(ch2[j] == ch0[j]);
                        } else {
                            assert(ch2[j] == sub);
                        }
                    }
                    assert(t2.wf() && uniq_names(t2) && packed_below(t2));
                    assert forall|q: Seq<Seq<char>>, c: Seq<u8>|
                        has_blob_from(t2, q, ii, c) <==> (has_blob_from(orig, q, ii, c) || (
                        suffix_eq(q, p, ii) && c == content@)) by {
                        if has_blob_from(t2, q, ii, c) {
                            let j = choose|j: int|
                                0 <= j < ch2.len() && (#[trigger] ch2[j]).id@ == q[ii] && (if ii
                                    == q.len() - 1 {
                                    ch2[j].entry_type matches EntryType::Blob(b) && b@ == c
                                } else {
                                    has_blob_from(ch2[j], q, ii + 1, c)
                                });
                            if j < ch0.len() {
                                assert(ch2[j] == ch0[j]);
                                assert(has_blob_from(orig, q, ii, c));
                            } else {
                                assert(ch2[j] == sub);
                                if ii == q.len() - 1 {
                                    assert(false);
                                } else {
                                    assert(has_blob_from(sub, q, ii + 1, c));
                                    assert(suffix_eq(q, p, ii + 1) && c == content@);
                                    assert(q[ii] == sub.id@);
                                    assert(suffix_eq(q, p, ii));
                                }
                            }
                        }
                        if has_blob_from(orig, q, ii, c) {
                            let j = choose|j: int|
                                0 <= j < ch0.len() && (#[trigger] ch0[j]).id@ == q[ii] && (if ii
                                    == q.len() - 1 {
                                    ch0[j].entry_type matches EntryType::Blob(b) && b@ == c
                                } else {
                                    has_blob_from(ch0[j], q, ii + 1, c)
                                });
                            assert(ch2[j] == ch0[j]);
                            assert(has_blob_from(t2, q, ii, c));
                        }
                        if suffix_eq(q, p, ii) && c == content@ {
                            let j = ch0.len() as int;
                            assert(ch2[j] == sub);
                            assert(suffix_eq(q, p, ii + 1));
                            assert(has_blob_from(sub, q, ii + 1, c));
                            assert(has_blob_from(t2, q, ii, c));
                        }
                    }
                }
                Ok(t2)
            }
        },
        Some(kk) => {
            proof {
                assert(ch0[kk as int].id@ == p[ii]);
            }
            if i + 1 == segs.len() {
                proof {
                    assert(insert_conflict(orig, p, ii));
                }
                Err(CommandError::MalformedPath)
            } else {
                let child = children.remove(kk);
                proof {
                    assert(child == ch0[kk as int]);
                    assert(child.wf() && uniq_names(child) && packed_below(child));
                }
                match &child.entry_type {
                    EntryType::Blob(_) => {
                        proof {
                            assert(insert_conflict(orig, p, ii));
                        }
                        Err(CommandError::MalformedPath)
                    },
                    EntryType::Tree => {
                        let sub = match insert_path(child, segs, i + 1, content) {
                            Ok(s) => s,
                            Err(e) => {
                                proof {
                                    assert(insert_conflict(orig, p, ii));
                                }
                                return Err(e);
                            },
                        };
                        children.insert(kk, sub);
                        let t2 = Tree {
                            id: node_id,
                            entry_type: EntryType::Tree,
                            entries: Some(children),
                        };
                        proof {
                            let ch2 = children@;
                            assert(ch2 =~= ch0.update(kk as int, sub));
                            assert forall|j: int| 0 <= j < ch2.len() implies (#[trigger] ch2[j]).wf()
                                && uniq_names(ch2[j]) && packed_below(ch2[j]) && (
                            ch2[j].entries matches Some(g) ==> g.len() > 0) by {
                                if j == kk as int {
                                    assert(ch2[j] == sub);
                                } else {
                                    assert(ch2[j] == ch0[j]);
                                }
                            }
                            assert forall|j: int, m: int| 0 <= j < m < ch2.len() implies ch2[j].id@
                                != ch2[m].id@ by {
                                assert(ch0[j].id@ != ch0[m].id@);
                                assert(sub.id@ == ch0[kk as int].id@);
                            }
                            assert(t2.wf() && uniq_names(t2) && packed_below(t2));
                            assert(!insert_conflict(orig, p, ii)) by {
                                if insert_conflict(orig, p, ii) {
                                    let j = choose|j: int|
                                        0 <= j < ch0.len() && (#[trigger] ch0[j]).id@ == p[ii] && (
                                        if ii == p.len() - 1 {
                                            true
                                        } else {
                                            ch0[j].entry_type is Blob || insert_conflict(
                                                ch0[j],
                                                p,
                                                ii + 1,
                                            )
                                        });
                                    assert(j == kk as int);
                                    assert(false);
                                }
                            }
                            assert forall|q: Seq<Seq<char>>, c: Seq<u8>|
                                has_blob_from(t2, q, ii, c) <==> (has_blob_from(orig, q, ii, c)
                                    || (suffix_eq(q, p, ii) && c == content@)) by {
                                if has_blob_from(t2, q, ii, c) {
                                    let j = choose|j: int|
                                        0 <= j < ch2.len() && (#[trigger] ch2[j]).id@ == q[ii] && (
                                        if ii == q.len() - 1 {
                                            ch2[j].entry_type matches EntryType::Blob(b) && b@ == c
                                        } else {
                                            has_blob_from(ch2[j], q, ii + 1, c)
                                        });
                                    if j == kk as int {
                                        assert(ch2[j] == sub);
                                        if ii == q.len() - 1 {
                                            assert(false);
                                        } else {
                                            assert(has_blob_from(sub, q, ii + 1, c));
                                            if has_blob_from(child, q, ii + 1, c) {
                                                assert(q[ii] == ch0[kk as int].id@);
                                                assert(has_blob_from(orig, q, ii, c));
                                            } else {
                                                assert(suffix_eq(q, p, ii + 1) && c == content@);
                                                assert(q[ii] == sub.id@ && sub.id@ == child.id@);
                                                assert(suffix_eq(q, p, ii));
                                            }
                                        }
                                    } else {
                                        assert(ch2[j] == ch0[j]);
                                        assert(has_blob_from(orig, q, ii, c));
                                    }
                                }
                                if has_blob_from(orig, q, ii, c) {
                                    let j = choose|j: int|
                                        0 <= j < ch0.len() && (#[trigger] ch0[j]).id@ == q[ii] && (
                                        if ii == q.len() - 1 {
                                            ch0[j].entry_type matches EntryType::Blob(b) && b@ == c
                                        } else {
                                            has_blob_from(ch0[j], q, ii + 1, c)
                                        });
                                    if j == kk as int {
                                        if ii == q.len() - 1 {
                                            assert(false);
                                        } else {
                                            assert(has_blob_from(child, q, ii + 1, c));
                                            assert(has_blob_from(sub, q, ii + 1, c));
                                            assert(ch2[j] == sub && sub.id@ == q[ii]);
                                            assert(has_blob_from(t2, q, ii, c));
                                        }
                                    } else {
                                        assert(ch2[j] == ch0[j]);
                                        assert(has_blob_from(t2, q, ii, c));
                                    }
                                }
                                if suffix_eq(q, p, ii) && c == content@ {
                                    assert(suffix_eq(q, p, ii + 1));
                                    assert(has_blob_from(sub, q, ii + 1, c));
                                    assert(ch2[kk as int] == sub && sub.id@ == q[ii]);
                                    assert(has_blob_from(t2, q, ii, c));
                                }
                            }
                        }
                        Ok(t2)
                    },
                }
            }
        },
    }
}

/// The number of blob leaves of a model tree.
pub open spec fn blob_leaf_count(t: Tree) -> nat
    decreases t, 0int,
{
    match t.entry_type {
        EntryType::Blob(_) => 1,
        EntryType::Tree => if t.entries is Some {
            children_leaf_count(t.entries->Some_0@, 0)
        } else {
            0
        },
    }
}

/// The number of blob leaves of the trees `s[i..]` together.
pub open spec fn children_leaf_count(s: Seq<Tree>, i: int) -> nat
    decreases s, s.len() - i,
{
    if 0 <= i < s.len() {
        blob_leaf_count(s[i]) + children_leaf_count(s, i + 1)
    } else {
        0
    }
}

/// The depth of a model tree: how many directory levels stand below it.
pub open spec fn depth(t: Tree) -> nat
    decreases t, 0int,
{
    match t.entry_type {
        EntryType::Blob(_) => 0,
        EntryType::Tree => if t.entries is Some {
            1 + children_depth(t.entries->Some_0@, 0)
        } else {
            1
        },
    }
}

/// The largest depth among the trees `s[i..]`.
pub open spec fn children_depth(s: Seq<Tree>, i: int) -> nat
    decreases s, s.len() - i,
{
    if 0 <= i < s.len() {
        let d = depth(s[i]);
        let rest = children_depth(s, i + 1);
        if d > rest {
            d
        } else {
            rest
        }
    } else {
        0
    }
}

/// The number of files the store lists under the kept entries `ks[i..]`,
/// following subtrees at most `fuel` levels down: one per blob entry, plus
/// everything below each subtree entry.
pub open spec fn kept_count_from(r: git2::Repository, ks: Seq<RawEntry>, i: int, fuel: nat) -> nat
    decreases fuel, ks.len() - i,
{
    if 0 <= i < ks.len() {
        (match ks[i].kind {
            RawKind::BlobKind => 1nat,
            RawKind::TreeKind => if fuel > 0 {
                kept_count_from(
                    r,
                    kept_entries(store::store_tree(r, ks[i].id@)),
                    0,
                    (fuel - 1) as nat,
                )
            } else {
                0nat
            },
            RawKind::OtherKind => 0nat,
        }) + kept_count_from(r, ks, i + 1, fuel)
    } else {
        0nat
    }
}

/// The number of files the store lists under the tree object `oid`, down
/// to `fuel` levels: entries of unknown kind are no files and count for
/// nothing.
pub open spec fn store_file_count(r: git2::Repository, oid: Seq<char>, fuel: nat) -> nat {
    kept_count_from(r, kept_entries(store::store_tree(r, oid)), 0, fuel)
}

/// Root-commit completeness: a fully materialized tree holds exactly one
/// blob leaf per file the store lists under the tree identity, at any
/// store depth that covers the tree.  That each leaf's content matches the
/// store's blob byte for byte is part of `materializes` itself.
pub proof fn lemma_root_completeness(t: Tree, r: git2::Repository, oid: Seq<char>, fuel: nat)
    requires
        materializes(t, r, oid),
        fuel >= depth(t),
    ensures
        blob_leaf_count(t) == store_file_count(r, oid, fuel),
    decreases t, 0int,
{
    let ks = kept_entries(store::store_tree(r, oid));
    let children = t.entries->Some_0@;
    lemma_children_count(children, r, ks, 0, fuel);
}

/// The blob leaves of children matching kept entries count the same as the
/// files the store lists under those entries.
proof fn lemma_children_count(
    s: Seq<Tree>,
    r: git2::Repository,
    ks: Seq<RawEntry>,
    i: int,
    fuel: nat,
)
    requires
        s.len() == ks.len(),
        forall|m: int| 0 <= m < ks.len() ==> child_matches(#[trigger] s[m], r, ks[m]),
        fuel >= 1 + children_depth(s, i),
        0 <= i,
    ensures
        children_leaf_count(s, i) == kept_count_from(r, ks, i, fuel),
    decreases s, ks.len() - i + 1,
{
    if i < s.len() {
        assert(child_matches(s[i], r, ks[i]));
        assert(children_depth(s, i + 1) <= children_depth(s, i));
        lemma_children_count(s, r, ks, i + 1, fuel);
        match ks[i].kind {
            RawKind::BlobKind => {
                assert(blob_leaf_count(s[i]) == 1);
                assert(children_leaf_count(s, i) == 1 + children_leaf_count(s, i + 1));
                assert(kept_count_from(r, ks, i, fuel) == 1 + kept_count_from(r, ks, i + 1, fuel));
            },
            RawKind::TreeKind => {
                assert(depth(s[i]) <= children_depth(s, i));
                lemma_root_completeness(s[i], r, ks[i].id@, (fuel - 1) as nat);
                assert(blob_leaf_count(s[i]) == store_file_count(r, ks[i].id@, (fuel - 1) as nat));
                assert(kept_count_from(r, ks, i, fuel) == store_file_count(
                    r,
                    ks[i].id@,
                    (fuel - 1) as nat,
                ) + kept_count_from(r, ks, i + 1, fuel));
            },
            RawKind::OtherKind => {
                assert(false);
            },
        }
    } else {
        assert(children_leaf_count(s, i) == 0);
        assert(kept_count_from(r, ks, i, fuel) == 0);
    }
}

/// The delta `ds[k]` contributes a blob: it is not a deletion, its path
/// reads `q`, and the new side's blob content in `r` is `c`.
pub open spec fn delta_gives(
    ds: Seq<RawDelta>,
    r: git2::Repository,
    k: int,
    q: Seq<Seq<char>>,
    c: Seq<u8>,
) -> bool {
    &&& !ds[k].deleted
    &&& ds[k].path matches Some(pp) && path_view(pp@) == q && c == store::store_blob(
        r,
        ds[k].new_id@,
    )
}

/// Some delta among the first `m` of `ds` contributes the blob `(q, c)`.
pub open spec fn some_delta_upto(
    ds: Seq<RawDelta>,
    r: git2::Repository,
    m: int,
    q: Seq<Seq<char>>,
    c: Seq<u8>,
) -> bool {
    exists|k: int| 0 <= k < m && delta_gives(ds, r, k, q, c)
}

/// `t` is the sparse diff tree of the store's diff from tree `parent` to
/// tree `child`: it holds a blob exactly at the changed paths the diff
/// reports without deletion, each carrying the new side's byte content.
/// Deleted paths are omitted by design.
pub open spec fn sparse_diff_of(
    t: Tree,
    r: git2::Repository,
    parent: Seq<char>,
    child: Seq<char>,
) -> bool {
    let ds = store::store_diff(r, parent, child);
    &&& forall|k: int|
        0 <= k < ds.len() && !(#[trigger] ds[k]).deleted ==> (ds[k].path matches Some(pp)
            && pp@.len() > 0)
    &&& forall|q: Seq<Seq<char>>, c: Seq<u8>| #[trigger]
        has_blob_from(t, q, 0, c) <==> some_delta_upto(ds, r, ds.len() as int, q, c)
}

/// The set of paths present in a sparse diff tree equals exactly the set
/// of changed paths the store's diff reports without deletion: no
/// unchanged path appears, no changed path is missing.
pub proof fn lemma_sparse_exactness(t: Tree, r: git2::Repository, parent: Seq<char>, child: Seq<char>)
    requires
        sparse_diff_of(t, r, parent, child),
    ensures
        forall|q: Seq<Seq<char>>| #[trigger]
            has_path_from(t, q, 0) <==> exists|k: int|
                0 <= k < store::store_diff(r, parent, child).len() && !(#[trigger] store::store_diff(
                    r,
                    parent,
                    child,
                )[k]).deleted && (store::store_diff(r, parent, child)[k].path matches Some(pp)
                    && path_view(pp@) == q),
{
    let ds = store::store_diff(r, parent, child);
    assert forall|q: Seq<Seq<char>>| #[trigger]
        has_path_from(t, q, 0) implies exists|k: int|
        0 <= k < ds.len() && !(#[trigger] ds[k]).deleted && (ds[k].path matches Some(pp)
            && path_view(pp@) == q) by {
        let c = choose|c: Seq<u8>| has_blob_from(t, q, 0, c);
        assert(some_delta_upto(ds, r, ds.len() as int, q, c));
        let k = choose|k: int| 0 <= k < ds.len() && delta_gives(ds, r, k, q, c);
        assert(!ds[k].deleted && (ds[k].path matches Some(pp) && path_view(pp@) == q));
    }
    assert forall|q: Seq<Seq<char>>|
        (exists|k: int|
            0 <= k < ds.len() && !(#[trigger] ds[k]).deleted && (ds[k].path matches Some(pp)
                && path_view(pp@) == q)) implies #[trigger] has_path_from(t, q, 0) by {
        let k = choose|k: int|
            0 <= k < ds.len() && !(#[trigger] ds[k]).deleted && (ds[k].path matches Some(pp)
                && path_view(pp@) == q);
        let c = store::store_blob(r, ds[k].new_id@);
        assert(delta_gives(ds, r, k, q, c));
        assert(some_delta_upto(ds, r, ds.len() as int, q, c));
        assert(has_blob_from(t, q, 0, c));
    }
}

/// One materialized commit: its identity, signatures, message, parents,
/// root tree id, and the diff tree describing what it changed.
#[derive(Debug, PartialEq)]
pub struct Commit {
    pub id: String,
    pub author: Signature,
    pub committer: Signature,
    pub message: Option<String>,
    pub parent_ids: Vec<String>,
    pub tree_id: String,
    pub diff_tree: Tree,
}

/// The path suffixes `q[i..]` and `p[i..]` are prefix-related: one is a
/// prefix of the other, equality included.
pub open spec fn prefix_rel_from(q: Seq<Seq<char>>, p: Seq<Seq<char>>, i: int) -> bool {
    ||| (q.len() <= p.len() && forall|m: int| i <= m < q.len() ==> q[m] == p[m])
    ||| (p.len() <= q.len() && forall|m: int| i <= m < p.len() ==> q[m] == p[m])
}

/// The store's diff from `parent` to `child` carries a delta no sparse
/// tree can hold: a non-deleted delta whose path is absent or empty, or
/// whose path is prefix-related to an earlier non-deleted delta's path.
pub open spec fn bad_delta(r: git2::Repository, parent: Seq<char>, child: Seq<char>) -> bool {
    let ds = store::store_diff(r, parent, child);
    exists|k: int|
        0 <= k < ds.len() && !(#[trigger] ds[k]).deleted && (ds[k].path is None || (
        ds[k].path matches Some(pp) && (pp@.len() == 0 || exists|j: int|
            0 <= j < k && !(#[trigger] ds[j]).deleted && (ds[j].path matches Some(qq)
                && prefix_rel_from(path_view(qq@), path_view(pp@), 0)))))
}

/// A blob's presence below a node reads only the path's suffix from `i`.
proof fn lemma_has_blob_suffix(t: Tree, q1: Seq<Seq<char>>, q2: Seq<Seq<char>>, i: int, c: Seq<u8>)
    requires
        q1.len() == q2.len(),
        forall|m: int| i <= m < q1.len() ==> q1[m] == q2[m],
        has_blob_from(t, q1, i, c),
    ensures
        has_blob_from(t, q2, i, c),
    decreases q1.len() - i,
{
    let ch = t.entries->Some_0;
    let j = choose|j: int|
        0 <= j < ch.len() && (#[trigger] ch[j]).id@ == q1[i] && (if i == q1.len() - 1 {
            ch[j].entry_type matches EntryType::Blob(b) && b@ == c
        } else {
            has_blob_from(ch[j], q1, i + 1, c)
        });
    if i < q1.len() - 1 {
        lemma_has_blob_suffix(ch[j], q1, q2, i + 1, c);
    }
    assert(ch[j].id@ == q2[i]);
    assert(has_blob_from(t, q2, i, c));
}

/// A well-formed directory with at least one child, and no empty
/// directory below, holds some blob path.
proof fn lemma_dir_has_path(t: Tree, i: int)
    requires
        t.wf(),
        t.entry_type is Tree,
        packed_below(t),
        t.entries matches Some(ch) && ch.len() > 0,
        0 <= i,
    ensures
        exists|q: Seq<Seq<char>>| q.len() > i && #[trigger] has_path_from(t, q, i),
    decreases t,
{
    let ch = t.entries->Some_0;
    let c0 = ch[0];
    match c0.entry_type {
        EntryType::Blob(b) => {
            let q = Seq::new(
                (i + 1) as nat,
                |m: int| if m == i { c0.id@ } else { Seq::<char>::empty() },
            );
            assert(q[i] == c0.id@ && q.len() == i + 1);
            assert(has_blob_from(t, q, i, b@));
            assert(has_path_from(t, q, i));
        },
        EntryType::Tree => {
            assert(c0 == ch[0] && c0.wf() && packed_below(c0));
            assert(c0.entries is Some && c0.entries->Some_0.len() > 0);
            lemma_dir_has_path(c0, i + 1);
            let q1 = choose|q: Seq<Seq<char>>| q.len() > i + 1 && #[trigger] has_path_from(c0, q, i + 1);
            let c = choose|c: Seq<u8>| #[trigger] has_blob_from(c0, q1, i + 1, c);
            let q = q1.update(i, c0.id@);
            lemma_has_blob_suffix(c0, q1, q, i + 1, c);
            assert(q[i] == c0.id@);
            assert(has_blob_from(t, q, i, c));
            assert(has_path_from(t, q, i));
        },
    }
}

/// A collision on inserting `p[i..]` pins down an existing blob path that
/// is prefix-related to it.
proof fn lemma_conflict_witness(t: Tree, p: Seq<Seq<char>>, i: int)
    requires
        t.wf(),
        t.entry_type is Tree,
        packed_below(t),
        insert_conflict(t, p, i),
    ensures
        exists|q: Seq<Seq<char>>| #[trigger] has_path_from(t, q, i) && prefix_rel_from(q, p, i),
    decreases p.len() - i,
{
    let ch = t.entries->Some_0;
    let j = choose|j: int|
        0 <= j < ch.len() && (#[trigger] ch[j]).id@ == p[i] && (if i == p.len() - 1 {
            true
        } else {
            ch[j].entry_type is Blob || insert_conflict(ch[j], p, i + 1)
        });
    let cj = ch[j];
    if i == p.len() - 1 {
        match cj.entry_type {
            EntryType::Blob(b) => {
                assert(has_blob_from(t, p, i, b@));
                assert(has_path_from(t, p, i) && prefix_rel_from(p, p, i));
            },
            EntryType::Tree => {
                assert(cj == ch[j] && cj.wf() && packed_below(cj));
                assert(cj.entries is Some && cj.entries->Some_0.len() > 0);
                lemma_dir_has_path(cj, i + 1);
                let q1 = choose|q: Seq<Seq<char>>|
                    q.len() > i + 1 && #[trigger] has_path_from(cj, q, i + 1);
                let c = choose|c: Seq<u8>| #[trigger] has_blob_from(cj, q1, i + 1, c);
                let q = q1.update(i, p[i]);
                lemma_has_blob_suffix(cj, q1, q, i + 1, c);
                assert(has_blob_from(t, q, i, c));
                assert(has_path_from(t, q, i) && prefix_rel_from(q, p, i));
            },
        }
    } else {
        match cj.entry_type {
            EntryType::Blob(b) => {
                let q = Seq::new(
                    (i + 1) as nat,
                    |m: int| if m == i { p[i] } else { Seq::<char>::empty() },
                );
                assert(q[i] == p[i] && q.len() == i + 1);
                assert(has_blob_from(t, q, i, b@));
                assert(has_path_from(t, q, i) && prefix_rel_from(q, p, i));
            },
            EntryType::Tree => {
                assert(cj == ch[j] && cj.wf() && packed_below(cj));
                assert(insert_conflict(cj, p, i + 1));
                lemma_conflict_witness(cj, p, i + 1);
                let q1 = choose|q: Seq<Seq<char>>|
                    #[trigger] has_path_from(cj, q, i + 1) && prefix_rel_from(q, p, i + 1);
                let c = choose|c: Seq<u8>| #[trigger] has_blob_from(cj, q1, i + 1, c);
                let q = q1.update(i, p[i]);
                lemma_has_blob_suffix(cj, q1, q, i + 1, c);
                assert(has_blob_from(t, q, i, c));
                assert(prefix_rel_from(q, p, i));
                assert(has_path_from(t, q, i));
            },
        }
    }
}

impl Commit {
    /// Builds the model commit from the store's raw record: signature
    /// fields fall back to the sentinel, and the diff tree starts empty
    /// for the caller to fill in.
    pub fn from_raw(id: String, raw: RawCommit) -> (res: Commit)
        ensures
            res.id == id,
            res.author.name@ == or_unknown(raw.author_name),
            res.author.email@ == or_unknown(raw.author_email),
            res.committer.name@ == or_unknown(raw.committer_name),
            res.committer.email@ == or_unknown(raw.committer_email),
            res.message == raw.message,
            res.parent_ids == raw.parent_ids,
            res.tree_id == raw.tree_id,
            res.diff_tree.id@ == Seq::<char>::empty(),
            res.diff_tree.entry_type is Tree && (res.diff_tree.entries matches Some(es) && es@
                == Seq::<Tree>::empty()),
    {
        Commit {
            id,
            author: Signature::from_parts(raw.author_name, raw.author_email),
            committer: Signature::from_parts(raw.committer_name, raw.committer_email),
            message: raw.message,
            parent_ids: raw.parent_ids,
            tree_id: raw.tree_id,
            diff_tree: Tree::default(),
        }
    }

    /// Builds a commit's diff tree.  With no parent tree (a root commit)
    /// the child tree is materialized in full; with a parent tree the
    /// result is the sparse tree of the store's diff, holding the new
    /// content at exactly the changed paths, deletions omitted.
    pub fn load_diffs(
        parent_tree_id: Option<&String>,
        child_tree_id: &String,
        repo: &git2::Repository,
    ) -> (res: Result<Tree, CommandError>)
        ensures
            res matches Ok(t) ==> t.id@ == Seq::<char>::empty() && t.entry_type is Tree && t.wf(),
            parent_tree_id is None ==> (res matches Ok(t) ==> materializes(t, *repo, child_tree_id@)),
            parent_tree_id matches Some(pid) ==> (res matches Ok(t) ==> sparse_diff_of(
                t,
                *repo,
                pid@,
                child_tree_id@,
            ) && uniq_names(t) && packed_below(t)),
            parent_tree_id matches Some(pid) ==> (res matches Err(e) && e is MalformedPath
                ==> bad_delta(*repo, pid@, child_tree_id@)),
            parent_tree_id is None ==> (res matches Err(e) ==> e is ObjectResolution
                || e is MissingName || e is DepthExceeded),
            parent_tree_id matches Some(pid) ==> (res matches Err(e) ==> e is DiffComputation
                || e is BlobResolution || e is MalformedPath),
    {
        match parent_tree_id {
            None => Tree::try_from_git(repo, child_tree_id),
            Some(pid) => {
                let ds = match store::diff_trees(repo, pid.as_str(), child_tree_id.as_str()) {
                    Ok(v) => v,
                    Err(e) => return Err(
                        CommandError::DiffComputation(store::store_error_message(&e)),
                    ),
                };
                let ghost dsg = store::store_diff(*repo, pid@, child_tree_id@);
                let mut root = Tree::default();
                let mut m: usize = 0;
                while m < ds.len()
                    invariant
                        m <= ds.len(),
                        ds@ == dsg,
                        dsg == store::store_diff(*repo, pid@, child_tree_id@),
                        parent_tree_id matches Some(x) && x@ == pid@,
                        root.wf(),
                        root.entry_type is Tree,
                        uniq_names(root),
                        packed_below(root),
                        root.id@ == Seq::<char>::empty(),
                        forall|k: int|
                            0 <= k < m && !(#[trigger] dsg[k]).deleted ==> (dsg[k].path matches Some(
                                pp,
                            ) && pp@.len() > 0),
                        forall|q: Seq<Seq<char>>, c: Seq<u8>| #[trigger]
                            has_blob_from(root, q, 0, c) <==> some_delta_upto(
                                dsg,
                                *repo,
                                m as int,
                                q,
                                c,
                            ),
                    decreases ds.len() - m,
                {
                    let d = &ds[m];
                    if !d.deleted {
                        let segs = match &d.path {
                            Some(s) => s,
                            None => {
                                proof {
                                    assert(store::store_diff(*repo, pid@, child_tree_id@)[m as int]
                                        == dsg[m as int]);
                                    assert(!dsg[m as int].deleted && dsg[m as int].path is None);
                                    assert(bad_delta(*repo, pid@, child_tree_id@));
                                }
                                return Err(CommandError::MalformedPath);
                            },
                        };
                        if segs.len() == 0 {
                            proof {
                                assert(store::store_diff(*repo, pid@, child_tree_id@)[m as int]
                                    == dsg[m as int]);
                                assert(!dsg[m as int].deleted);
                                assert(dsg[m as int].path matches Some(pp) && pp@.len() == 0);
                                assert(bad_delta(*repo, pid@, child_tree_id@));
                            }
                            return Err(CommandError::MalformedPath);
                        }
                        let content = match store::lookup_blob(repo, d.new_id.as_str()) {
                            Ok(b) => b,
                            Err(e) => return Err(
                                CommandError::BlobResolution(store::store_error_message(&e)),
                            ),
                        };
                        let ghost prev = root;
                        let ghost pm = path_view(segs@);
                        root = match insert_path(root, segs, 0, &content) {
                            Ok(t) => t,
                            Err(_) => {
                                proof {
                                    assert(insert_conflict(prev, pm, 0));
                                    lemma_conflict_witness(prev, pm, 0);
                                    let q = choose|q: Seq<Seq<char>>| #[trigger]
                                        has_path_from(prev, q, 0) && prefix_rel_from(q, pm, 0);
                                    let c = choose|c: Seq<u8>| #[trigger]
                                        has_blob_from(prev, q, 0, c);
                                    assert(some_delta_upto(dsg, *repo, m as int, q, c));
                                    let j = choose|j: int|
                                        0 <= j < m && delta_gives(dsg, *repo, j, q, c);
                                    assert(!dsg[m as int].deleted);
                                    assert(dsg[m as int].path matches Some(pp) && path_view(pp@)
                                        == pm);
                                    assert(dsg[j].path matches Some(qq) && path_view(qq@) == q);
                                    assert(store::store_diff(*repo, pid@, child_tree_id@)[m as int]
                                        == dsg[m as int]);
                                    assert(store::store_diff(*repo, pid@, child_tree_id@)[j]
                                        == dsg[j]);
                                    assert(bad_delta(*repo, pid@, child_tree_id@));
                                }
                                return Err(CommandError::MalformedPath);
                            },
                        };
                        proof {
                            assert forall|q: Seq<Seq<char>>, c: Seq<u8>| #[trigger]
                                has_blob_from(root, q, 0, c) implies some_delta_upto(
                                dsg,
                                *repo,
                                m as int + 1,
                                q,
                                c,
                            ) by {
                                if has_blob_from(prev, q, 0, c) {
                                    let k = choose|k: int|
                                        0 <= k < m && delta_gives(dsg, *repo, k, q, c);
                                    assert(delta_gives(dsg, *repo, k, q, c));
                                } else {
                                    assert(suffix_eq(q, pm, 0) && c == content@);
                                    assert(q =~= pm);
                                    assert(delta_gives(dsg, *repo, m as int, q, c));
                                }
                            }
                            assert forall|q: Seq<Seq<char>>, c: Seq<u8>|
                                some_delta_upto(dsg, *repo, m as int + 1, q, c) implies #[trigger]
                            has_blob_from(root, q, 0, c) by {
                                let k = choose|k: int|
                                    0 <= k < m + 1 && delta_gives(dsg, *repo, k, q, c);
                                if k < m {
                                    assert(some_delta_upto(dsg, *repo, m as int, q, c));
                                    assert(has_blob_from(prev, q, 0, c));
                                } else {
                                    assert(q =~= pm);
                                    assert(suffix_eq(q, pm, 0) && c == content@);
                                }
                            }
                        }
                    } else {
                        proof {
                            assert forall|q: Seq<Seq<char>>, c: Seq<u8>| #[trigger]
                                has_blob_from(root, q, 0, c) implies some_delta_upto(
                                dsg,
                                *repo,
                                m as int + 1,
                                q,
                                c,
                            ) by {
                                let k = choose|k: int| 0 <= k < m && delta_gives(dsg, *repo, k, q, c);
                                assert(delta_gives(dsg, *repo, k, q, c));
                            }
                            assert forall|q: Seq<Seq<char>>, c: Seq<u8>|
                                some_delta_upto(dsg, *repo, m as int + 1, q, c) implies #[trigger]
                            has_blob_from(root, q, 0, c) by {
                                let k = choose|k: int|
                                    0 <= k < m + 1 && delta_gives(dsg, *repo, k, q, c);
                                assert(k < m);
                                assert(some_delta_upto(dsg, *repo, m as int, q, c));
                            }
                        }
                    }
                    m += 1;
                }
                Ok(root)
            },
        }
    }
}

/// One materialized branch: its name, the id of its tip commit, and its
/// commits in walk order (tip first).
#[derive(Debug, PartialEq)]
pub struct Branch {
    pub name: String,
    pub tip_commit_id: String,
    pub commits: Vec<Commit>,
}

/// The walked ids the walker keeps: commits with at most one recorded
/// parent.  Merge commits (two or more parents) are skipped by design.
pub open spec fn kept_ids(r: git2::Repository, ids: Seq<String>) -> Seq<String>
    decreases ids.len(),
{
    if ids.len() == 0 {
        Seq::empty()
    } else {
        let rest = kept_ids(r, ids.drop_last());
        if store::store_commit(r, ids.last()@).parent_ids@.len() <= 1 {
            rest.push(ids.last())
        } else {
            rest
        }
    }
}

/// The model commit `c` materializes the store's commit `id`: every field
/// copied from the record (signatures with the sentinel fallback), and the
/// diff tree built from the commit's parent count — the full tree for a
/// root commit, the sparse diff against the single parent's tree
/// otherwise.
pub open spec fn commit_matches(c: Commit, r: git2::Repository, id: Seq<char>) -> bool {
    let raw = store::store_commit(r, id);
    &&& c.id@ == id
    &&& c.author.name@ == or_unknown(raw.author_name)
    &&& c.author.email@ == or_unknown(raw.author_email)
    &&& c.committer.name@ == or_unknown(raw.committer_name)
    &&& c.committer.email@ == or_unknown(raw.committer_email)
    &&& c.message == raw.message
    &&& c.parent_ids == raw.parent_ids
    &&& c.tree_id == raw.tree_id
    &&& raw.parent_ids@.len() <= 1
    &&& if raw.parent_ids@.len() == 0 {
        materializes(c.diff_tree, r, raw.tree_id@)
    } else {
        sparse_diff_of(
            c.diff_tree,
            r,
            store::store_commit(r, raw.parent_ids@[0]@).tree_id@,
            raw.tree_id@,
        )
    }
}

/// Merge exclusion, taken to its edge: a walk whose every commit records
/// two or more parents keeps nothing, so such a branch materializes with
/// an empty commit sequence and no error.
pub proof fn lemma_all_merges_kept_none(r: git2::Repository, ids: Seq<String>)
    requires
        forall|i: int|
            0 <= i < ids.len() ==> store::store_commit(
                r,
                (#[trigger] ids[i])@,
            ).parent_ids@.len() >= 2,
    ensures
        kept_ids(r, ids).len() == 0,
    decreases ids.len(),
{
    if ids.len() > 0 {
        lemma_all_merges_kept_none(r, ids.drop_last());
    }
}

/// Every kept id occurs in the walked list.
proof fn lemma_kept_ids_member(r: git2::Repository, ids: Seq<String>)
    ensures
        forall|i: int|
            0 <= i < kept_ids(r, ids).len() ==> exists|a: int|
                #![trigger ids[a]]
                0 <= a < ids.len() && ids[a] == (#[trigger] kept_ids(r, ids)[i]),
    decreases ids.len(),
{
    if ids.len() > 0 {
        let front = ids.drop_last();
        lemma_kept_ids_member(r, front);
        let keep = kept_ids(r, ids);
        let kf = kept_ids(r, front);
        assert forall|i: int| #![trigger keep[i]] 0 <= i < keep.len() implies exists|a: int|
            #![trigger ids[a]]
            0 <= a < ids.len() && ids[a] == keep[i] by {
            if i < kf.len() {
                let a = choose|a: int| 0 <= a < front.len() && front[a] == kf[i];
                assert(ids[a] == keep[i]);
            } else {
                assert(ids[ids.len() - 1] == keep[i]);
            }
        }
    }
}

/// Every kept id records at most one parent.
proof fn lemma_kept_ids_parents(r: git2::Repository, ids: Seq<String>)
    ensures
        forall|i: int|
            0 <= i < kept_ids(r, ids).len() ==> store::store_commit(
                r,
                (#[trigger] kept_ids(r, ids)[i])@,
            ).parent_ids@.len() <= 1,
    decreases ids.len(),
{
    if ids.len() > 0 {
        let front = ids.drop_last();
        lemma_kept_ids_parents(r, front);
        let keep = kept_ids(r, ids);
        let kf = kept_ids(r, front);
        assert forall|i: int| #![trigger keep[i]] 0 <= i < keep.len() implies store::store_commit(
            r,
            keep[i]@,
        ).parent_ids@.len() <= 1 by {
            if i < kf.len() {
                assert(keep[i] == kf[i]);
            } else {
                assert(keep[i] == ids.last());
            }
        }
    }
}

/// Distinct walked ids keep distinct ids.
proof fn lemma_kept_ids_distinct(r: git2::Repository, ids: Seq<String>)
    requires
        forall|a: int, b: int| 0 <= a < b < ids.len() ==> (#[trigger] ids[a])@ != (#[trigger] ids[b])@,
    ensures
        forall|i: int, j: int|
            0 <= i < j < kept_ids(r, ids).len() ==> (#[trigger] kept_ids(r, ids)[i])@ != (
            #[trigger] kept_ids(r, ids)[j])@,
    decreases ids.len(),
{
    if ids.len() > 0 {
        let front = ids.drop_last();
        lemma_kept_ids_distinct(r, front);
        lemma_kept_ids_member(r, front);
        let keep = kept_ids(r, ids);
        let kf = kept_ids(r, front);
        assert forall|i: int, j: int| #![trigger keep[i], keep[j]] 0 <= i < j < keep.len() implies keep[i]@
            != keep[j]@ by {
            if j < kf.len() {
                assert(keep[i] == kf[i] && keep[j] == kf[j]);
            } else {
                assert(keep[j] == ids.last());
                assert(keep[i] == kf[i]);
                let a = choose|a: int| 0 <= a < front.len() && front[a] == kf[i];
                assert(ids[a]@ != ids[ids.len() - 1]@);
            }
        }
    }
}

/// Every walked id with at most one parent is kept.
proof fn lemma_kept_ids_complete(r: git2::Repository, ids: Seq<String>)
    ensures
        forall|a: int|
            0 <= a < ids.len() && store::store_commit(r, (#[trigger] ids[a])@).parent_ids@.len()
                <= 1 ==> exists|i: int|
                0 <= i < kept_ids(r, ids).len() && (#[trigger] kept_ids(r, ids)[i])@ == ids[a]@,
    decreases ids.len(),
{
    if ids.len() > 0 {
        let front = ids.drop_last();
        lemma_kept_ids_complete(r, front);
        let keep = kept_ids(r, ids);
        let kf = kept_ids(r, front);
        assert forall|a: int| #![trigger ids[a]]
            0 <= a < ids.len() && store::store_commit(r, ids[a]@).parent_ids@.len()
                <= 1 implies exists|i: int|
            0 <= i < keep.len() && (#[trigger] keep[i])@ == ids[a]@ by {
            if a < ids.len() - 1 {
                assert(front[a] == ids[a]);
                let i = choose|i: int| 0 <= i < kf.len() && kf[i]@ == front[a]@;
                assert(keep[i] == kf[i]);
            } else {
                let i = kf.len() as int;
                assert(keep[i] == ids.last());
            }
        }
    }
}

/// A walk whose first id has at most one parent keeps it first.
proof fn lemma_kept_ids_head(r: git2::Repository, ids: Seq<String>)
    requires
        ids.len() > 0,
        store::store_commit(r, ids[0]@).parent_ids@.len() <= 1,
    ensures
        kept_ids(r, ids).len() > 0,
        kept_ids(r, ids)[0]@ == ids[0]@,
    decreases ids.len(),
{
    if ids.len() == 1 {
        assert(ids.last() == ids[0]);
        assert(kept_ids(r, ids.drop_last()).len() == 0);
    } else {
        let front = ids.drop_last();
        assert(front[0] == ids[0]);
        lemma_kept_ids_head(r, front);
        assert(kept_ids(r, ids)[0] == kept_ids(r, front)[0]);
    }
}

/// The kept ids are a subsequence of the walked list: any two of them
/// stand at increasing positions of the walk.
proof fn lemma_kept_ids_subseq(r: git2::Repository, ids: Seq<String>)
    ensures
        forall|i: int, j: int|
            0 <= i < j < kept_ids(r, ids).len() ==> exists|a: int, b: int|
                #![trigger ids[a], ids[b]]
                0 <= a < b < ids.len() && ids[a] == (#[trigger] kept_ids(r, ids)[i]) && ids[b] == (
                #[trigger] kept_ids(r, ids)[j]),
    decreases ids.len(),
{
    if ids.len() > 0 {
        let front = ids.drop_last();
        lemma_kept_ids_subseq(r, front);
        lemma_kept_ids_member(r, front);
        let keep = kept_ids(r, ids);
        let kf = kept_ids(r, front);
        assert forall|i: int, j: int| #![trigger keep[i], keep[j]] 0 <= i < j < keep.len() implies exists|
            a: int,
            b: int,
        |
            #![trigger ids[a], ids[b]]
            0 <= a < b < ids.len() && ids[a] == keep[i] && ids[b] == keep[j] by {
            if j < kf.len() {
                let (a, b) = choose|a: int, b: int|
                    0 <= a < b < front.len() && front[a] == kf[i] && front[b] == kf[j];
                assert(ids[a] == keep[i] && ids[b] == keep[j]);
            } else {
                let a = choose|a: int| 0 <= a < front.len() && front[a] == kf[i];
                let b = ids.len() - 1;
                assert(ids[a] == keep[i] && ids[b] == keep[j]);
            }
        }
    }
}

/// What the walker's output inherits from a walk that starts at the tip,
/// visits each reachable commit exactly once, and yields children before
/// parents: the kept commits are pairwise distinct, each is the tip or an
/// ancestor of it, every reachable commit with at most one parent is
/// present, the tip (when kept) comes first, and no commit is an ancestor
/// of a later one.
proof fn lemma_commits_from_walk(r: git2::Repository, tip: Seq<char>, walk: Seq<String>, cs: Seq<Commit>)
    requires
        cs.len() == kept_ids(r, walk).len(),
        forall|i: int| 0 <= i < cs.len() ==> (#[trigger] cs[i]).id@ == kept_ids(r, walk)[i]@,
        walk.len() > 0,
        walk[0]@ == tip,
        forall|a: int, b: int|
            0 <= a < b < walk.len() ==> (#[trigger] walk[a])@ != (#[trigger] walk[b])@,
        forall|a: int|
            0 < a < walk.len() ==> store::reachable_from(r, (#[trigger] walk[a])@, tip),
        forall|id: Seq<char>| #[trigger]
            store::reachable_from(r, id, tip) ==> exists|a: int|
                0 <= a < walk.len() && (#[trigger] walk[a])@ == id,
        forall|a: int, b: int, n: nat|
            0 <= a < b < walk.len() ==> !(#[trigger] store::ancestor_within(
                r,
                walk[a]@,
                walk[b]@,
                n,
            )),
    ensures
        forall|i: int, j: int, n: nat|
            0 <= i < j < cs.len() ==> !(#[trigger] store::ancestor_within(
                r,
                cs[i].id@,
                cs[j].id@,
                n,
            )),
        forall|i: int, j: int| 0 <= i < j < cs.len() ==> (#[trigger] cs[i]).id@ != (#[trigger] cs[j]).id@,
        forall|i: int|
            0 <= i < cs.len() ==> (#[trigger] cs[i]).id@ == tip || store::reachable_from(
                r,
                cs[i].id@,
                tip,
            ),
        forall|id: Seq<char>| #[trigger]
            store::reachable_from(r, id, tip) && store::store_commit(
                r,
                id,
            ).parent_ids@.len() <= 1 ==> exists|i: int|
                0 <= i < cs.len() && (#[trigger] cs[i]).id@ == id,
        store::store_commit(r, tip).parent_ids@.len() <= 1 ==> cs.len() > 0 && cs[0].id@ == tip,
{
    let keep = kept_ids(r, walk);
    lemma_kept_ids_subseq(r, walk);
    lemma_kept_ids_member(r, walk);
    lemma_kept_ids_distinct(r, walk);
    lemma_kept_ids_complete(r, walk);
    assert forall|i: int, j: int, n: nat|
        0 <= i < j < cs.len() implies !store::ancestor_within(r, cs[i].id@, cs[j].id@, n) by {
        let (a, b) = choose|a: int, b: int|
            0 <= a < b < walk.len() && walk[a] == keep[i] && walk[b] == keep[j];
        assert(!store::ancestor_within(r, walk[a]@, walk[b]@, n));
        assert(cs[i].id@ == keep[i]@ && cs[j].id@ == keep[j]@);
    }
    assert forall|i: int| #![trigger cs[i]]
        0 <= i < cs.len() implies cs[i].id@ == tip || store::reachable_from(r, cs[i].id@, tip) by {
        assert(cs[i].id@ == keep[i]@);
        let a = choose|a: int| 0 <= a < walk.len() && walk[a] == keep[i];
        if a == 0 {
            assert(walk[0]@ == tip);
        } else {
            assert(store::reachable_from(r, walk[a]@, tip));
        }
    }
    assert forall|id: Seq<char>|
        #![trigger store::reachable_from(r, id, tip)]
        store::reachable_from(r, id, tip) && store::store_commit(r, id).parent_ids@.len()
            <= 1 implies exists|i: int| 0 <= i < cs.len() && (#[trigger] cs[i]).id@ == id by {
        let a = choose|a: int| 0 <= a < walk.len() && walk[a]@ == id;
        let i = choose|i: int| 0 <= i < keep.len() && keep[i]@ == walk[a]@;
        assert(cs[i].id@ == keep[i]@);
    }
    if store::store_commit(r, tip).parent_ids@.len() <= 1 {
        lemma_kept_ids_head(r, walk);
        assert(cs[0].id@ == keep[0]@);
    }
}

impl Branch {
    /// Walks the ancestry of `tip_commit_id` and yields one model commit
    /// per visited commit with at most one parent, in walk order (tip
    /// first); merge commits are skipped, never an error.  The store reads
    /// ids loosely (case-insensitively, and peeling tag ids), so a walk
    /// whose first id does not spell the requested tip is refused with
    /// `TipMismatch`.
    #[verifier::rlimit(100)]
    pub fn load_commits(tip_commit_id: &String, repo: &git2::Repository) -> (res: Result<
        Vec<Commit>,
        CommandError,
    >)
        ensures
            res matches Ok(cs) ==> {
                let keep = kept_ids(*repo, store::store_ancestry(*repo, tip_commit_id@));
                &&& cs@.len() == keep.len()
                &&& forall|i: int|
                    0 <= i < keep.len() ==> commit_matches(#[trigger] cs@[i], *repo, keep[i]@)
                &&& forall|i: int| 0 <= i < cs@.len() ==> (#[trigger] cs@[i]).parent_ids@.len() <= 1
            },
            res matches Ok(cs) ==> forall|i: int, j: int, n: nat|
                0 <= i < j < cs@.len() ==> !(#[trigger] store::ancestor_within(
                    *repo,
                    cs@[i].id@,
                    cs@[j].id@,
                    n,
                )),
            res matches Ok(cs) ==> forall|i: int, j: int|
                0 <= i < j < cs@.len() ==> (#[trigger] cs@[i]).id@ != (#[trigger] cs@[j]).id@,
            res matches Ok(cs) ==> forall|i: int|
                0 <= i < cs@.len() ==> (#[trigger] cs@[i]).id@ == tip_commit_id@
                    || store::reachable_from(*repo, cs@[i].id@, tip_commit_id@),
            res matches Ok(cs) ==> forall|id: Seq<char>| #[trigger]
                store::reachable_from(*repo, id, tip_commit_id@) && store::store_commit(
                    *repo,
                    id,
                ).parent_ids@.len() <= 1 ==> exists|i: int|
                    0 <= i < cs@.len() && (#[trigger] cs@[i]).id@ == id,
            res matches Ok(cs) ==> (store::store_commit(*repo, tip_commit_id@).parent_ids@.len()
                <= 1 ==> cs@.len() > 0 && cs@[0].id@ == tip_commit_id@),
            res matches Err(e) ==> (e is TipMismatch ==> store::store_ancestry(
                *repo,
                tip_commit_id@,
            ).len() > 0 && store::store_ancestry(*repo, tip_commit_id@)[0]@ != tip_commit_id@),
            res matches Err(e) ==> !(e is InvalidBranchName),
    {
        let ids = match store::walk_ancestry(repo, tip_commit_id.as_str()) {
            Ok(v) => v,
            Err(e) => return Err(CommandError::RevisionWalk(store::store_error_message(&e))),
        };
        let ghost walk = store::store_ancestry(*repo, tip_commit_id@);
        if !(ids[0] == *tip_commit_id) {
            return Err(CommandError::TipMismatch);
        }
        let mut commits: Vec<Commit> = Vec::new();
        let mut j: usize = 0;
        while j < ids.len()
            invariant
                j <= ids.len(),
                ids@ == walk,
                commits@.len() == kept_ids(*repo, walk.take(j as int)).len(),
                forall|i: int|
                    0 <= i < commits@.len() ==> commit_matches(
                        #[trigger] commits@[i],
                        *repo,
                        kept_ids(*repo, walk.take(j as int))[i]@,
                    ),
                forall|i: int|
                    0 <= i < commits@.len() ==> (#[trigger] commits@[i]).parent_ids@.len() <= 1,
            decreases ids.len() - j,
        {
            let id = &ids[j];
            proof {
                assert(walk.take(j as int + 1).drop_last() =~= walk.take(j as int));
                assert(walk.take(j as int + 1).last() == walk[j as int]);
            }
            let raw = match store::lookup_commit(repo, id.as_str()) {
                Ok(c) => c,
                Err(e) => return Err(CommandError::CommitResolution(store::store_error_message(&e))),
            };
            if raw.parent_ids.len() == 0 {
                let tree_id = raw.tree_id.clone();
                let mut c = Commit::from_raw(id.clone(), raw);
                let diffs = match Commit::load_diffs(None, &tree_id, repo) {
                    Ok(t) => t,
                    Err(e) => return Err(e),
                };
                c.diff_tree = diffs;
                commits.push(c);
            } else if raw.parent_ids.len() == 1 {
                let parent_raw = match store::lookup_commit(repo, raw.parent_ids[0].as_str()) {
                    Ok(c) => c,
                    Err(e) => return Err(
                        CommandError::CommitResolution(store::store_error_message(&e)),
                    ),
                };
                let parent_tree_id = parent_raw.tree_id;
                let tree_id = raw.tree_id.clone();
                let mut c = Commit::from_raw(id.clone(), raw);
                let diffs = match Commit::load_diffs(Some(&parent_tree_id), &tree_id, repo) {
                    Ok(t) => t,
                    Err(e) => return Err(e),
                };
                c.diff_tree = diffs;
                commits.push(c);
            }
            j += 1;
        }
        proof {
            assert(walk.take(walk.len() as int) =~= walk);
            let keep = kept_ids(*repo, walk);
            assert forall|i: int| 0 <= i < commits@.len() implies (#[trigger] commits@[i]).id@
                == keep[i]@ by {
                assert(commit_matches(commits@[i], *repo, keep[i]@));
            }
            assert forall|a: int| 0 < a < walk.len() implies store::reachable_from(
                *repo,
                (#[trigger] walk[a])@,
                tip_commit_id@,
            ) by {
                assert(ids@[a] == walk[a]);
            }
            lemma_commits_from_walk(*repo, tip_commit_id@, walk, commits@);
        }
        Ok(commits)
    }

    /// Assembles one branch from its record: resolves the name, walks the
    /// ancestry from the tip, and collects the classified commits.  Fails
    /// with `InvalidBranchName` exactly when the record carries no name
    /// representable as text.
    pub fn try_from_git(br: &BranchRef, repo: &git2::Repository) -> (res: Result<
        Branch,
        CommandError,
    >)
        ensures
            res matches Ok(b) ==> branch_matches(b, *repo, *br),
            br.name is None <==> (res matches Err(e) && e is InvalidBranchName),
    {
        let name = match &br.name {
            Some(n) => n.clone(),
            None => return Err(CommandError::InvalidBranchName),
        };
        let commits = match Branch::load_commits(&br.tip_id, repo) {
            Ok(cs) => cs,
            Err(e) => return Err(e),
        };
        Ok(Branch { name, tip_commit_id: br.tip_id.clone(), commits })
    }
}

/// The model branch `b` materializes the branch record `br`: the record's
/// name and tip, and the walked, classified commits of the tip's ancestry.
pub open spec fn branch_matches(b: Branch, r: git2::Repository, br: BranchRef) -> bool {
    &&& br.name matches Some(n) && b.name@ == n@
    &&& b.tip_commit_id@ == br.tip_id@
    &&& {
        let keep = kept_ids(r, store::store_ancestry(r, br.tip_id@));
        &&& b.commits@.len() == keep.len()
        &&& forall|i: int|
            0 <= i < keep.len() ==> commit_matches(#[trigger] b.commits@[i], r, keep[i]@)
    }
}

} // verus!
