use std::collections::VecDeque;

use vstd::prelude::*;
use vstd::string::StrSliceExecFns;
use vstd::string::StringExecFns;

use crate::database::query::{is_imported, snapshot_exists, SnapshotRow, SnapshotRowView};
use crate::engine::diff::pick_distinct;
use crate::engine::diff::lemma_pick_distinct;
use crate::models::{FileMetadata, FileRecord, Snapshot};
use crate::utils::file_lister::{has_unique_paths, sort_by_path, sorted_by_path};
use crate::utils::hashing::{blake3_hex, hash_content};
use crate::utils::ranking::is_sorted_copy;
use crate::utils::text::{parse_u64, u64_of};

verus! {

/// Why a commit could not be turned into a snapshot.
#[derive(Clone, Copy, Debug, PartialEq, Eq, Structural)]
pub enum ImportError {
    /// The committer time holds no token at all
    MissingTimestamp,
    /// The first token of the committer time is no count of seconds that a
    /// snapshot can be stamped with
    InvalidTimestamp,
}

/// The kind of object that an entry of a commit's tree points to.
#[derive(Clone, Copy, Debug, PartialEq, Eq, Structural)]
pub enum TreeEntryKind {
    Tree,
    Blob,
    BlobExecutable,
    Link,
    Commit,
}

/// Whether an entry of this kind is a file with content of its own.
pub open spec fn is_blob(kind: TreeEntryKind) -> bool {
    kind == TreeEntryKind::Blob || kind == TreeEntryKind::BlobExecutable
}

/// Decides whether an entry of a tree is a file with content of its own.
pub fn is_blob_entry(kind: TreeEntryKind) -> (yes: bool)
    ensures
        yes == is_blob(kind),
{
    match kind {
        TreeEntryKind::Blob => true,
        TreeEntryKind::BlobExecutable => true,
        _ => false,
    }
}

/// The mathematical value of a [`TreeEntry`].
pub struct TreeEntryView {
    pub name: Seq<char>,
    pub kind: TreeEntryKind,
    pub oid: Seq<char>,
}

/// One entry of a tree of a commit: a name, and the object under it.
#[derive(Debug)]
pub struct TreeEntry {
    /// The name of the entry within its tree
    pub name: String,
    pub kind: TreeEntryKind,
    /// The id of the object, in hexadecimal
    pub oid: String,
}

impl View for TreeEntry {
    type V = TreeEntryView;

    open spec fn view(&self) -> TreeEntryView {
        TreeEntryView { name: self.name@, kind: self.kind, oid: self.oid@ }
    }
}

impl DeepView for TreeEntry {
    type V = TreeEntryView;

    open spec fn deep_view(&self) -> TreeEntryView {
        self@
    }
}

/// The mathematical value of a [`Located`].
pub struct LocatedView {
    pub path: Seq<char>,
    pub oid: Seq<char>,
}

/// An object of a commit with its full path from the root of the commit's
/// tree. The root itself has the empty path.
#[derive(Debug)]
pub struct Located {
    pub path: String,
    /// The id of the object, in hexadecimal
    pub oid: String,
}

impl View for Located {
    type V = LocatedView;

    open spec fn view(&self) -> LocatedView {
        LocatedView { path: self.path@, oid: self.oid@ }
    }
}

impl DeepView for Located {
    type V = LocatedView;

    open spec fn deep_view(&self) -> LocatedView {
        self@
    }
}

/// The path of the entry `name` of the tree at `parent`: the two joined by
/// a slash, or the name alone directly under the root.
pub open spec fn child_path(parent: Seq<char>, name: Seq<char>) -> Seq<char> {
    if parent.len() == 0 {
        name
    } else {
        parent + seq!['/'] + name
    }
}

/// The entries of the tree at `parent` that are trees themselves, where
/// `trees` is set, or else those that are blobs, each with its full path, in
/// the order of the entries. Links and the commits of submodules are
/// neither.
pub open spec fn located_below(parent: Seq<char>, entries: Seq<TreeEntryView>, trees: bool) -> Seq<
    LocatedView,
>
    decreases entries.len(),
{
    if entries.len() == 0 {
        Seq::empty()
    } else {
        let rest = located_below(parent, entries.drop_last(), trees);
        let entry = entries.last();
        if (trees && entry.kind == TreeEntryKind::Tree) || (!trees && is_blob(entry.kind)) {
            rest.push(LocatedView { path: child_path(parent, entry.name), oid: entry.oid })
        } else {
            rest
        }
    }
}

/// The walk over the tree of a commit, breadth first: trees wait in a queue
/// to be read, and the blobs that reading them turned up are collected with
/// their full paths. Reading the trees is left to the caller, who asks for
/// the next tree and hands back its entries until no tree is waiting.
pub struct TreeWalk {
    waiting: VecDeque<Located>,
    found: Vec<Located>,
}

impl TreeWalk {
    /// The trees that are still to be read, the next one first.
    pub closed spec fn waiting(&self) -> Seq<LocatedView> {
        self.waiting.deep_view()
    }

    /// The blobs found so far, in the order in which they were found.
    pub closed spec fn found(&self) -> Seq<LocatedView> {
        self.found.deep_view()
    }

    /// Starts the walk at the tree of a commit.
    pub fn new(root_oid: &str) -> (walk: Self)
        ensures
            walk.waiting() == seq![LocatedView { path: Seq::empty(), oid: root_oid@ }],
            walk.found() == Seq::<LocatedView>::empty(),
    {
        let mut waiting: VecDeque<Located> = VecDeque::new();
        waiting.push_back(Located { path: String::new(), oid: root_oid.to_owned() });
        let walk = TreeWalk { waiting, found: Vec::new() };
        assert(walk.waiting() =~= seq![LocatedView { path: Seq::empty(), oid: root_oid@ }]);
        assert(walk.found() =~= Seq::<LocatedView>::empty());
        walk
    }

    /// Takes the next tree to read from the queue. There is none once the
    /// walk is over.
    pub fn next_tree(&mut self) -> (tree: Option<Located>)
        ensures
            final(self).found() == old(self).found(),
            tree is Some == (old(self).waiting().len() > 0),
            tree is Some ==> tree->0@ == old(self).waiting()[0] && final(self).waiting() == old(
                self,
            ).waiting().drop_first(),
            tree is None ==> final(self).waiting() == old(self).waiting(),
    {
        let tree = self.waiting.pop_front();
        proof {
            if tree is Some {
                assert(final(self).waiting() =~= old(self).waiting().drop_first());
            }
        }
        tree
    }

    /// Takes in the entries of the tree at `tree`: its trees line up to be
    /// read in their turn, its blobs are found.
    pub fn visit(&mut self, tree: &Located, entries: &[TreeEntry])
        ensures
            final(self).waiting() == old(self).waiting() + located_below(
                tree@.path,
                entries.deep_view(),
                true,
            ),
            final(self).found() == old(self).found() + located_below(
                tree@.path,
                entries.deep_view(),
                false,
            ),
    {
        let ghost all = entries.deep_view();
        let ghost parent = tree@.path;
        let mut i: usize = 0;
        assert(all.take(0) =~= Seq::<TreeEntryView>::empty());
        assert(self.waiting() =~= old(self).waiting() + located_below(parent, all.take(0), true));
        assert(self.found() =~= old(self).found() + located_below(parent, all.take(0), false));
        while i < entries.len()
            invariant
                i <= entries.len(),
                all == entries.deep_view(),
                parent == tree@.path,
                self.waiting() == old(self).waiting() + located_below(
                    parent,
                    all.take(i as int),
                    true,
                ),
                self.found() == old(self).found() + located_below(parent, all.take(i as int), false),
            decreases entries.len() - i,
        {
            let entry = &entries[i];
            let ghost waiting_before = self.waiting();
            let ghost found_before = self.found();
            proof {
                assert(all.take(i as int + 1).drop_last() =~= all.take(i as int));
                assert(all.take(i as int + 1).last() == entry@);
            }
            if is_blob_entry(entry.kind) {
                let item = Located {
                    path: join_path(tree.path.as_str(), entry.name.as_str()),
                    oid: entry.oid.clone(),
                };
                self.found.push(item);
                proof {
                    assert(self.found() =~= found_before.push(
                        LocatedView { path: child_path(parent, entry@.name), oid: entry@.oid },
                    ));
                    assert(self.waiting() =~= waiting_before);
                }
            } else if entry.kind == TreeEntryKind::Tree {
                let item = Located {
                    path: join_path(tree.path.as_str(), entry.name.as_str()),
                    oid: entry.oid.clone(),
                };
                self.waiting.push_back(item);
                proof {
                    assert(self.waiting() =~= waiting_before.push(
                        LocatedView { path: child_path(parent, entry@.name), oid: entry@.oid },
                    ));
                    assert(self.found() =~= found_before);
                }
            }
            i += 1;
        }
        assert(all.take(i as int) =~= all);
    }

    /// Ends the walk and hands out the blobs that it found.
    pub fn into_blobs(self) -> (blobs: Vec<Located>)
        ensures
            blobs.deep_view() == self.found(),
    {
        self.found
    }
}

/// Joins the path of a tree and the name of one of its entries.
fn join_path(parent: &str, name: &str) -> (path: String)
    ensures
        path@ == child_path(parent@, name@),
{
    proof {
        reveal_strlit("/");
    }
    if parent.is_empty() {
        name.to_owned()
    } else {
        let mut path = parent.to_owned();
        path.append("/");
        path.append(name);
        assert(path@ =~= parent@ + seq!['/'] + name@);
        path
    }
}

/// Whether `c` is white space, as Unicode defines it.
pub open spec fn is_whitespace(c: char) -> bool {
    let u = c as u32;
    (9 <= u <= 13) || u == 0x20 || u == 0x85 || u == 0xA0 || u == 0x1680 || (0x2000 <= u
        <= 0x200A) || u == 0x2028 || u == 0x2029 || u == 0x202F || u == 0x205F || u == 0x3000
}

/// Where the run of characters that starts at `from` ends: a run of white
/// space where `spaces` is set, a run of anything else where it is not.
pub open spec fn run_end(text: Seq<char>, from: int, spaces: bool) -> int
    decreases text.len() - from,
{
    if 0 <= from < text.len() && is_whitespace(text[from]) == spaces {
        run_end(text, from + 1, spaces)
    } else {
        from
    }
}

/// The first token of `text`: what stands between the leading white space
/// and the next white space. It is empty where `text` holds white space
/// only.
pub open spec fn first_token(text: Seq<char>) -> Seq<char> {
    let start = run_end(text, 0, true);
    text.subrange(start, run_end(text, start, false))
}

/// The time that the committer time of a commit names: its first token,
/// read as seconds since the Unix epoch.
pub open spec fn commit_time_of(committer_time: Seq<char>) -> Result<i64, ImportError> {
    let token = first_token(committer_time);
    if token.len() == 0 {
        Err(ImportError::MissingTimestamp)
    } else {
        match u64_of(token) {
            Some(seconds) => if seconds <= i64::MAX {
                Ok(seconds as i64)
            } else {
                Err(ImportError::InvalidTimestamp)
            },
            None => Err(ImportError::InvalidTimestamp),
        }
    }
}

fn char_is_whitespace(c: char) -> (yes: bool)
    ensures
        yes == is_whitespace(c),
{
    let u = c as u32;
    (9 <= u && u <= 13) || u == 0x20 || u == 0x85 || u == 0xA0 || u == 0x1680 || (0x2000 <= u
        && u <= 0x200A) || u == 0x2028 || u == 0x2029 || u == 0x202F || u == 0x205F || u
        == 0x3000
}

/// Finds the end of the run that starts at `from`.
fn find_run_end(text: &str, length: usize, from: usize, spaces: bool) -> (end: usize)
    requires
        length == text@.len(),
        from <= length,
    ensures
        end == run_end(text@, from as int, spaces),
        from <= end <= length,
{
    let mut i: usize = from;
    while i < length
        invariant
            from <= i <= length,
            length == text@.len(),
            run_end(text@, from as int, spaces) == run_end(text@, i as int, spaces),
        decreases length - i,
    {
        if char_is_whitespace(text.get_char(i)) != spaces {
            return i;
        }
        i += 1;
    }
    i
}

/// Reads the time of a commit from its committer time, such as
/// `1700000000 +0100`. A commit whose time cannot be read must stop the
/// import.
pub fn parse_commit_time(committer_time: &str) -> (time: Result<i64, ImportError>)
    ensures
        time == commit_time_of(committer_time@),
{
    let length = committer_time.unicode_len();
    let start = find_run_end(committer_time, length, 0, true);
    let end = find_run_end(committer_time, length, start, false);
    if start == end {
        return Err(ImportError::MissingTimestamp);
    }
    let token = committer_time.substring_char(start, end);
    match parse_u64(token) {
        Some(seconds) => if seconds <= 0x7fff_ffff_ffff_ffff {
            Ok(seconds as i64)
        } else {
            Err(ImportError::InvalidTimestamp)
        },
        None => Err(ImportError::InvalidTimestamp),
    }
}

/// The record of a file of a commit: its length, the hash of its content
/// and, as its modification time, the time of the commit. A commit does not
/// tell when a file was created or read.
pub open spec fn committed_record(
    path: Seq<char>,
    bytes: u64,
    content_hash: Seq<char>,
    committed_at: i64,
) -> FileRecord {
    FileRecord {
        path,
        bytes,
        modified_at: Some(committed_at),
        created_at: None,
        accessed_at: None,
        content_hash: Some(content_hash),
    }
}

/// Builds the record of a file of a commit from its hash.
pub fn record_with_hash(path: &str, bytes: u64, content_hash: String, committed_at: i64) -> (record:
    FileMetadata)
    ensures
        record@ == committed_record(path@, bytes, content_hash@, committed_at),
{
    FileMetadata {
        path: path.to_owned(),
        bytes,
        modified_at: Some(committed_at),
        created_at: None,
        accessed_at: None,
        content_hash: Some(content_hash),
    }
}

/// Builds the record of a blob of a commit: its content is hashed as the
/// content of a file on disk is, so that the two can be compared.
pub fn blob_record(path: &str, content: &[u8], committed_at: i64) -> (record: FileMetadata)
    ensures
        record@ == committed_record(
            path@,
            content@.len() as u64,
            blake3_hex(content@),
            committed_at,
        ),
{
    let hash = hash_content(content);
    record_with_hash(path, content.len() as u64, hash, committed_at)
}

/// Wraps the records of a commit into its snapshot: sorted by path, taken
/// at the time of the commit and marked with the commit's hash.
pub fn snapshot_from_commit(
    root: &str,
    commit_hash: &str,
    committed_at: i64,
    records: &[FileMetadata],
) -> (snapshot: Snapshot)
    ensures
        snapshot@.root == root@,
        snapshot@.timestamp == committed_at,
        snapshot@.git_commit_hash == Some(commit_hash@),
        is_sorted_copy(records.deep_view(), snapshot@.files),
        sorted_by_path(snapshot@.files),
        has_unique_paths(records.deep_view()) ==> snapshot@.is_well_formed(),
{
    Snapshot {
        root: root.to_owned(),
        timestamp: committed_at,
        git_commit_hash: Some(commit_hash.to_owned()),
        files: sort_by_path(records),
    }
}

/// The commits that no snapshot of `root` was imported from.
pub open spec fn not_imported(rows: Seq<SnapshotRowView>, root: Seq<char>) -> Set<Seq<char>> {
    Set::new(|commit: Seq<char>| !is_imported(rows, root, commit))
}

/// The commits of `history` that are still to be imported for `root`, each
/// once, in the order of the history.
pub open spec fn pending_commits(
    rows: Seq<SnapshotRowView>,
    root: Seq<char>,
    history: Seq<Seq<char>>,
) -> Seq<Seq<char>> {
    pick_distinct(history, not_imported(rows, root))
}

/// Whether `list` names `commit`.
fn names_commit(list: &Vec<String>, commit: &String) -> (found: bool)
    ensures
        found == list.deep_view().contains(commit@),
{
    let mut i: usize = 0;
    while i < list.len()
        invariant
            i <= list.len(),
            forall|k: int| 0 <= k < i ==> list.deep_view()[k] != commit@,
        decreases list.len() - i,
    {
        if list[i] == *commit {
            assert(list.deep_view()[i as int] == commit@);
            return true;
        }
        i += 1;
    }
    false
}

/// Lists the commits of `history` that still have to be imported for
/// `root`: those that no stored snapshot of `root` came from. Commits that
/// were imported before are passed over, which makes an import safe to run
/// again.
pub fn commits_to_import(rows: &[SnapshotRow], root: &str, history: &[String]) -> (pending: Vec<
    String,
>)
    ensures
        pending.deep_view() == pending_commits(rows.deep_view(), root@, history.deep_view()),
{
    let ghost all = history.deep_view();
    let ghost wanted = not_imported(rows.deep_view(), root@);
    let mut pending: Vec<String> = Vec::new();
    let mut i: usize = 0;
    assert(pending.deep_view() =~= pick_distinct(all.take(0), wanted));
    while i < history.len()
        invariant
            i <= history.len(),
            all == history.deep_view(),
            wanted == not_imported(rows.deep_view(), root@),
            pending.deep_view() == pick_distinct(all.take(i as int), wanted),
        decreases history.len() - i,
    {
        let commit = &history[i];
        proof {
            assert(all.take(i as int + 1).drop_last() =~= all.take(i as int));
            assert(all.take(i as int + 1).last() == commit@);
        }
        if !snapshot_exists(rows, root, commit.as_str()) && !names_commit(&pending, commit) {
            let ghost earlier = pending.deep_view();
            pending.push(commit.clone());
            assert(pending.deep_view() =~= earlier.push(commit@));
        }
        i += 1;
    }
    assert(all.take(i as int) =~= all);
    pending
}

/// Importing the same history again imports nothing: once every pending
/// commit has its snapshot among the rows, and no row was taken away, no
/// commit of the history is pending.
pub proof fn lemma_import_is_idempotent(
    before: Seq<SnapshotRowView>,
    after: Seq<SnapshotRowView>,
    root: Seq<char>,
    history: Seq<Seq<char>>,
)
    requires
        forall|commit: Seq<char>|
            is_imported(before, root, commit) ==> is_imported(after, root, commit),
        forall|commit: Seq<char>|
            pending_commits(before, root, history).contains(commit) ==> is_imported(
                after,
                root,
                commit,
            ),
    ensures
        pending_commits(after, root, history).len() == 0,
{
    let again = pending_commits(after, root, history);
    if again.len() > 0 {
        let commit = again[0];
        assert(again.contains(commit));
        lemma_pick_distinct(history, not_imported(after, root));
        lemma_pick_distinct(history, not_imported(before, root));
        assert(history.contains(commit) && !is_imported(after, root, commit));
        if is_imported(before, root, commit) {
        } else {
            assert(not_imported(before, root).contains(commit));
            assert(pending_commits(before, root, history).contains(commit));
        }
    }
}

} // verus!
