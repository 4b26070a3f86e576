use vstd::prelude::*;
use vstd::string::StringExecFns;

use crate::database::query::{
    get_latest_snapshot_id, get_penultimate_snapshot_id, has_history, has_snapshot, is_latest_id,
    is_penultimate_id, lemma_latest_is_unique, lemma_penultimate_is_unique, SnapshotRow,
    SnapshotRowView,
};
use crate::utils::text::{
    i64_of, is_keyword, parse_i64, push_signed_decimal, same_ignoring_ascii_case,
    signed_decimal_text,
};

verus! {

/// A revision as the user named it, parsed once where it enters.
#[derive(Clone, Copy, Debug, PartialEq, Eq, Structural)]
pub enum RevisionToken {
    /// The live directory tree
    WorkingTree,
    /// The newest stored snapshot
    Latest,
    /// The stored snapshot before the newest
    Penultimate,
    /// The stored snapshot with this id
    ExplicitId(i64),
}

/// Why a revision could not be turned into a record set.
#[derive(Clone, Copy, Debug, PartialEq, Eq, Structural)]
pub enum RevisionError {
    /// The text is neither a known token nor an integer
    InvalidRevision,
    /// No stored snapshot answers to the revision
    RevisionNotFound,
    /// The root has one snapshot only, so none comes before the newest
    InsufficientHistory,
    /// A second revision was given without a first
    InvalidArguments,
}

/// Where the records of a resolved revision come from.
#[derive(Clone, Copy, Debug, PartialEq, Eq, Structural)]
pub enum RecordSource {
    /// A fresh scan of the live tree
    WorkingTree,
    /// The files of the stored snapshot with this id
    Stored(i64),
}

impl RecordSource {
    /// The name that a report gives the record set.
    pub open spec fn label_text(self) -> Seq<char> {
        match self {
            RecordSource::WorkingTree => "current state"@,
            RecordSource::Stored(id) => "snapshot "@ + signed_decimal_text(id as int),
        }
    }

    /// The name that a report gives the record set.
    pub fn label(&self) -> (label: String)
        ensures
            label@ == self.label_text(),
    {
        match self {
            RecordSource::WorkingTree => String::from_str("current state"),
            RecordSource::Stored(id) => {
                let mut label = String::from_str("snapshot ");
                push_signed_decimal(&mut label, *id);
                label
            },
        }
    }
}

impl RevisionError {
    /// What the user is told, `revision` being the revision as it was
    /// written.
    pub open spec fn message_text(self, revision: Seq<char>) -> Seq<char> {
        match self {
            RevisionError::InsufficientHistory =>
                "Not enough snapshots to compare. Only one snapshot exists."@,
            RevisionError::InvalidArguments => "Invalid combination of arguments"@,
            RevisionError::InvalidRevision => "Invalid revision '"@ + revision
                + "': expected HEAD, HEAD~1 or a snapshot id"@,
            RevisionError::RevisionNotFound => "Could not find a snapshot for revision '"@
                + revision + "'"@,
        }
    }

    /// What the user is told, `revision` being the revision as it was
    /// written.
    pub fn message(&self, revision: &str) -> (message: String)
        ensures
            message@ == self.message_text(revision@),
    {
        match self {
            RevisionError::InsufficientHistory => String::from_str(
                "Not enough snapshots to compare. Only one snapshot exists.",
            ),
            RevisionError::InvalidArguments => String::from_str("Invalid combination of arguments"),
            RevisionError::InvalidRevision => {
                let mut message = String::from_str("Invalid revision '");
                message.append(revision);
                message.append("': expected HEAD, HEAD~1 or a snapshot id");
                message
            },
            RevisionError::RevisionNotFound => {
                let mut message = String::from_str("Could not find a snapshot for revision '");
                message.append(revision);
                message.append("'");
                message
            },
        }
    }
}

/// The word for the newest snapshot.
pub open spec fn latest_keyword() -> Seq<char> {
    seq!['H', 'E', 'A', 'D']
}

/// The word for the snapshot before the newest.
pub open spec fn penultimate_keyword() -> Seq<char> {
    seq!['H', 'E', 'A', 'D', '~', '1']
}

/// The token that `text` names: one of the two words, whatever the case of
/// their letters, or else a decimal snapshot id.
pub open spec fn token_of(text: Seq<char>) -> Result<RevisionToken, RevisionError> {
    if same_ignoring_ascii_case(text, latest_keyword()) {
        Ok(RevisionToken::Latest)
    } else if same_ignoring_ascii_case(text, penultimate_keyword()) {
        Ok(RevisionToken::Penultimate)
    } else {
        match i64_of(text) {
            Some(id) => Ok(RevisionToken::ExplicitId(id)),
            None => Err(RevisionError::InvalidRevision),
        }
    }
}

/// The two revisions that a comparison is made between, by the number of
/// revisions given: none compares the last two snapshots, one compares the
/// live tree with it, two compare the one with the other.
pub open spec fn comparison_of(first: Option<Seq<char>>, second: Option<Seq<char>>) -> Result<
    (RevisionToken, RevisionToken),
    RevisionError,
> {
    match (first, second) {
        (None, None) => Ok((RevisionToken::Penultimate, RevisionToken::Latest)),
        (Some(a), None) => match token_of(a) {
            Ok(token) => Ok((RevisionToken::WorkingTree, token)),
            Err(e) => Err(e),
        },
        (Some(a), Some(b)) => match token_of(a) {
            Ok(left) => match token_of(b) {
                Ok(right) => Ok((left, right)),
                Err(e) => Err(e),
            },
            Err(e) => Err(e),
        },
        (None, Some(_)) => Err(RevisionError::InvalidArguments),
    }
}

/// The revisions of the two sides of a comparison as they are named in
/// messages: as the user wrote them, the two sides of the comparison of the
/// last two snapshots by their words, and the live tree by no text at all.
pub open spec fn sides_of(first: Option<Seq<char>>, second: Option<Seq<char>>) -> (
    Seq<char>,
    Seq<char>,
) {
    match (first, second) {
        (None, None) => (penultimate_keyword(), latest_keyword()),
        (Some(a), None) => (Seq::empty(), a),
        (Some(a), Some(b)) => (a, b),
        (None, Some(b)) => (Seq::empty(), b),
    }
}

/// The first of the given revisions that names no token, if there is one.
pub open spec fn first_invalid_of(first: Option<Seq<char>>, second: Option<Seq<char>>) -> Option<
    Seq<char>,
> {
    if first is Some && token_of(first->0) is Err {
        first
    } else if second is Some && token_of(second->0) is Err {
        second
    } else {
        None
    }
}

/// Whether some row has the id `id`.
pub open spec fn has_id(rows: Seq<SnapshotRowView>, id: i64) -> bool {
    exists|i: int| 0 <= i < rows.len() && #[trigger] rows[i].id == id
}

/// Whether `outcome` is what `token` resolves to for `root`, given the rows
/// of the store.
pub open spec fn resolves_to(
    token: RevisionToken,
    rows: Seq<SnapshotRowView>,
    root: Seq<char>,
    outcome: Result<RecordSource, RevisionError>,
) -> bool {
    match token {
        RevisionToken::WorkingTree => outcome == Ok::<RecordSource, RevisionError>(
            RecordSource::WorkingTree,
        ),
        RevisionToken::Latest => if has_snapshot(rows, root) {
            outcome matches Ok(RecordSource::Stored(id)) && is_latest_id(rows, root, id)
        } else {
            outcome == Err::<RecordSource, RevisionError>(RevisionError::RevisionNotFound)
        },
        RevisionToken::Penultimate => if has_history(rows, root) {
            outcome matches Ok(RecordSource::Stored(id)) && is_penultimate_id(rows, root, id)
        } else if has_snapshot(rows, root) {
            outcome == Err::<RecordSource, RevisionError>(RevisionError::InsufficientHistory)
        } else {
            outcome == Err::<RecordSource, RevisionError>(RevisionError::RevisionNotFound)
        },
        RevisionToken::ExplicitId(id) => if has_id(rows, id) {
            outcome == Ok::<RecordSource, RevisionError>(RecordSource::Stored(id))
        } else {
            outcome == Err::<RecordSource, RevisionError>(RevisionError::RevisionNotFound)
        },
    }
}

/// A token resolves to one outcome only.
pub proof fn lemma_resolution_is_unique(
    token: RevisionToken,
    rows: Seq<SnapshotRowView>,
    root: Seq<char>,
    one: Result<RecordSource, RevisionError>,
    other: Result<RecordSource, RevisionError>,
)
    requires
        resolves_to(token, rows, root, one),
        resolves_to(token, rows, root, other),
    ensures
        one == other,
{
    match token {
        RevisionToken::Latest => {
            if has_snapshot(rows, root) {
                lemma_latest_is_unique(rows, root, one->Ok_0->Stored_0, other->Ok_0->Stored_0);
            }
        },
        RevisionToken::Penultimate => {
            if has_history(rows, root) {
                lemma_penultimate_is_unique(
                    rows,
                    root,
                    one->Ok_0->Stored_0,
                    other->Ok_0->Stored_0,
                );
            }
        },
        _ => {},
    }
}

/// Reads a revision as the user wrote it.
pub fn parse_revision(text: &str) -> (token: Result<RevisionToken, RevisionError>)
    ensures
        token == token_of(text@),
{
    proof {
        reveal_strlit("HEAD");
        reveal_strlit("HEAD~1");
        assert("HEAD"@ =~= latest_keyword());
        assert("HEAD~1"@ =~= penultimate_keyword());
    }
    if is_keyword(text, "HEAD") {
        Ok(RevisionToken::Latest)
    } else if is_keyword(text, "HEAD~1") {
        Ok(RevisionToken::Penultimate)
    } else {
        match parse_i64(text) {
            Some(id) => Ok(RevisionToken::ExplicitId(id)),
            None => Err(RevisionError::InvalidRevision),
        }
    }
}

/// Chooses the two sides of a comparison from the revisions that the user
/// gave. One revision alone is compared with the live tree, not with another
/// snapshot.
pub fn plan_comparison(first: Option<&str>, second: Option<&str>) -> (plan: Result<
    (RevisionToken, RevisionToken),
    RevisionError,
>)
    ensures
        plan == comparison_of(first.deep_view(), second.deep_view()),
{
    match (first, second) {
        (None, None) => Ok((RevisionToken::Penultimate, RevisionToken::Latest)),
        (Some(a), None) => match parse_revision(a) {
            Ok(token) => Ok((RevisionToken::WorkingTree, token)),
            Err(e) => Err(e),
        },
        (Some(a), Some(b)) => match parse_revision(a) {
            Ok(left) => match parse_revision(b) {
                Ok(right) => Ok((left, right)),
                Err(e) => Err(e),
            },
            Err(e) => Err(e),
        },
        (None, Some(_)) => Err(RevisionError::InvalidArguments),
    }
}

/// Names the two sides of a comparison for messages.
pub fn sides_as_written(first: Option<&str>, second: Option<&str>) -> (sides: (String, String))
    ensures
        (sides.0@, sides.1@) == sides_of(first.deep_view(), second.deep_view()),
{
    proof {
        reveal_strlit("HEAD");
        reveal_strlit("HEAD~1");
        assert("HEAD"@ =~= latest_keyword());
        assert("HEAD~1"@ =~= penultimate_keyword());
    }
    match (first, second) {
        (None, None) => (String::from_str("HEAD~1"), String::from_str("HEAD")),
        (Some(a), None) => (String::new(), a.to_owned()),
        (Some(a), Some(b)) => (a.to_owned(), b.to_owned()),
        (None, Some(b)) => (String::new(), b.to_owned()),
    }
}

/// Finds the revision that the user has to correct: the first of the given
/// ones that names no token.
pub fn first_invalid(first: Option<&str>, second: Option<&str>) -> (invalid: Option<String>)
    ensures
        invalid.deep_view() == first_invalid_of(first.deep_view(), second.deep_view()),
{
    match first {
        Some(a) => if parse_revision(a).is_err() {
            return Some(a.to_owned());
        },
        None => {},
    }
    match second {
        Some(b) => if parse_revision(b).is_err() {
            return Some(b.to_owned());
        },
        None => {},
    }
    None
}

/// Whether some row has the id `id`.
fn id_is_stored(rows: &[SnapshotRow], id: i64) -> (found: bool)
    ensures
        found == has_id(rows.deep_view(), id),
{
    let mut i: usize = 0;
    while i < rows.len()
        invariant
            i <= rows.len(),
            forall|k: int| 0 <= k < i ==> #[trigger] rows.deep_view()[k].id != id,
        decreases rows.len() - i,
    {
        if rows[i].id == id {
            assert(rows.deep_view()[i as int].id == id);
            return true;
        }
        i += 1;
    }
    false
}

/// Resolves a token to the source of its records, given the rows of the
/// table of snapshots.
pub fn resolve(token: RevisionToken, rows: &[SnapshotRow], root: &str) -> (outcome: Result<
    RecordSource,
    RevisionError,
>)
    ensures
        resolves_to(token, rows.deep_view(), root@, outcome),
{
    match token {
        RevisionToken::WorkingTree => Ok(RecordSource::WorkingTree),
        RevisionToken::Latest => match get_latest_snapshot_id(rows, root) {
            Some(id) => Ok(RecordSource::Stored(id)),
            None => Err(RevisionError::RevisionNotFound),
        },
        RevisionToken::Penultimate => match get_penultimate_snapshot_id(rows, root) {
            Some(id) => Ok(RecordSource::Stored(id)),
            None => match get_latest_snapshot_id(rows, root) {
                Some(_) => Err(RevisionError::InsufficientHistory),
                None => Err(RevisionError::RevisionNotFound),
            },
        },
        RevisionToken::ExplicitId(id) => if id_is_stored(rows, id) {
            Ok(RecordSource::Stored(id))
        } else {
            Err(RevisionError::RevisionNotFound)
        },
    }
}

} // verus!
