//! Identities shared across the view's revisions: revision stamps, node
//! handles and view references.
use vstd::prelude::*;

use crate::error::{is_conflict, CoreError, RevisionConflict};
use crate::export::str_eq;

verus! {

/// One committed revision of one session generation.
#[derive(Debug, Clone, PartialEq, Eq)]
pub struct RevisionStamp {
    pub generation: String,
    pub revision: String,
}

/// A source node as one session generation names it.
#[derive(Debug, Clone, PartialEq, Eq)]
pub struct NodeHandle {
    pub generation: String,
    pub node_id: u32,
}

/// Something in the view, named by what it is rather than by its slot.
#[derive(Debug, Clone, PartialEq, Eq)]
pub enum ViewReference {
    Node { handle: NodeHandle },
    Type { name: String },
}

/// The code of a stale revision stamp.
pub open spec fn revision_conflict_code() -> Seq<char> {
    "revision-conflict"@
}

/// The message of a stale revision stamp.
pub open spec fn revision_conflict_message() -> Seq<char> {
    "the shared view changed; refresh and retry"@
}

/// A copy of a stamp, field by field.
pub fn copy_stamp(s: &RevisionStamp) -> (r: RevisionStamp)
    ensures
        r == *s,
{
    RevisionStamp { generation: s.generation.clone(), revision: s.revision.clone() }
}

/// The stamp a caller read must be the current one: the same generation
/// and the same revision; otherwise a revision conflict that carries both.
pub fn check_stamp(expected: &RevisionStamp, actual: &RevisionStamp) -> (r: Result<(), CoreError>)
    ensures
        (expected.generation@ == actual.generation@ && expected.revision@ == actual.revision@) ==> r is Ok,
        !(expected.generation@ == actual.generation@ && expected.revision@ == actual.revision@) ==> (r matches Err(e)
            && is_conflict(e, revision_conflict_code(), *expected, *actual, revision_conflict_message())),
{
    if str_eq(expected.generation.as_str(), actual.generation.as_str()) && str_eq(
        expected.revision.as_str(),
        actual.revision.as_str(),
    ) {
        Ok(())
    } else {
        Err(
            CoreError::Conflict(
                RevisionConflict {
                    code: "revision-conflict".to_owned(),
                    expected: copy_stamp(expected),
                    actual: copy_stamp(actual),
                    message: "the shared view changed; refresh and retry".to_owned(),
                },
            ),
        )
    }
}

} // verus!
