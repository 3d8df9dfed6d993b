//! Planning the symlink lifecycle that makes interception possible.
//!
//! The filesystem work itself (creating directories, reading and writing
//! links) lives in the thin outer layer; it observes the state of the link
//! path, asks this module what to do, and performs exactly that action. The
//! decisions, and their idempotence, are what is verified here.

use vstd::prelude::*;

verus! {

/// What the filesystem shows at the link path before acting.
#[derive(Clone, Copy, Debug, PartialEq, Eq, Structural)]
pub enum LinkState {
    /// No entry exists at the link path.
    Absent,
    /// A symlink exists and already points at this tool's own executable.
    PointsAtSelf,
    /// Some other entry exists: a file, or a symlink pointing elsewhere.
    Other,
}

/// What to do at the link path.
#[derive(Clone, Copy, Debug, PartialEq, Eq, Structural)]
pub enum LinkAction {
    /// Create the symlink to this tool's executable.
    CreateLink,
    /// The link is already right: touch nothing.
    KeepExisting,
    /// Remove the existing entry, then create the symlink.
    ReplaceLink,
}

/// The action symlink creation takes for an observed state: create when
/// absent, keep an already-correct link untouched (no filesystem churn, no
/// needless permission errors on re-adding), replace anything else.
pub open spec fn spec_create_action(s: LinkState) -> LinkAction {
    match s {
        LinkState::Absent => LinkAction::CreateLink,
        LinkState::PointsAtSelf => LinkAction::KeepExisting,
        LinkState::Other => LinkAction::ReplaceLink,
    }
}

/// Decides the symlink-creation action for an observed link state.
pub fn create_action(s: LinkState) -> (r: LinkAction)
    ensures
        r == spec_create_action(s),
{
    match s {
        LinkState::Absent => LinkAction::CreateLink,
        LinkState::PointsAtSelf => LinkAction::KeepExisting,
        LinkState::Other => LinkAction::ReplaceLink,
    }
}

/// The link state after an action is performed successfully.
pub open spec fn spec_state_after(s: LinkState, a: LinkAction) -> LinkState {
    match a {
        LinkAction::KeepExisting => s,
        LinkAction::CreateLink => LinkState::PointsAtSelf,
        LinkAction::ReplaceLink => LinkState::PointsAtSelf,
    }
}

/// Law: creating the symlink is idempotent. One successful creation leaves a
/// link pointing at this executable, whatever stood there before, and a
/// second creation for the same alias and settings finds that link and
/// touches nothing — both calls succeed and exactly one link remains.
pub proof fn lemma_create_symlink_idempotent(s: LinkState)
    ensures
        spec_state_after(s, spec_create_action(s)) == LinkState::PointsAtSelf,
        spec_create_action(spec_state_after(s, spec_create_action(s)))
            == LinkAction::KeepExisting,
{
}

/// Whether symlink removal has anything to delete: absence of the link is
/// not an error, so removing twice is as good as removing once.
pub fn removal_needed(s: LinkState) -> (r: bool)
    ensures
        r == (s != LinkState::Absent),
{
    match s {
        LinkState::Absent => false,
        LinkState::PointsAtSelf => true,
        LinkState::Other => true,
    }
}

} // verus!
