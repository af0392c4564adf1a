//! Which filesystem events count as a change to a working copy.

use vstd::prelude::*;

verus! {

/// The kind of a filesystem event, as far as change detection cares.
#[derive(Clone, Copy, Debug, PartialEq, Eq, Structural)]
pub enum EventClass {
    Create,
    Modify,
    Remove,
    /// A change of permissions, times or other metadata only.
    Metadata,
    Access,
    Other,
}

/// Creation, modification and removal are changes; nothing else is.
pub open spec fn is_change(kind: EventClass) -> bool {
    kind == EventClass::Create || kind == EventClass::Modify || kind == EventClass::Remove
}

/// An event qualifies when it is a change and at least one of the paths it
/// touches is not ignored (`ignored[i]` tells it of the `i`-th path).
pub open spec fn event_qualifies(kind: EventClass, ignored: Seq<bool>) -> bool {
    is_change(kind) && exists|i: int| 0 <= i < ignored.len() && !ignored[i]
}

/// Whether `kind` is a change.
pub fn is_change_kind(kind: EventClass) -> (r: bool)
    ensures
        r == is_change(kind),
{
    match kind {
        EventClass::Create | EventClass::Modify | EventClass::Remove => true,
        _ => false,
    }
}

/// Whether an event of `kind` whose paths are ignored as `ignored` says
/// qualifies.
pub fn qualifies(kind: EventClass, ignored: &Vec<bool>) -> (r: bool)
    ensures
        r == event_qualifies(kind, ignored@),
{
    if !is_change_kind(kind) {
        return false;
    }
    let mut i: usize = 0;
    while i < ignored.len()
        invariant
            i <= ignored@.len(),
            is_change(kind),
            forall|j: int| 0 <= j < i ==> ignored@[j],
        decreases ignored@.len() - i,
    {
        if !ignored[i] {
            assert(0 <= i < ignored@.len() && !ignored@[i as int]);
            return true;
        }
        i = i + 1;
    }
    false
}

/// Whether a batch of events of the given kinds holds at least one change.
pub fn batch_has_change(kinds: &Vec<EventClass>) -> (r: bool)
    ensures
        r == exists|i: int| 0 <= i < kinds@.len() && is_change(kinds@[i]),
{
    let mut i: usize = 0;
    while i < kinds.len()
        invariant
            i <= kinds@.len(),
            forall|j: int| 0 <= j < i ==> !is_change(kinds@[j]),
        decreases kinds@.len() - i,
    {
        if is_change_kind(kinds[i]) {
            assert(0 <= i < kinds@.len() && is_change(kinds@[i as int]));
            return true;
        }
        i = i + 1;
    }
    false
}

} // verus!
