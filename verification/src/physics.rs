//! Which bodies are kept from touching each other.

use vstd::prelude::*;

verus! {

/// Marks a body whose contacts with the body `entity` are switched on or off.
/// Bodies are named as the host names them.
#[derive(Clone, Copy, Debug, PartialEq, Eq, Structural)]
pub struct ToggleContactsWith {
    pub entity: u64,
    pub contacts_enabled: bool,
}

impl ToggleContactsWith {
    /// A mark for contacts with `entity`.
    #[inline]
    pub fn new(entity: u64, contacts_enabled: bool) -> (toggle: ToggleContactsWith)
        ensures
            toggle.entity == entity,
            toggle.contacts_enabled == contacts_enabled,
    {
        ToggleContactsWith { entity, contacts_enabled }
    }
}

} // verus!
