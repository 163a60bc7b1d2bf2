//! Keyboard modifiers, as the windowing library reports them.
//!
//! Everything in here is taken on trust: the functions hand their arguments to the windowing
//! library, and what they promise is what that library's source shows.
use vstd::prelude::*;
use winit::keyboard::ModifiersState;

verus! {

/// The set of modifier keys which are held down.
#[verifier::external_type_specification]
#[verifier::external_body]
pub struct ExModifiersState(winit::keyboard::ModifiersState);

/// The bits which are set in `mods`, by their number.
pub uninterp spec fn modifier_bits(mods: ModifiersState) -> Set<int>;

/// The bit of the shift key.
pub open spec fn shift_bits() -> Set<int> {
    set![2int]
}

/// `ModifiersState::contains`: all bits of `other` are set in `mods`.
#[verifier::external_body]
pub(crate) fn contains(mods: ModifiersState, other: ModifiersState) -> (all: bool)
    ensures
        all == modifier_bits(other).subset_of(modifier_bits(mods)),
{
    mods.contains(other)
}

/// `ModifiersState::is_empty`: no bit is set.
#[verifier::external_body]
pub(crate) fn is_empty(mods: ModifiersState) -> (none: bool)
    ensures
        none == (modifier_bits(mods) == Set::<int>::empty()),
{
    mods.is_empty()
}

/// `ModifiersState::SHIFT`: the shift key on its own.
#[verifier::external_body]
pub(crate) fn shift() -> (mods: ModifiersState)
    ensures
        modifier_bits(mods) == shift_bits(),
{
    ModifiersState::SHIFT
}

} // verus!
