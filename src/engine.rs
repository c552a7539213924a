//! Engine types that the scoreboard carries without looking inside them.

use vstd::prelude::*;

verus! {

/// The engine's display color, carried through unchanged.
#[verifier::external_type_specification]
#[verifier::external_body]
pub struct ExColor(bevy::color::Color);

/// The engine's handle of a scene entity, carried through unchanged.
#[verifier::external_type_specification]
#[verifier::external_body]
pub struct ExEntity(bevy::ecs::entity::Entity);

} // verus!
