use vstd::prelude::*;
use crate::utils::{ActorState, ActorTag};

verus! {

/// Who fired a shot.
#[derive(Clone, Debug, Copy, PartialEq, Eq, Structural)]
pub enum ShotTag {
    Player,
    Enemy,
}

/// A shot in flight, as far as the room's bookkeeping goes.
#[derive(Clone, Debug, Copy, PartialEq, Eq, Structural)]
pub struct Shot {
    pub tag: ShotTag,
}

impl Shot {
    /// A shot is always at rest.
    pub fn get_state(&self) -> (state: ActorState)
        ensures
            state == ActorState::Base,
    {
        ActorState::Base
    }

    /// The side of whoever fired the shot.
    pub fn get_tag(&self) -> (tag: ActorTag)
        ensures
            tag == match self.tag {
                ShotTag::Player => ActorTag::Player,
                ShotTag::Enemy => ActorTag::Enemy,
            },
    {
        match self.tag {
            ShotTag::Player => ActorTag::Player,
            ShotTag::Enemy => ActorTag::Enemy,
        }
    }
}

} // verus!
