use vstd::prelude::*;
use crate::items::{Item, ItemActive, ItemTag};
use crate::shots::{Shot, ShotTag};
use crate::utils::{ActorState, ActorTag};

verus! {

/// The player, as far as the rules go: the state that is shown, and the
/// item in hand.
#[derive(Clone, Debug, Copy, PartialEq, Eq)]
pub struct Player {
    pub state: ActorState,
    pub item: Option<Item>,
}

impl Default for Player {
    /// A player as the game starts: at rest, with empty hands.
    fn default() -> (player: Player)
        ensures
            player.state == ActorState::Base,
            player.item is None,
    {
        Player { state: ActorState::Base, item: None }
    }
}

impl Player {
    pub fn get_state(&self) -> (state: ActorState)
        ensures
            state == self.state,
    {
        self.state
    }

    pub fn get_tag(&self) -> (tag: ActorTag)
        ensures
            tag == ActorTag::Player,
    {
        ActorTag::Player
    }

    /// The item in hand can be used now.
    pub open spec fn item_ready(self) -> bool {
        self.item is Some && self.item->0.ready()
    }

    /// The player after an attempt to use the item in hand.
    pub open spec fn after_use(self) -> Player {
        match self.item {
            Some(item) => Player { item: Some(item.after_use()), ..self },
            None => self,
        }
    }

    /// Uses the item in hand. Where it is ready, the player is owed its
    /// effect, which is returned, and the item has to wait for
    /// `ITEM_COOLDOWN` rooms. Where it is not, or the hand is empty, nothing
    /// happens.
    pub fn use_item(&mut self) -> (used: Option<ItemActive>)
        ensures
            *final(self) == old(self).after_use(),
            used is Some <==> old(self).item_ready(),
            used is Some ==> old(self).item->0.tag == ItemTag::Active(used->0),
    {
        match self.item.take() {
            Some(mut item) => {
                let used = item.activate();
                self.item = Some(item);
                used
            },
            None => None,
        }
    }

    /// Fires a shot where the time since the last one has run out (`ready`):
    /// the player shows the shooting state and a shot of the player joins
    /// `shots`. Where it has not, nothing happens.
    pub fn shoot(&mut self, ready: bool, shots: &mut Vec<Shot>) -> (fired: bool)
        ensures
            fired == ready,
            final(self).item == old(self).item,
            fired ==> final(self).state == ActorState::Shoot && final(shots)@ == old(shots)@.push(
                Shot { tag: ShotTag::Player },
            ),
            !fired ==> *final(self) == *old(self) && final(shots)@ == old(shots)@,
    {
        if !ready {
            return false;
        }
        self.state = ActorState::Shoot;
        shots.push(Shot { tag: ShotTag::Player });
        true
    }

    /// Takes a hit. While the time after the last hit runs (`vulnerable` is
    /// false) nothing happens; else the hit counts and the player shows the
    /// damaged state.
    pub fn damage(&mut self, vulnerable: bool) -> (hurt: bool)
        ensures
            hurt == vulnerable,
            final(self).item == old(self).item,
            final(self).state == if vulnerable {
                ActorState::Damaged
            } else {
                old(self).state
            },
    {
        if vulnerable {
            self.state = ActorState::Damaged;
        }
        vulnerable
    }

    /// The state at the end of a tick: back to rest once the animation has
    /// run out, and dead, whatever else holds, once the health is spent.
    /// Says whether the player is dead.
    pub fn update(&mut self, animation_over: bool, health_spent: bool) -> (dead: bool)
        ensures
            dead == health_spent,
            final(self).item == old(self).item,
            final(self).state == crate::enemies::settled(old(self).state, animation_over, health_spent),
    {
        if animation_over {
            self.state = ActorState::Base;
        }
        if health_spent {
            self.state = ActorState::Dead;
        }
        health_spent
    }
}

/// Using the item in hand a second time, before a room was cleared, changes
/// nothing and gives nothing.
pub proof fn lemma_second_use_is_idle(player: Player)
    ensures
        !player.after_use().item_ready(),
        player.after_use().after_use() == player.after_use(),
{
}

} // verus!
