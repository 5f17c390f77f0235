use vstd::prelude::*;
use crate::consts::ITEM_COOLDOWN;

verus! {

/// What an item does when its holder uses it. The amount is in hundredths.
#[derive(Debug, Clone, Copy, PartialEq, Eq, Structural)]
pub enum ItemActive {
    Heal(u32),
}

/// What an item does once, when it is picked up. The amount is in hundredths.
#[derive(Debug, Clone, Copy, PartialEq, Eq, Structural)]
pub enum ItemPassive {
    IncreaseMaxHealth(u32),
}

#[derive(Debug, Clone, Copy, PartialEq, Eq, Structural)]
pub enum ItemTag {
    Passive(ItemPassive),
    Active(ItemActive),
}

/// An item on a pedestal or in the player's hand. `cooldown` counts the rooms
/// that still have to be cleared before an active item can be used again.
#[derive(Debug, Clone, Copy, PartialEq, Eq, Structural)]
pub struct Item {
    pub tag: ItemTag,
    pub cooldown: u32,
}

/// What a drop gives to the player. Hearts carry an amount of health, boosts a
/// factor, both in hundredths.
#[derive(Debug, Clone, Copy, PartialEq, Eq, Structural)]
pub enum CollectableTag {
    RedHeart(u32),
    SpeedBoost(u32),
    ShootRateBoost(u32),
    DamageBoost(u32),
}

#[derive(Debug, Clone, Copy, PartialEq, Eq, Structural)]
pub enum CollectableState {
    Base,
    Consumed,
}

/// A drop lying in a room, on the tile (row, column) where it appeared.
#[derive(Debug, Clone, Copy, PartialEq, Eq)]
pub struct Collectable {
    pub tile: (usize, usize),
    pub tag: CollectableTag,
    pub state: CollectableState,
}

impl Item {
    /// The item can be used now: it is an active one and has no rooms left
    /// to wait for.
    pub open spec fn ready(self) -> bool {
        self.cooldown == 0 && self.tag is Active
    }

    /// The item after an attempt to use it: a ready item has to wait for
    /// `ITEM_COOLDOWN` rooms, any other is as before.
    pub open spec fn after_use(self) -> Item {
        if self.ready() {
            Item { tag: self.tag, cooldown: ITEM_COOLDOWN }
        } else {
            self
        }
    }

    /// The item after its holder cleared a room: one room less to wait for.
    pub open spec fn after_clear(self) -> Item {
        Item {
            tag: self.tag,
            cooldown: if self.cooldown > 0 {
                (self.cooldown - 1) as u32
            } else {
                0
            },
        }
    }

    /// Uses the item. A ready item gives its effect and starts to wait; on
    /// any other nothing happens.
    pub fn activate(&mut self) -> (effect: Option<ItemActive>)
        ensures
            *final(self) == old(self).after_use(),
            effect is Some <==> old(self).ready(),
            effect is Some ==> old(self).tag == ItemTag::Active(effect->0),
    {
        match self.tag {
            ItemTag::Active(effect) => {
                if self.cooldown == 0 {
                    self.cooldown = ITEM_COOLDOWN;
                    Some(effect)
                } else {
                    None
                }
            },
            ItemTag::Passive(_) => None,
        }
    }

    /// What the item does to the player who picks it up: a passive item
    /// gives its effect, an active one does nothing by itself.
    pub fn affect_player(&self) -> (effect: Option<ItemPassive>)
        ensures
            match self.tag {
                ItemTag::Passive(p) => effect == Some(p),
                ItemTag::Active(_) => effect is None,
            },
    {
        match self.tag {
            ItemTag::Passive(p) => Some(p),
            ItemTag::Active(_) => None,
        }
    }

    /// Counts a cleared room: the item has one room less to wait for.
    pub fn cool_down(&mut self)
        ensures
            *final(self) == old(self).after_clear(),
    {
        if self.cooldown > 0 {
            self.cooldown = self.cooldown - 1;
        }
    }
}

impl Collectable {
    /// Picking the drop up has an effect: it is not consumed yet, and a
    /// heart only works on a player who lacks health (`wounded`).
    pub open spec fn takes_effect(self, wounded: bool) -> bool {
        self.state == CollectableState::Base && (self.tag is RedHeart ==> wounded)
    }

    /// The drop after the player touched it: consumed where the touch had an
    /// effect, as before where it had none.
    pub open spec fn after_pickup(self, wounded: bool) -> Collectable {
        if self.takes_effect(wounded) {
            Collectable { state: CollectableState::Consumed, ..self }
        } else {
            self
        }
    }

    /// The player touches the drop. Where that has an effect the drop is
    /// consumed and what it gives is returned; where it has none the drop
    /// stays as it is.
    pub fn affect_player(&mut self, wounded: bool) -> (given: Option<CollectableTag>)
        ensures
            *final(self) == old(self).after_pickup(wounded),
            given == if old(self).takes_effect(wounded) {
                Some(old(self).tag)
            } else {
                None
            },
    {
        match self.state {
            CollectableState::Consumed => None,
            CollectableState::Base => {
                let works = match self.tag {
                    CollectableTag::RedHeart(_) => wounded,
                    _ => true,
                };
                if works {
                    self.state = CollectableState::Consumed;
                    Some(self.tag)
                } else {
                    None
                }
            },
        }
    }
}

/// A consumed drop gives nothing, whoever touches it, and stays consumed;
/// and a drop that was picked up with effect is such a drop.
pub proof fn lemma_consumed_drop_is_spent(drop: Collectable, wounded: bool, again: bool)
    ensures
        drop.state == CollectableState::Consumed ==> !drop.takes_effect(again)
            && drop.after_pickup(again) == drop,
        drop.takes_effect(wounded) ==> !drop.after_pickup(wounded).takes_effect(again)
            && drop.after_pickup(wounded).after_pickup(again) == drop.after_pickup(wounded),
{
}

/// Using a ready item makes it wait for `ITEM_COOLDOWN` rooms. While it
/// waits, using it changes nothing. After that many cleared rooms it is
/// ready again.
pub proof fn lemma_item_cooldown_cycle(item: Item)
    requires
        item.ready(),
    ensures
        item.after_use().cooldown == ITEM_COOLDOWN,
        !item.after_use().ready(),
        item.after_use().after_use() == item.after_use(),
        !item.after_use().after_clear().ready(),
        !item.after_use().after_clear().after_clear().ready(),
        item.after_use().after_clear().after_clear().after_clear() == item,
{
}

} // verus!
