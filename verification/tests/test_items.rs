use puker::consts::ITEM_COOLDOWN;
use puker::items::{Collectable, CollectableState, CollectableTag, Item, ItemActive, ItemPassive, ItemTag};
use puker::player::Player;

const PLAYER_HEALTH: f32 = 3.;
const PLAYER_SPEED: f32 = 5.;
const PLAYER_MAX_SPEED: f32 = 10.;
const PLAYER_SHOOT_RATE: f32 = 2.5;
const PLAYER_MAX_SHOOT_RATE: f32 = 10.;
const PLAYER_DAMAGE: f32 = 1.;
const PLAYER_MAX_DAMAGE: f32 = 3.;

/// The numbers of a player, kept beside the library's state.
struct Stats {
    health: f32,
    max_health: f32,
    speed: f32,
    shoot_rate: f32,
    damage: f32,
}

impl Stats {
    fn new() -> Stats {
        Stats {
            health: PLAYER_HEALTH,
            max_health: PLAYER_HEALTH,
            speed: PLAYER_SPEED,
            shoot_rate: PLAYER_SHOOT_RATE,
            damage: PLAYER_DAMAGE,
        }
    }

    fn take(&mut self, given: Option<CollectableTag>) {
        match given {
            Some(CollectableTag::RedHeart(h)) => self.health = f32::min(self.health + amount(h), self.max_health),
            Some(CollectableTag::ShootRateBoost(b)) => self.shoot_rate = f32::min(self.shoot_rate * amount(b), PLAYER_MAX_SHOOT_RATE),
            Some(CollectableTag::SpeedBoost(b)) => self.speed = f32::min(self.speed * amount(b), PLAYER_MAX_SPEED),
            Some(CollectableTag::DamageBoost(b)) => self.damage = f32::min(self.damage * amount(b), PLAYER_MAX_DAMAGE),
            None => (),
        }
    }

    fn heal(&mut self, used: Option<ItemActive>) -> bool {
        match used {
            Some(ItemActive::Heal(h)) => {
                self.health = f32::min(self.health + amount(h), self.max_health);
                true
            }
            None => false,
        }
    }
}

/// An amount of the library, counted in hundredths, as a number.
fn amount(hundredths: u32) -> f32 {
    hundredths as f32 / 100.
}

#[test]
fn test_player_pick_up_collectable() {
    let mut player = Stats::new();
    player.health = 2.5;

    let mut collectable = Collectable {
        tile: (4, 7),
        tag: CollectableTag::RedHeart(50),
        state: CollectableState::Base,
    };

    let given = collectable.affect_player(player.health < player.max_health);
    player.take(given);
    assert_eq!(player.health, 3.);
    assert_eq!(collectable.state, CollectableState::Consumed);

    collectable.state = CollectableState::Base;
    let given = collectable.affect_player(player.health < player.max_health);
    player.take(given);
    assert_eq!(player.health, 3.);
    assert_eq!(collectable.state, CollectableState::Base);

    collectable.tag = CollectableTag::SpeedBoost(110);
    let given = collectable.affect_player(player.health < player.max_health);
    player.take(given);
    assert_eq!(player.speed, PLAYER_SPEED * 1.1);
    assert_eq!(collectable.state, CollectableState::Consumed);

    collectable.state = CollectableState::Base;
    collectable.tag = CollectableTag::ShootRateBoost(110);
    let given = collectable.affect_player(player.health < player.max_health);
    player.take(given);
    assert_eq!(player.shoot_rate, PLAYER_SHOOT_RATE * 1.1);
    assert_eq!(collectable.state, CollectableState::Consumed);

    collectable.state = CollectableState::Base;
    collectable.tag = CollectableTag::DamageBoost(110);
    let given = collectable.affect_player(player.health < player.max_health);
    player.take(given);
    assert_eq!(player.damage, PLAYER_DAMAGE * 1.1);
    assert_eq!(collectable.state, CollectableState::Consumed);
}

#[test]
fn test_player_pick_up_passive() {
    let mut player = Stats::new();
    let passive = Item {
        tag: ItemTag::Passive(ItemPassive::IncreaseMaxHealth(100)),
        cooldown: 0,
    };

    match passive.affect_player() {
        Some(ItemPassive::IncreaseMaxHealth(h)) => player.max_health += amount(h),
        None => (),
    }
    assert_eq!(player.max_health, 4.);
}

#[test]
fn test_player_use_item() {
    let mut player = Player::default();
    let mut stats = Stats::new();

    assert!(!stats.heal(player.use_item()));

    player.item = Some(Item {
        tag: ItemTag::Active(ItemActive::Heal(100)),
        cooldown: 0,
    });
    stats.health = 2.;

    assert!(stats.heal(player.use_item()));
    assert!(!stats.heal(player.use_item()));
    assert_eq!(stats.health, 3.);
    assert_eq!(player.item.unwrap().cooldown, ITEM_COOLDOWN);

    player.item.as_mut().unwrap().cooldown = 0;
    assert!(stats.heal(player.use_item()));
    assert_eq!(stats.health, 3.);
    assert_eq!(player.item.unwrap().cooldown, ITEM_COOLDOWN);
}

#[test]
fn consumed_drop_gives_nothing_twice() {
    let mut drop = Collectable { tile: (4, 7), tag: CollectableTag::DamageBoost(150), state: CollectableState::Base };
    assert_eq!(drop.affect_player(false), Some(CollectableTag::DamageBoost(150)));
    assert_eq!(drop.state, CollectableState::Consumed);
    assert_eq!(drop.affect_player(false), None);
    assert_eq!(drop.affect_player(true), None);
    assert_eq!(drop.state, CollectableState::Consumed);
    assert_eq!(drop.tag, CollectableTag::DamageBoost(150));
}

#[test]
fn heart_waits_for_a_wounded_player() {
    let mut drop = Collectable { tile: (1, 1), tag: CollectableTag::RedHeart(100), state: CollectableState::Base };
    assert_eq!(drop.affect_player(false), None);
    assert_eq!(drop.state, CollectableState::Base);
    assert_eq!(drop.affect_player(true), Some(CollectableTag::RedHeart(100)));
    assert_eq!(drop.state, CollectableState::Consumed);
}

#[test]
fn item_is_ready_again_after_three_rooms() {
    let mut item = Item { tag: ItemTag::Active(ItemActive::Heal(100)), cooldown: 0 };
    assert_eq!(item.activate(), Some(ItemActive::Heal(100)));
    assert_eq!(item.cooldown, 3);
    assert_eq!(item.activate(), None);
    assert_eq!(item.cooldown, 3);
    item.cool_down();
    assert_eq!(item.cooldown, 2);
    assert_eq!(item.activate(), None);
    item.cool_down();
    item.cool_down();
    assert_eq!(item.cooldown, 0);
    item.cool_down();
    assert_eq!(item.cooldown, 0);
    assert_eq!(item.activate(), Some(ItemActive::Heal(100)));
}

#[test]
fn passive_item_cannot_be_activated() {
    let mut item = Item { tag: ItemTag::Passive(ItemPassive::IncreaseMaxHealth(100)), cooldown: 0 };
    assert_eq!(item.activate(), None);
    assert_eq!(item.cooldown, 0);
    let mut player = Player::default();
    player.item = Some(item);
    assert_eq!(player.use_item(), None);
    assert_eq!(player.item, Some(item));
}

#[test]
fn active_item_has_no_effect_by_itself() {
    let item = Item { tag: ItemTag::Active(ItemActive::Heal(100)), cooldown: 0 };
    assert_eq!(item.affect_player(), None);
}
