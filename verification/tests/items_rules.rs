use glass_oak::color::white;
use glass_oak::game::Game;
use glass_oak::items::{
    cast_fireball, cast_heal, cast_lightning, closest_monster, drop_item, pick_item_up, use_item,
    UseResult, UseTarget,
};
use glass_oak::object::{Ai, DeathCallback, Fighter, Item, Object};
use glass_oak::tile::{blank_map, Grid, Tile};
use glass_oak::{FIREBALL_DAMAGE, HEAL_AMOUNT, INVENTORY_CAPACITY, LIGHTNING_DAMAGE, MAP_HEIGHT, MAP_WIDTH};

fn fighter(max_hp: i32, hp: i32, defense: i32, power: i32, xp: i32, d: DeathCallback) -> Fighter {
    Fighter { max_hp, hp, defense, power, xp, on_death: d }
}

fn player_at(x: i32, y: i32) -> Object {
    let mut p = Object::new(x, y, '%', "player", white(), true);
    p.alive = true;
    p.fighter = Some(fighter(100, 100, 1, 4, 0, DeathCallback::Player));
    p
}

fn monster_at(name: &str, x: i32, y: i32) -> Object {
    let mut m = Object::new(x, y, 'o', name, white(), true);
    m.alive = true;
    m.fighter = Some(fighter(60, 60, 0, 4, 35, DeathCallback::Monster));
    m.ai = Some(Ai::Basic);
    m
}

fn potion(kind: Item, x: i32, y: i32) -> Object {
    let mut o = Object::new(x, y, '!', "healing potion", white(), false);
    o.item = Some(kind);
    o
}

fn open_map() -> Grid {
    let mut m = blank_map();
    for x in 1..(MAP_WIDTH - 1) as usize {
        for y in 1..(MAP_HEIGHT - 1) as usize {
            m[x][y] = Tile::empty();
        }
    }
    m
}

fn game_with(inventory: Vec<Object>) -> Game {
    Game { map: open_map(), log: Vec::new(), inventory, dungeon_level: 1 }
}

fn lit_fov() -> Vec<Vec<bool>> {
    vec![vec![true; MAP_HEIGHT as usize]; MAP_WIDTH as usize]
}

#[test]
fn heal_cancelled_at_full_health() {
    let mut game = game_with(Vec::new());
    let mut objects = vec![player_at(5, 5)];
    let r = cast_heal(&mut objects, &mut game);
    assert_eq!(r, UseResult::Cancelled);
    assert_eq!(game.log.last().unwrap().0, "You are already at full health.");
}

#[test]
fn heal_restores_fixed_amount() {
    let mut game = game_with(Vec::new());
    let mut objects = vec![player_at(5, 5)];
    objects[0].fighter.as_mut().unwrap().hp = 30;
    let r = cast_heal(&mut objects, &mut game);
    assert_eq!(r, UseResult::UsedUp);
    assert_eq!(objects[0].fighter.as_ref().unwrap().hp, 30 + HEAL_AMOUNT);
    assert_eq!(game.log.last().unwrap().0, "Your wounds start to feel better!");
}

#[test]
fn lightning_strikes_nearest_visible_monster() {
    let mut game = game_with(Vec::new());
    let mut objects = vec![
        player_at(10, 10),
        monster_at("far orc", 14, 10),
        monster_at("near orc", 12, 10),
    ];
    let fov = lit_fov();
    assert_eq!(closest_monster(5, &objects, &fov), Some(2));
    let r = cast_lightning(&mut objects, &mut game, &fov);
    assert_eq!(r, UseResult::UsedUp);
    assert_eq!(objects[2].fighter.as_ref().unwrap().hp, 60 - LIGHTNING_DAMAGE);
    assert_eq!(objects[1].fighter.as_ref().unwrap().hp, 60);
    assert_eq!(
        game.log[0].0,
        "A lightning bolt strikes the near orc with a loud thunder! The damage is 40 hit points."
    );
}

#[test]
fn lightning_with_no_target_is_cancelled() {
    let mut game = game_with(Vec::new());
    let mut objects = vec![player_at(10, 10), monster_at("orc", 30, 30)];
    let fov = lit_fov();
    let r = cast_lightning(&mut objects, &mut game, &fov);
    assert_eq!(r, UseResult::Cancelled);
    assert_eq!(game.log.last().unwrap().0, "No enemy is close enough to strike.");
}

#[test]
fn fireball_burns_everything_in_radius_including_player() {
    let mut game = game_with(Vec::new());
    let mut objects = vec![
        player_at(10, 10),
        monster_at("orc", 12, 10),
        monster_at("far orc", 20, 20),
    ];
    let r = cast_fireball(&mut objects, &mut game, Some((11, 10)));
    assert_eq!(r, UseResult::UsedUp);
    assert_eq!(
        objects[0].fighter.as_ref().unwrap().hp,
        100 - FIREBALL_DAMAGE,
        "friendly fire hits the player"
    );
    assert_eq!(objects[1].fighter.as_ref().unwrap().hp, 60 - FIREBALL_DAMAGE);
    assert_eq!(objects[2].fighter.as_ref().unwrap().hp, 60);
    assert_eq!(game.log[0].0, "Left-click a target tile for the fireball, or right-click to cancel.");
    assert_eq!(game.log[1].0, "The fireball explodes, burning everything within 3 tiles!");
    assert_eq!(game.log[2].0, "The player gets burned for 25 hit points");
    assert_eq!(game.log[3].0, "The orc gets burned for 25 hit points");
}

#[test]
fn fireball_awards_kill_xp_to_player() {
    let mut game = game_with(Vec::new());
    let mut objects = vec![player_at(10, 10), monster_at("orc", 12, 10)];
    objects[1].fighter.as_mut().unwrap().hp = 10;
    let r = cast_fireball(&mut objects, &mut game, Some((12, 10)));
    assert_eq!(r, UseResult::UsedUp);
    assert!(!objects[1].alive);
    assert_eq!(objects[0].fighter.as_ref().unwrap().xp, 35);
}

#[test]
fn fireball_without_target_is_cancelled() {
    let mut game = game_with(Vec::new());
    let mut objects = vec![player_at(10, 10)];
    let r = cast_fireball(&mut objects, &mut game, None);
    assert_eq!(r, UseResult::Cancelled);
    assert_eq!(objects[0].fighter.as_ref().unwrap().hp, 100);
}

#[test]
fn use_item_consumes_on_success_and_logs_cancellation() {
    let mut game = game_with(vec![potion(Item::Heal, 0, 0)]);
    let mut objects = vec![player_at(5, 5)];
    objects[0].fighter.as_mut().unwrap().hp = 10;
    let fov = lit_fov();
    let r = use_item(0, UseTarget::NoTarget, &mut objects, &mut game, &fov);
    assert_eq!(r, UseResult::UsedUp);
    assert!(game.inventory.is_empty());

    // at full health the second potion is refused and stays
    let mut game = game_with(vec![potion(Item::Heal, 0, 0)]);
    let mut objects = vec![player_at(5, 5)];
    let r = use_item(0, UseTarget::NoTarget, &mut objects, &mut game, &fov);
    assert_eq!(r, UseResult::Cancelled);
    assert_eq!(game.inventory.len(), 1);
    assert_eq!(game.log.last().unwrap().0, "Cancelled");
}

#[test]
fn use_item_on_plain_entity_is_refused() {
    let mut plain = Object::new(0, 0, '<', "stairs", white(), false);
    plain.always_visible = true;
    let mut game = game_with(vec![plain]);
    let mut objects = vec![player_at(5, 5)];
    let fov = lit_fov();
    let r = use_item(0, UseTarget::NoTarget, &mut objects, &mut game, &fov);
    assert_eq!(r, UseResult::Cancelled);
    assert_eq!(game.inventory.len(), 1);
    assert_eq!(game.log.last().unwrap().0, "The stairs cannot be used.");
}

#[test]
fn pickup_at_full_capacity_fails_and_leaves_item_in_world() {
    let filler: Vec<Object> = (0..INVENTORY_CAPACITY).map(|_| potion(Item::Heal, 0, 0)).collect();
    let mut game = game_with(filler);
    let mut objects = vec![player_at(5, 5), potion(Item::Heal, 5, 5)];
    pick_item_up(1, &mut objects, &mut game);
    assert_eq!(objects.len(), 2, "the world entity stays in place");
    assert_eq!(game.inventory.len(), INVENTORY_CAPACITY);
    assert_eq!(
        game.log.last().unwrap().0,
        "Your inventory is full. Cannot pick up healing potion."
    );
}

#[test]
fn pickup_below_capacity_moves_item_into_inventory() {
    let mut game = game_with(Vec::new());
    let mut objects = vec![player_at(5, 5), potion(Item::Heal, 5, 5)];
    pick_item_up(1, &mut objects, &mut game);
    assert_eq!(objects.len(), 1);
    assert_eq!(game.inventory.len(), 1);
    assert_eq!(game.log.last().unwrap().0, "You picked up a healing potion!");
}

#[test]
fn drop_places_item_at_player_position() {
    let mut game = game_with(vec![potion(Item::Heal, 0, 0)]);
    let mut objects = vec![player_at(7, 9)];
    drop_item(0, &mut objects, &mut game);
    assert!(game.inventory.is_empty());
    assert_eq!(objects.len(), 2);
    assert_eq!((objects[1].x, objects[1].y), (7, 9));
    assert_eq!(game.log.last().unwrap().0, "You dropped a healing potion.");
}
