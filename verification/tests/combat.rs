use glass_oak::color::{dark_red, white, yellow};
use glass_oak::game::Game;
use glass_oak::object::{Ai, DeathCallback, Fighter, Object};
use glass_oak::tile::blank_map;

fn fighter(max_hp: i32, hp: i32, defense: i32, power: i32, xp: i32, on_death: DeathCallback) -> Fighter {
    Fighter { max_hp, hp, defense, power, xp, on_death }
}

fn empty_game() -> Game {
    Game { map: blank_map(), log: Vec::new(), inventory: Vec::new(), dungeon_level: 1 }
}

fn monster(name: &str, x: i32, y: i32, f: Fighter) -> Object {
    let mut m = Object::new(x, y, 'o', name, white(), true);
    m.alive = true;
    m.fighter = Some(f);
    m.ai = Some(Ai::Basic);
    m
}

#[test]
fn attack_power_four_defense_zero_deals_four() {
    let mut game = empty_game();
    let mut attacker = monster("orc", 2, 2, fighter(20, 20, 0, 4, 35, DeathCallback::Monster));
    let mut defender = monster("troll", 3, 2, fighter(30, 30, 0, 8, 100, DeathCallback::Monster));
    attacker.attack(&mut defender, &mut game);
    assert_eq!(defender.fighter.as_ref().unwrap().hp, 26);
    assert_eq!(game.log.len(), 1);
    assert_eq!(game.log[0].0, "orc attacks troll for 4 hit points.");
    assert_eq!(game.log[0].1, yellow());
}

#[test]
fn attack_power_three_defense_five_has_no_effect() {
    let mut game = empty_game();
    let mut attacker = monster("orc", 2, 2, fighter(20, 20, 0, 3, 35, DeathCallback::Monster));
    let mut defender = monster("troll", 3, 2, fighter(30, 30, 5, 8, 100, DeathCallback::Monster));
    attacker.attack(&mut defender, &mut game);
    assert_eq!(defender.fighter.as_ref().unwrap().hp, 30);
    assert_eq!(game.log.len(), 1);
    assert_eq!(game.log[0].0, "orc attacks troll but it has no effect!");
}

#[test]
fn take_damage_kill_returns_xp_and_renames_monster() {
    let mut game = empty_game();
    let mut victim = monster("orc", 2, 2, fighter(20, 5, 0, 4, 35, DeathCallback::Monster));
    let award = victim.take_damage(7, &mut game);
    assert_eq!(award, Some(35));
    assert!(!victim.alive);
    assert_eq!(victim.name, "remains of orc");
    assert!(victim.fighter.is_none());
    assert!(victim.ai.is_none());
    assert!(!victim.blocks);
    assert!(victim.always_visible);
    assert_eq!(victim.glyph, '@');
    assert_eq!(victim.color, dark_red());
    assert_eq!(game.log.len(), 1);
    assert_eq!(game.log[0].0, "orc is dead! You gain 35 xp.");
}

#[test]
fn take_damage_non_lethal_keeps_entity() {
    let mut game = empty_game();
    let mut victim = monster("orc", 2, 2, fighter(20, 5, 0, 4, 35, DeathCallback::Monster));
    let award = victim.take_damage(4, &mut game);
    assert_eq!(award, None);
    assert!(victim.alive);
    assert_eq!(victim.fighter.as_ref().unwrap().hp, 1);
    assert_eq!(victim.name, "orc");
    assert!(game.log.is_empty());
}

#[test]
fn player_death_keeps_record_in_place() {
    let mut game = empty_game();
    let mut player = Object::new(2, 2, '%', "player", white(), true);
    player.alive = true;
    player.fighter = Some(fighter(100, 3, 1, 4, 0, DeathCallback::Player));
    let award = player.take_damage(10, &mut game);
    assert_eq!(award, Some(0));
    assert!(!player.alive);
    assert_eq!(player.name, "player");
    assert_eq!(player.glyph, '@');
    assert!(player.fighter.is_some());
    assert_eq!(player.fighter.as_ref().unwrap().hp, -7);
    assert_eq!(game.log.len(), 1);
    assert_eq!(game.log[0].0, "You died!");
}

#[test]
fn heal_clamps_at_max_hp() {
    let mut o = monster("orc", 2, 2, fighter(10, 5, 0, 4, 35, DeathCallback::Monster));
    o.heal(3);
    assert_eq!(o.fighter.as_ref().unwrap().hp, 8);
    o.heal(40);
    assert_eq!(o.fighter.as_ref().unwrap().hp, 10);
}

#[test]
fn heal_is_noop_without_combat_block() {
    let mut o = Object::new(2, 2, '!', "potion", white(), false);
    o.heal(40);
    assert!(o.fighter.is_none());
}

#[test]
fn attack_awards_kill_xp_to_attacker() {
    let mut game = empty_game();
    let mut attacker = monster("orc", 2, 2, fighter(20, 20, 0, 10, 35, DeathCallback::Monster));
    let mut defender = monster("npc", 3, 2, fighter(10, 5, 0, 3, 10, DeathCallback::Monster));
    attacker.attack(&mut defender, &mut game);
    assert_eq!(attacker.fighter.as_ref().unwrap().xp, 45);
    assert!(!defender.alive);
    assert_eq!(game.log.len(), 2);
    assert_eq!(game.log[0].0, "orc attacks npc for 10 hit points.");
    assert_eq!(game.log[1].0, "npc is dead! You gain 10 xp.");
}

#[test]
fn killing_the_player_awards_nothing() {
    let mut game = empty_game();
    let mut attacker = monster("orc", 2, 2, fighter(20, 20, 0, 10, 35, DeathCallback::Monster));
    let mut player = Object::new(3, 2, '%', "player", white(), true);
    player.alive = true;
    player.fighter = Some(fighter(100, 5, 0, 4, 777, DeathCallback::Player));
    attacker.attack(&mut player, &mut game);
    assert!(!player.alive);
    assert_eq!(attacker.fighter.as_ref().unwrap().xp, 35);
}
