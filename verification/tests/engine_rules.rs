use glass_oak::color::white;
use glass_oak::engine::{
    apply_level_up, is_blocked, level_up_pending, move_by, move_towards, run_ai_turns, StatChoice,
};
use glass_oak::game::Game;
use glass_oak::items::cast_confuse;
use glass_oak::object::{Ai, DeathCallback, Fighter, Object};
use glass_oak::tile::{blank_map, Grid, Tile};
use glass_oak::turn::{apply_command, Command, PlayerAction};
use glass_oak::{CONFUSE_NUM_TURNS, LEVEL_UP_BASE, LEVEL_UP_FACTOR, MAP_HEIGHT, MAP_WIDTH};

fn fighter(max_hp: i32, hp: i32, defense: i32, power: i32, xp: i32, d: DeathCallback) -> Fighter {
    Fighter { max_hp, hp, defense, power, xp, on_death: d }
}

fn player_at(x: i32, y: i32) -> Object {
    let mut p = Object::new(x, y, '%', "player", white(), true);
    p.alive = true;
    p.fighter = Some(fighter(100, 100, 1, 4, 0, DeathCallback::Player));
    p
}

fn monster_at(name: &str, x: i32, y: i32) -> Object {
    let mut m = Object::new(x, y, 'o', name, white(), true);
    m.alive = true;
    m.fighter = Some(fighter(20, 20, 0, 4, 35, DeathCallback::Monster));
    m.ai = Some(Ai::Basic);
    m
}

/// A grid whose interior is fully carved, with the solid border ring.
fn open_map() -> Grid {
    let mut m = blank_map();
    for x in 1..(MAP_WIDTH - 1) as usize {
        for y in 1..(MAP_HEIGHT - 1) as usize {
            m[x][y] = Tile::empty();
        }
    }
    m
}

fn dark_fov() -> Vec<Vec<bool>> {
    vec![vec![false; MAP_HEIGHT as usize]; MAP_WIDTH as usize]
}

fn lit_fov() -> Vec<Vec<bool>> {
    vec![vec![true; MAP_HEIGHT as usize]; MAP_WIDTH as usize]
}

#[test]
fn blocked_by_wall_and_by_blocking_entity() {
    let map = open_map();
    let objects = vec![player_at(5, 5)];
    assert!(is_blocked(0, 0, &map, &objects));
    assert!(is_blocked(5, 5, &map, &objects));
    assert!(!is_blocked(6, 5, &map, &objects));
}

#[test]
fn move_by_steps_only_onto_free_cells() {
    let map = open_map();
    let mut objects = vec![player_at(1, 1)];
    move_by(0, -1, 0, &map, &mut objects);
    assert_eq!((objects[0].x, objects[0].y), (1, 1));
    move_by(0, 1, 1, &map, &mut objects);
    assert_eq!((objects[0].x, objects[0].y), (2, 2));
}

#[test]
fn move_towards_takes_rounded_unit_step() {
    let map = open_map();
    let mut objects = vec![player_at(10, 10)];
    move_towards(0, 20, 10, &map, &mut objects);
    assert_eq!((objects[0].x, objects[0].y), (11, 10));
    move_towards(0, 20, 20, &map, &mut objects);
    assert_eq!((objects[0].x, objects[0].y), (12, 11));
    move_towards(0, 12, 5, &map, &mut objects);
    assert_eq!((objects[0].x, objects[0].y), (12, 10));
}

#[test]
fn confusion_reverts_after_exactly_its_countdown_of_dispatches() {
    let mut game =
        Game { map: open_map(), log: Vec::new(), inventory: Vec::new(), dungeon_level: 1 };
    let mut objects = vec![player_at(5, 5), monster_at("orc", 30, 30)];
    let r = cast_confuse(&mut objects, &mut game, Some(1));
    assert_eq!(r, glass_oak::items::UseResult::UsedUp);
    assert!(matches!(
        objects[1].ai,
        Some(Ai::Confused { num_turns, .. }) if num_turns == CONFUSE_NUM_TURNS
    ));
    let fov = dark_fov();
    let mut dispatches = 0;
    loop {
        glass_oak::engine::ai_take_turn(1, &mut objects, &fov, &mut game);
        dispatches += 1;
        if matches!(objects[1].ai, Some(Ai::Basic)) {
            break;
        }
        assert!(dispatches < 100, "confusion never reverted");
    }
    // the counter runs from its starting value down past zero before the
    // saved behavior returns
    assert_eq!(dispatches, CONFUSE_NUM_TURNS + 2);
    let last = game.log.last().unwrap();
    assert_eq!(last.0, "The orc is no longer confused!");
}

#[test]
fn basic_ai_closes_in_and_attacks() {
    let mut game =
        Game { map: open_map(), log: Vec::new(), inventory: Vec::new(), dungeon_level: 1 };
    let mut objects = vec![player_at(5, 5), monster_at("orc", 9, 5)];
    let fov = lit_fov();
    run_ai_turns(&mut objects, &mut game, &fov);
    assert_eq!((objects[1].x, objects[1].y), (8, 5));
    run_ai_turns(&mut objects, &mut game, &fov);
    run_ai_turns(&mut objects, &mut game, &fov);
    assert_eq!((objects[1].x, objects[1].y), (6, 5));
    // adjacent now: the next dispatch attacks instead of moving
    run_ai_turns(&mut objects, &mut game, &fov);
    assert_eq!((objects[1].x, objects[1].y), (6, 5));
    assert_eq!(objects[0].fighter.as_ref().unwrap().hp, 97);
    assert_eq!(game.log.last().unwrap().0, "orc attacks player for 3 hit points.");
}

#[test]
fn unseen_monster_stays_put() {
    let mut game =
        Game { map: open_map(), log: Vec::new(), inventory: Vec::new(), dungeon_level: 1 };
    let mut objects = vec![player_at(5, 5), monster_at("orc", 9, 5)];
    let fov = dark_fov();
    run_ai_turns(&mut objects, &mut game, &fov);
    assert_eq!((objects[1].x, objects[1].y), (9, 5));
    assert_eq!(objects[0].fighter.as_ref().unwrap().hp, 100);
}

#[test]
fn level_up_triggers_exactly_once_at_threshold() {
    let mut game =
        Game { map: open_map(), log: Vec::new(), inventory: Vec::new(), dungeon_level: 1 };
    let threshold = LEVEL_UP_BASE + 1 * LEVEL_UP_FACTOR;
    let mut objects = vec![player_at(5, 5)];
    objects[0].fighter.as_mut().unwrap().xp = threshold;
    assert!(level_up_pending(&objects));
    apply_level_up(&mut objects, &mut game, StatChoice::Constitution);
    assert_eq!(objects[0].level, 2);
    assert_eq!(objects[0].fighter.as_ref().unwrap().xp, 0);
    assert_eq!(objects[0].fighter.as_ref().unwrap().max_hp, 120);
    assert_eq!(objects[0].fighter.as_ref().unwrap().hp, 120);
    // exactly once: the same gain cannot trigger a second level-up
    assert!(!level_up_pending(&objects));
    assert_eq!(
        game.log.last().unwrap().0,
        "Your battle skills grow stronger! You reached level 2!"
    );
}

#[test]
fn level_up_stat_choices() {
    let mut game =
        Game { map: open_map(), log: Vec::new(), inventory: Vec::new(), dungeon_level: 1 };
    let threshold = LEVEL_UP_BASE + 1 * LEVEL_UP_FACTOR;
    let mut objects = vec![player_at(5, 5)];
    objects[0].fighter.as_mut().unwrap().xp = threshold;
    apply_level_up(&mut objects, &mut game, StatChoice::Strength);
    assert_eq!(objects[0].fighter.as_ref().unwrap().power, 5);
    objects[0].fighter.as_mut().unwrap().xp = LEVEL_UP_BASE + 2 * LEVEL_UP_FACTOR;
    apply_level_up(&mut objects, &mut game, StatChoice::Agility);
    assert_eq!(objects[0].fighter.as_ref().unwrap().defense, 2);
    assert_eq!(objects[0].level, 3);
}

#[test]
fn move_command_onto_monster_resolves_as_attack() {
    let mut game =
        Game { map: open_map(), log: Vec::new(), inventory: Vec::new(), dungeon_level: 1 };
    let mut objects = vec![player_at(5, 5), monster_at("orc", 6, 5)];
    let fov = lit_fov();
    let action = apply_command(Command::Move(1, 0), &mut objects, &mut game, &fov);
    assert_eq!(action, PlayerAction::TookTurn);
    assert_eq!((objects[0].x, objects[0].y), (5, 5));
    assert_eq!(objects[1].fighter.as_ref().unwrap().hp, 16);
}

#[test]
fn blocked_move_costs_no_turn_and_skips_the_ai_phase() {
    let mut game =
        Game { map: open_map(), log: Vec::new(), inventory: Vec::new(), dungeon_level: 1 };
    // the player stands against the western border wall; a visible monster
    // waits further east
    let mut objects = vec![player_at(1, 5), monster_at("orc", 6, 5)];
    let fov = lit_fov();
    let action =
        glass_oak::turn::run_turn(Command::Move(-1, 0), &mut objects, &mut game, &fov);
    assert_eq!(action, PlayerAction::DidntTakeTurn, "a dropped move costs no turn");
    assert_eq!((objects[0].x, objects[0].y), (1, 5));
    assert_eq!((objects[1].x, objects[1].y), (6, 5), "the AI phase did not run");

    // a free step does cost the turn, and the monster answers
    let action =
        glass_oak::turn::run_turn(Command::Move(1, 0), &mut objects, &mut game, &fov);
    assert_eq!(action, PlayerAction::TookTurn);
    assert_eq!((objects[0].x, objects[0].y), (2, 5));
    assert_eq!((objects[1].x, objects[1].y), (5, 5));
}

#[test]
fn move_into_a_blocking_entity_without_combat_block_costs_no_turn() {
    let mut game =
        Game { map: open_map(), log: Vec::new(), inventory: Vec::new(), dungeon_level: 1 };
    let mut blocker = Object::new(6, 5, '#', "boulder", white(), true);
    blocker.alive = false;
    let mut objects = vec![player_at(5, 5)];
    objects.push(blocker);
    let fov = lit_fov();
    let action = apply_command(Command::Move(1, 0), &mut objects, &mut game, &fov);
    assert_eq!(action, PlayerAction::DidntTakeTurn);
    assert_eq!((objects[0].x, objects[0].y), (5, 5));
}

#[test]
fn quit_command_exits_and_wait_takes_turn() {
    let mut game =
        Game { map: open_map(), log: Vec::new(), inventory: Vec::new(), dungeon_level: 1 };
    let mut objects = vec![player_at(5, 5)];
    let fov = dark_fov();
    assert_eq!(
        apply_command(Command::Quit, &mut objects, &mut game, &fov),
        PlayerAction::Exit
    );
    assert_eq!(
        apply_command(Command::Wait, &mut objects, &mut game, &fov),
        PlayerAction::TookTurn
    );
}

#[test]
fn names_under_pointer_lists_visible_entities_in_order() {
    let objects = vec![player_at(5, 5), monster_at("orc", 6, 5), monster_at("troll", 6, 5)];
    let lit = lit_fov();
    let names = glass_oak::turn::names_at(&objects, &lit, 6, 5);
    assert_eq!(names, vec!["orc".to_string(), "troll".to_string()]);
    let dark = dark_fov();
    let names = glass_oak::turn::names_at(&objects, &dark, 6, 5);
    assert!(names.is_empty());
}

#[test]
fn dead_player_commands_cost_no_turn() {
    let mut game =
        Game { map: open_map(), log: Vec::new(), inventory: Vec::new(), dungeon_level: 1 };
    let mut objects = vec![player_at(5, 5)];
    objects[0].alive = false;
    let fov = dark_fov();
    assert_eq!(
        apply_command(Command::Move(1, 0), &mut objects, &mut game, &fov),
        PlayerAction::DidntTakeTurn
    );
    assert_eq!((objects[0].x, objects[0].y), (5, 5));
}
