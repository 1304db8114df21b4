use glass_oak::color::{red, white};
use glass_oak::game::Game;
use glass_oak::items::UseTarget;
use glass_oak::mapgen::new_game;
use glass_oak::object::{Ai, DeathCallback, Fighter, Item, Object};
use glass_oak::save::{decode_state, encode_state};
use glass_oak::turn::{apply_command, Command};
use glass_oak::{MAP_HEIGHT, MAP_WIDTH};

#[test]
fn save_then_load_reproduces_a_fresh_game_exactly() {
    let (objects, game, _rooms) = new_game();
    let bytes = encode_state(&objects, &game);
    let (objects2, game2) = decode_state(&bytes).expect("a saved state decodes");
    assert_eq!(objects, objects2);
    assert_eq!(game.map, game2.map);
    assert_eq!(game.log, game2.log);
    assert_eq!(game.inventory, game2.inventory);
    assert_eq!(game.dungeon_level, game2.dungeon_level);
}

#[test]
fn save_then_load_keeps_nested_confused_ai() {
    let (mut objects, mut game, _rooms) = new_game();
    let mut weird = Object::new(objects[0].x, objects[0].y, 'T', "troll", red(), true);
    weird.alive = true;
    weird.fighter = Some(Fighter {
        max_hp: 30,
        hp: 13,
        defense: 2,
        power: 8,
        xp: 100,
        on_death: DeathCallback::Monster,
    });
    weird.ai = Some(Ai::Confused {
        previous_ai: Box::new(Ai::Confused {
            previous_ai: Box::new(Ai::Basic),
            num_turns: 3,
        }),
        num_turns: 7,
    });
    objects.push(weird);
    let mut potion = Object::new(1, 1, '!', "healing potion", white(), false);
    potion.item = Some(Item::Heal);
    game.inventory.push(potion);
    game.dungeon_level = 9;

    let bytes = encode_state(&objects, &game);
    let (objects2, game2) = decode_state(&bytes).expect("a saved state decodes");
    assert_eq!(objects, objects2);
    assert_eq!(game.map, game2.map);
    assert_eq!(game.log, game2.log);
    assert_eq!(game.inventory, game2.inventory);
    assert_eq!(game.dungeon_level, game2.dungeon_level);
}

#[test]
fn save_then_load_after_played_turns_keeps_explored_flags() {
    let (mut objects, mut game, _rooms) = new_game();
    let fov = vec![vec![true; MAP_HEIGHT as usize]; MAP_WIDTH as usize];
    glass_oak::turn::update_explored(&mut game.map, &fov);
    apply_command(Command::Wait, &mut objects, &mut game, &fov);
    let bytes = encode_state(&objects, &game);
    let (objects2, game2) = decode_state(&bytes).expect("a saved state decodes");
    assert_eq!(objects, objects2);
    assert_eq!(game.map, game2.map);
    assert!(game2.map[1][1].explored);
}

#[test]
fn truncated_or_corrupted_saves_are_rejected() {
    let (objects, game, _rooms) = new_game();
    let bytes = encode_state(&objects, &game);

    assert!(decode_state(&Vec::new()).is_none());

    let mut truncated = bytes.clone();
    truncated.truncate(bytes.len() / 2);
    assert!(decode_state(&truncated).is_none());

    // inflate the declared object count so the parse runs off the end
    let mut corrupt = bytes.clone();
    corrupt[7] = 0xFF;
    assert!(decode_state(&corrupt).is_none());
}

#[test]
fn decoding_garbage_fails() {
    let garbage: Vec<u8> = (0u8..200u8).collect();
    // the declared object count in garbage is astronomically large, so the
    // parse runs out of bytes and reports failure
    assert!(decode_state(&garbage).is_none());
}

#[test]
fn use_target_enum_is_plain_data() {
    let t = UseTarget::Tile(3, 4);
    match t {
        UseTarget::Tile(x, y) => {
            assert_eq!((x, y), (3, 4));
        },
        _ => panic!("wrong variant"),
    }
}
