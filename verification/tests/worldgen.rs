use glass_oak::color::white;
use glass_oak::mapgen::{from_dungeon_level, make_map, new_game, next_level, Transition};
use glass_oak::object::{DeathCallback, Fighter, Object};
use glass_oak::turn::{map_wf_check, world_wf_check};
use glass_oak::{MAP_HEIGHT, MAP_WIDTH};

fn player_template() -> Object {
    let mut p = Object::new(0, 0, '%', "player", white(), true);
    p.alive = true;
    p.fighter = Some(Fighter {
        max_hp: 100,
        hp: 100,
        defense: 1,
        power: 4,
        xp: 0,
        on_death: DeathCallback::Player,
    });
    p
}

#[test]
fn step_function_takes_last_threshold_met() {
    let table = vec![
        Transition { level: 1, value: 2 },
        Transition { level: 4, value: 3 },
        Transition { level: 6, value: 5 },
    ];
    assert_eq!(from_dungeon_level(&table, 0), 0);
    assert_eq!(from_dungeon_level(&table, 1), 2);
    assert_eq!(from_dungeon_level(&table, 3), 2);
    assert_eq!(from_dungeon_level(&table, 4), 3);
    assert_eq!(from_dungeon_level(&table, 6), 5);
    assert_eq!(from_dungeon_level(&table, 60), 5);
}

#[test]
fn rooms_are_carved_and_disjoint() {
    for _ in 0..5 {
        let mut objects = vec![player_template()];
        let (map, rooms) = make_map(&mut objects, 1);
        assert!(!rooms.is_empty());
        // every accepted room's interior is fully unblocked
        for r in rooms.iter() {
            for x in (r.x1 + 1)..r.x2 {
                for y in (r.y1 + 1)..r.y2 {
                    let t = map[x as usize][y as usize];
                    assert!(!t.blocked);
                    assert!(!t.block_sight);
                    assert!(!t.explored);
                }
            }
        }
        // no two accepted rooms' bounding rectangles overlap
        for i in 0..rooms.len() {
            for j in 0..rooms.len() {
                if i != j {
                    assert!(!rooms[i].intersects_with(&rooms[j]));
                }
            }
        }
    }
}

#[test]
fn consecutive_room_centers_are_connected_by_carved_cells() {
    for _ in 0..5 {
        let mut objects = vec![player_template()];
        let (map, rooms) = make_map(&mut objects, 1);
        // flood fill over unblocked cells from the first center
        let (sx, sy) = rooms[0].center();
        let mut seen = vec![vec![false; MAP_HEIGHT as usize]; MAP_WIDTH as usize];
        let mut queue = vec![(sx, sy)];
        seen[sx as usize][sy as usize] = true;
        while let Some((x, y)) = queue.pop() {
            for (dx, dy) in [(1, 0), (-1, 0), (0, 1), (0, -1)] {
                let (nx, ny) = (x + dx, y + dy);
                if nx >= 0
                    && ny >= 0
                    && nx < MAP_WIDTH
                    && ny < MAP_HEIGHT
                    && !seen[nx as usize][ny as usize]
                    && !map[nx as usize][ny as usize].blocked
                {
                    seen[nx as usize][ny as usize] = true;
                    queue.push((nx, ny));
                }
            }
        }
        for r in rooms.iter() {
            let (cx, cy) = r.center();
            assert!(
                seen[cx as usize][cy as usize],
                "a room center is not reachable from the first room"
            );
        }
    }
}

#[test]
fn generated_world_is_well_formed() {
    let mut objects = vec![player_template()];
    let (map, rooms) = make_map(&mut objects, 1);
    assert!(map_wf_check(&map));
    assert!(world_wf_check(&objects));
    // the player stands at the first accepted room's center
    let (cx, cy) = rooms[0].center();
    assert_eq!((objects[0].x, objects[0].y), (cx, cy));
    // the stairs marker sits last, at the last room's center
    let stairs = objects.last().unwrap();
    assert_eq!(stairs.name, "stairs");
    assert_eq!(stairs.glyph, '<');
    assert!(stairs.always_visible);
    assert!(!stairs.blocks);
    let (lx, ly) = rooms[rooms.len() - 1].center();
    assert_eq!((stairs.x, stairs.y), (lx, ly));
}

#[test]
fn spawned_entities_match_their_templates() {
    let mut objects = vec![player_template()];
    let (_map, _rooms) = make_map(&mut objects, 6);
    for o in objects.iter().skip(1) {
        if o.name == "stairs" {
            continue;
        }
        if let Some(f) = o.fighter.as_ref() {
            assert!(o.alive);
            assert!(o.blocks);
            assert!(matches!(f.on_death, DeathCallback::Monster));
            let tpl = (f.max_hp, f.defense, f.power, f.xp);
            assert!(
                tpl == (20, 0, 4, 35) || tpl == (30, 2, 8, 100) || tpl == (10, 0, 3, 10),
                "unknown monster template {:?}",
                tpl
            );
        } else {
            assert!(o.item.is_some());
            assert!(!o.blocks);
            assert!(o.always_visible);
        }
    }
}

#[test]
fn new_game_starts_at_depth_one_with_welcome() {
    let (objects, game, _rooms) = new_game();
    assert!(world_wf_check(&objects));
    assert!(map_wf_check(&game.map));
    assert_eq!(game.dungeon_level, 1);
    assert!(game.inventory.is_empty());
    assert_eq!(game.log.len(), 1);
    assert_eq!(
        game.log[0].0,
        "Welcome stranger! Prepare to perish in the Tombs of The Glass Oak."
    );
    assert_eq!(objects[0].name, "player");
    assert!(objects[0].alive);
}

#[test]
fn next_level_heals_and_descends() {
    let (mut objects, mut game, _rooms) = new_game();
    objects[0].fighter.as_mut().unwrap().hp = 40;
    let _rooms = next_level(&mut objects, &mut game);
    assert_eq!(game.dungeon_level, 2);
    assert_eq!(objects[0].fighter.as_ref().unwrap().hp, 90, "rested for half of max hp");
    assert!(world_wf_check(&objects));
    assert!(map_wf_check(&game.map));
    let n = game.log.len();
    assert_eq!(game.log[n - 2].0, "You take a moment to rest, and recover your strength");
    assert_eq!(
        game.log[n - 1].0,
        "After a rare moment of peace, you descend deeper into the heart of the dungeon..."
    );
}
