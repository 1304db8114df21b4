//! The dungeon generator: carves rooms and connecting tunnels into a fresh
//! grid and seeds entities into the rooms, scaled by dungeon depth.
//!
//! Random draws go through the wrappers in `rng`; every property stated here
//! holds for every outcome of those draws.

use vstd::prelude::*;
use vstd::string::*;

use crate::MAP_HEIGHT;
use crate::MAP_WIDTH;
use crate::MAX_ROOMS;
use crate::ROOM_MAX_SIZE;
use crate::ROOM_MIN_SIZE;
use crate::color::Color;
use crate::color::desaturated_green;
use crate::color::darker_green;
use crate::color::light_yellow;
use crate::color::spec_desaturated_green;
use crate::color::spec_darker_green;
use crate::color::spec_light_yellow;
use crate::color::spec_red;
use crate::color::red;
use crate::color::spec_violet;
use crate::color::spec_white;
use crate::color::violet;
use crate::color::white;
use crate::color::yellow;
use crate::color::spec_yellow;
use crate::engine::blocked_at;
use crate::engine::world_wf;
use crate::engine::is_blocked;
use crate::game::Game;
use crate::game::add_msg;
use crate::game::lemma_log_extended_push;
use crate::game::lemma_log_extended_refl;
use crate::game::lemma_log_extended_trans;
use crate::game::log_extended;
use crate::geom::Rect;
use crate::geom::rects_overlap;
use crate::object::Ai;
use crate::object::DeathCallback;
use crate::object::Fighter;
use crate::object::Item;
use crate::object::Object;
use crate::object::healed_fighter;
use crate::rng::rand_below;
use crate::rng::rand_bool;
use crate::rng::rand_range_i32;
use crate::text::dec_int;
use crate::text::push_dec_i64;
use crate::tile::Grid;
use crate::tile::Tile;
use crate::tile::at;
use crate::tile::blank_map;
use crate::tile::in_map;
use crate::tile::interior;
use crate::tile::map_wf;

verus! {

/// One step of a depth-scaled step function: from this depth upward, this
/// value applies.
#[derive(Clone, Copy, Debug, PartialEq, Eq, Structural)]
pub struct Transition {
    pub level: u32,
    pub value: u32,
}

/// The value of a depth-scaled step function at `level`: the value of the
/// last entry whose depth threshold is met, or 0 when none is.
pub open spec fn dungeon_level_value(t: Seq<Transition>, level: u32) -> u32
    decreases t.len(),
{
    if t.len() == 0 {
        0
    } else if level >= t.last().level {
        t.last().value
    } else {
        dungeon_level_value(t.drop_last(), level)
    }
}

/// Evaluates a depth-scaled step function.
pub fn from_dungeon_level(table: &[Transition], level: u32) -> (r: u32)
    ensures
        r == dungeon_level_value(table@, level),
{
    let mut i: usize = table.len();
    proof {
        assert(table@.take(table@.len() as int) =~= table@);
    }
    while i > 0
        invariant
            i <= table@.len(),
            dungeon_level_value(table@, level) == dungeon_level_value(
                table@.take(i as int),
                level,
            ),
        decreases i,
    {
        i = i - 1;
        let t = table[i];
        if level >= t.level {
            proof {
                assert(table@.take(i + 1).last() == table@[i as int]);
            }
            return t.value;
        }
        proof {
            assert(table@.take(i + 1).drop_last() =~= table@.take(i as int));
        }
    }
    proof {
        assert(table@.take(0) =~= Seq::<Transition>::empty());
    }
    0
}

/// The fully carved tile.
pub open spec fn carved() -> Tile {
    Tile { blocked: false, block_sight: false, explored: false }
}

/// A room fits the grid: it leaves the border ring untouched and is wide
/// enough that its center lies strictly inside its interior.
pub open spec fn room_ok(r: Rect) -> bool {
    &&& 0 <= r.x1
    &&& r.x1 + 2 <= r.x2
    &&& r.x2 <= MAP_WIDTH - 1
    &&& 0 <= r.y1
    &&& r.y1 + 2 <= r.y2
    &&& r.y2 <= MAP_HEIGHT - 1
}

/// `(x, y)` lies in the carved interior of room `r` (exclusive of the
/// one-cell border).
pub open spec fn in_room_interior(r: Rect, x: int, y: int) -> bool {
    r.x1 < x < r.x2 && r.y1 < y < r.y2
}

/// Carves one interior cell.
fn carve(map: &mut Grid, x: i32, y: i32)
    requires
        map_wf(old(map)@),
        interior(x as int, y as int),
    ensures
        map_wf(final(map)@),
        forall|xi: int, yi: int|
            in_map(xi, yi) ==> #[trigger] at(final(map)@, xi, yi) == if xi == x && yi == y {
                carved()
            } else {
                at(old(map)@, xi, yi)
            },
{
    let ghost m0 = map@;
    map[x as usize].set(y as usize, Tile::empty());
    proof {
        assert(map@ =~= m0.update(x as int, map@[x as int]));
        assert(map@[x as int]@ =~= m0[x as int]@.update(y as int, carved()));
        assert forall|xi: int, yi: int| in_map(xi, yi) implies #[trigger] at(map@, xi, yi) == (
        if xi == x && yi == y {
            carved()
        } else {
            at(m0, xi, yi)
        }) by {
            if xi != x {
                assert(map@[xi] == m0[xi]);
            }
        }
        assert forall|xx: int| 0 <= xx < MAP_WIDTH implies (#[trigger] map@[xx])@.len()
            == MAP_HEIGHT by {
            assert(m0[xx]@.len() == MAP_HEIGHT);
        }
        assert forall|xi: int, yi: int| in_map(xi, yi) && !interior(xi, yi) implies (
        #[trigger] at(map@, xi, yi)).blocked by {
            assert(at(m0, xi, yi).blocked);
        }
    }
}

/// Carves the interior of a room to walkable, see-through cells.
pub fn create_room(room: Rect, map: &mut Grid)
    requires
        map_wf(old(map)@),
        room_ok(room),
    ensures
        map_wf(final(map)@),
        forall|x: int, y: int|
            in_map(x, y) ==> #[trigger] at(final(map)@, x, y) == if in_room_interior(room, x, y) {
                carved()
            } else {
                at(old(map)@, x, y)
            },
{
    let mut x = room.x1 + 1;
    while x < room.x2
        invariant
            map_wf(map@),
            room_ok(room),
            room.x1 + 1 <= x <= room.x2,
            forall|xi: int, yi: int|
                in_map(xi, yi) ==> #[trigger] at(map@, xi, yi) == if in_room_interior(
                    room,
                    xi,
                    yi,
                ) && xi < x {
                    carved()
                } else {
                    at(old(map)@, xi, yi)
                },
        decreases room.x2 - x,
    {
        let mut y = room.y1 + 1;
        while y < room.y2
            invariant
                map_wf(map@),
                room_ok(room),
                room.x1 + 1 <= x < room.x2,
                room.y1 + 1 <= y <= room.y2,
                forall|xi: int, yi: int|
                    in_map(xi, yi) ==> #[trigger] at(map@, xi, yi) == if in_room_interior(
                        room,
                        xi,
                        yi,
                    ) && (xi < x || (xi == x && yi < y)) {
                        carved()
                    } else {
                        at(old(map)@, xi, yi)
                    },
            decreases room.y2 - y,
        {
            carve(map, x, y);
            y += 1;
        }
        x += 1;
    }
}

/// Every cell of the horizontal segment at row `y` between `x1` and `x2`
/// (inclusive, either order) is walkable.
pub open spec fn h_seg_clear(m: Seq<Vec<Tile>>, x1: int, x2: int, y: int) -> bool {
    forall|x: int|
        (if x1 <= x2 {
            x1 <= x <= x2
        } else {
            x2 <= x <= x1
        }) ==> !(#[trigger] at(m, x, y)).blocked
}

/// Every cell of the vertical segment at column `x` between `y1` and `y2`
/// (inclusive, either order) is walkable.
pub open spec fn v_seg_clear(m: Seq<Vec<Tile>>, y1: int, y2: int, x: int) -> bool {
    forall|y: int|
        (if y1 <= y2 {
            y1 <= y <= y2
        } else {
            y2 <= y <= y1
        }) ==> !(#[trigger] at(m, x, y)).blocked
}

/// Whether `(x, y)` lies on the horizontal segment.
pub open spec fn on_h_seg(x1: int, x2: int, y: int, xi: int, yi: int) -> bool {
    yi == y && (if x1 <= x2 {
        x1 <= xi <= x2
    } else {
        x2 <= xi <= x1
    })
}

/// Whether `(x, y)` lies on the vertical segment.
pub open spec fn on_v_seg(y1: int, y2: int, x: int, xi: int, yi: int) -> bool {
    xi == x && (if y1 <= y2 {
        y1 <= yi <= y2
    } else {
        y2 <= yi <= y1
    })
}

/// Carves a horizontal tunnel segment.
pub fn create_h_tunnel(x1: i32, x2: i32, y: i32, map: &mut Grid)
    requires
        map_wf(old(map)@),
        1 <= x1 <= MAP_WIDTH - 2,
        1 <= x2 <= MAP_WIDTH - 2,
        1 <= y <= MAP_HEIGHT - 2,
    ensures
        map_wf(final(map)@),
        forall|xi: int, yi: int|
            in_map(xi, yi) ==> #[trigger] at(final(map)@, xi, yi) == if on_h_seg(
                x1 as int,
                x2 as int,
                y as int,
                xi,
                yi,
            ) {
                carved()
            } else {
                at(old(map)@, xi, yi)
            },
{
    let lo = if x1 < x2 {
        x1
    } else {
        x2
    };
    let hi = if x1 < x2 {
        x2
    } else {
        x1
    };
    let mut x = lo;
    while x < hi + 1
        invariant
            map_wf(map@),
            lo <= x <= hi + 1,
            1 <= lo <= hi <= MAP_WIDTH - 2,
            1 <= y <= MAP_HEIGHT - 2,
            forall|xi: int, yi: int|
                in_map(xi, yi) ==> #[trigger] at(map@, xi, yi) == if yi == y && lo <= xi < x {
                    carved()
                } else {
                    at(old(map)@, xi, yi)
                },
        decreases hi + 1 - x,
    {
        carve(map, x, y);
        x += 1;
    }
}

/// Carves a vertical tunnel segment.
pub fn create_v_tunnel(y1: i32, y2: i32, x: i32, map: &mut Grid)
    requires
        map_wf(old(map)@),
        1 <= y1 <= MAP_HEIGHT - 2,
        1 <= y2 <= MAP_HEIGHT - 2,
        1 <= x <= MAP_WIDTH - 2,
    ensures
        map_wf(final(map)@),
        forall|xi: int, yi: int|
            in_map(xi, yi) ==> #[trigger] at(final(map)@, xi, yi) == if on_v_seg(
                y1 as int,
                y2 as int,
                x as int,
                xi,
                yi,
            ) {
                carved()
            } else {
                at(old(map)@, xi, yi)
            },
{
    let lo = if y1 < y2 {
        y1
    } else {
        y2
    };
    let hi = if y1 < y2 {
        y2
    } else {
        y1
    };
    let mut y = lo;
    while y < hi + 1
        invariant
            map_wf(map@),
            lo <= y <= hi + 1,
            1 <= lo <= hi <= MAP_HEIGHT - 2,
            1 <= x <= MAP_WIDTH - 2,
            forall|xi: int, yi: int|
                in_map(xi, yi) ==> #[trigger] at(map@, xi, yi) == if xi == x && lo <= yi < y {
                    carved()
                } else {
                    at(old(map)@, xi, yi)
                },
        decreases hi + 1 - y,
    {
        carve(map, x, y);
        y += 1;
    }
}

/// A depth-scaled step function never exceeds the largest value in its
/// table.
proof fn lemma_dlv_bound(t: Seq<Transition>, level: u32, b: u32)
    requires
        forall|i: int| 0 <= i < t.len() ==> (#[trigger] t[i]).value <= b,
    ensures
        dungeon_level_value(t, level) <= b,
    decreases t.len(),
{
    if t.len() > 0 && !(level >= t.last().level) {
        lemma_dlv_bound(t.drop_last(), level, b);
    }
}

/// An orc as the generator spawns it.
pub open spec fn is_orc(o: Object) -> bool {
    &&& o.glyph == 'o'
    &&& o.color == spec_desaturated_green()
    &&& o.name@ == "orc-"@ + dec_int(o.x + o.y)
    &&& o.blocks
    &&& o.alive
    &&& !o.always_visible
    &&& o.level == 1
    &&& o.fighter == Some(
        Fighter { max_hp: 20, hp: 20, defense: 0, power: 4, xp: 35, on_death: DeathCallback::Monster },
    )
    &&& o.ai == Some(Ai::Basic)
    &&& o.item is None
}

/// A troll as the generator spawns it.
pub open spec fn is_troll(o: Object) -> bool {
    &&& o.glyph == 'T'
    &&& o.color == spec_darker_green()
    &&& o.name@ == "troll-"@ + dec_int(o.x + o.y)
    &&& o.blocks
    &&& o.alive
    &&& !o.always_visible
    &&& o.level == 1
    &&& o.fighter == Some(
        Fighter {
            max_hp: 30,
            hp: 30,
            defense: 2,
            power: 8,
            xp: 100,
            on_death: DeathCallback::Monster,
        },
    )
    &&& o.ai == Some(Ai::Basic)
    &&& o.item is None
}

/// An npc as the generator spawns it.
pub open spec fn is_npc(o: Object) -> bool {
    &&& o.glyph == '&'
    &&& o.color == spec_yellow()
    &&& o.name@ == "npc-"@ + dec_int(o.x + o.y)
    &&& o.blocks
    &&& o.alive
    &&& !o.always_visible
    &&& o.level == 1
    &&& o.fighter == Some(
        Fighter { max_hp: 10, hp: 10, defense: 0, power: 3, xp: 10, on_death: DeathCallback::Monster },
    )
    &&& o.ai == Some(Ai::Basic)
    &&& o.item is None
}

/// A ground item as the generator spawns it.
pub open spec fn is_item_entity(o: Object) -> bool {
    &&& !o.blocks
    &&& !o.alive
    &&& o.always_visible
    &&& o.level == 1
    &&& o.fighter is None
    &&& o.ai is None
    &&& match o.item {
        Option::Some(Item::Heal) => o.glyph == '!' && o.name@ == "healing potion"@ && o.color
            == spec_violet(),
        Option::Some(Item::Lightning) => o.glyph == '#' && o.name@ == "scroll of lightning bolt"@
            && o.color == spec_light_yellow(),
        Option::Some(Item::Fireball) => o.glyph == '#' && o.name@ == "scroll of fireball"@
            && o.color == spec_light_yellow(),
        Option::Some(Item::Confuse) => o.glyph == '#' && o.name@ == "scroll of confusion"@
            && o.color == spec_light_yellow(),
        Option::None => false,
    }
}

/// Anything the generator seeds into a room: a monster from one of the
/// fixed stat templates, or a ground item.
pub open spec fn spawned_ok(o: Object) -> bool {
    is_orc(o) || is_troll(o) || is_npc(o) || is_item_entity(o)
}

fn make_orc(x: i32, y: i32) -> (o: Object)
    requires
        -1000 <= x <= 1000,
        -1000 <= y <= 1000,
    ensures
        is_orc(o),
        o.x == x && o.y == y,
{
    let mut nm = String::from_str("orc-");
    push_dec_i64(&mut nm, (x + y) as i64);
    let mut orc = Object::new(x, y, 'o', nm.as_str(), desaturated_green(), true);
    orc.fighter = Some(
        Fighter { max_hp: 20, hp: 20, defense: 0, power: 4, xp: 35, on_death: DeathCallback::Monster },
    );
    orc.ai = Some(Ai::Basic);
    orc.alive = true;
    orc
}

fn make_troll(x: i32, y: i32) -> (o: Object)
    requires
        -1000 <= x <= 1000,
        -1000 <= y <= 1000,
    ensures
        is_troll(o),
        o.x == x && o.y == y,
{
    let mut nm = String::from_str("troll-");
    push_dec_i64(&mut nm, (x + y) as i64);
    let mut troll = Object::new(x, y, 'T', nm.as_str(), darker_green(), true);
    troll.fighter = Some(
        Fighter {
            max_hp: 30,
            hp: 30,
            defense: 2,
            power: 8,
            xp: 100,
            on_death: DeathCallback::Monster,
        },
    );
    troll.ai = Some(Ai::Basic);
    troll.alive = true;
    troll
}

fn make_npc(x: i32, y: i32) -> (o: Object)
    requires
        -1000 <= x <= 1000,
        -1000 <= y <= 1000,
    ensures
        is_npc(o),
        o.x == x && o.y == y,
{
    let mut nm = String::from_str("npc-");
    push_dec_i64(&mut nm, (x + y) as i64);
    let mut npc = Object::new(x, y, '&', nm.as_str(), yellow(), true);
    npc.fighter = Some(
        Fighter { max_hp: 10, hp: 10, defense: 0, power: 3, xp: 10, on_death: DeathCallback::Monster },
    );
    npc.ai = Some(Ai::Basic);
    npc.alive = true;
    npc
}

fn make_item(x: i32, y: i32, kind: Item) -> (o: Object)
    ensures
        is_item_entity(o),
        o.x == x && o.y == y,
{
    let mut o = match kind {
        Item::Heal => Object::new(x, y, '!', "healing potion", violet(), false),
        Item::Lightning => Object::new(x, y, '#', "scroll of lightning bolt", light_yellow(), false),
        Item::Fireball => Object::new(x, y, '#', "scroll of fireball", light_yellow(), false),
        Item::Confuse => Object::new(x, y, '#', "scroll of confusion", light_yellow(), false),
    };
    o.item = Some(kind);
    o.always_visible = true;
    o
}

/// The depth-scaled table bounding how many monsters one room may hold.
pub open spec fn monster_count_table() -> Seq<Transition> {
    seq![
        Transition { level: 1, value: 2 },
        Transition { level: 4, value: 3 },
        Transition { level: 6, value: 5 },
    ]
}

/// The depth-scaled table bounding how many items one room may hold.
pub open spec fn item_count_table() -> Seq<Transition> {
    seq![Transition { level: 1, value: 1 }, Transition { level: 4, value: 2 }]
}

/// Seeds one room with random monsters and items. Counts and species
/// weights scale with dungeon depth through step-function tables; a spawn
/// landing on a blocked or occupied cell is skipped, not retried. Every
/// spawn stood on a cell that was unblocked and unoccupied when it was
/// chosen, and one seeding appends at most the two depth-scaled maxima.
pub fn place_objects(room: Rect, map: &Grid, objects: &mut Vec<Object>, level: u32)
    requires
        map_wf(map@),
        room_ok(room),
    ensures
        final(objects)@.len() >= old(objects)@.len(),
        final(objects)@.len() <= old(objects)@.len() + dungeon_level_value(
            monster_count_table(),
            level,
        ) + dungeon_level_value(item_count_table(), level),
        final(objects)@.take(old(objects)@.len() as int) == old(objects)@,
        forall|k: int|
            old(objects)@.len() <= k < final(objects)@.len() ==> spawned_ok(
                #[trigger] final(objects)@[k],
            ) && in_room_interior(room, final(objects)@[k].x as int, final(objects)@[k].y as int),
        forall|k: int|
            old(objects)@.len() <= k < final(objects)@.len() ==> !blocked_at(
                map@,
                final(objects)@.take(k),
                (#[trigger] final(objects)@[k]).x as int,
                final(objects)@[k].y as int,
            ),
{
    proof {
        assert(objects@.take(objects@.len() as int) =~= objects@);
    }
    let mut monster_table: Vec<Transition> = Vec::new();
    monster_table.push(Transition { level: 1, value: 2 });
    monster_table.push(Transition { level: 4, value: 3 });
    monster_table.push(Transition { level: 6, value: 5 });
    let max_monsters = from_dungeon_level(&monster_table, level);
    proof {
        lemma_dlv_bound(monster_table@, level, 5);
    }
    let num_monsters = rand_below(max_monsters + 1);

    let mut troll_table: Vec<Transition> = Vec::new();
    troll_table.push(Transition { level: 3, value: 15 });
    troll_table.push(Transition { level: 5, value: 30 });
    troll_table.push(Transition { level: 7, value: 60 });
    let troll_chance = from_dungeon_level(&troll_table, level);
    proof {
        lemma_dlv_bound(troll_table@, level, 60);
    }

    let mut k: u32 = 0;
    while k < num_monsters
        invariant
            map_wf(map@),
            room_ok(room),
            troll_chance <= 60,
            k <= num_monsters,
            objects@.len() >= old(objects)@.len(),
            objects@.len() <= old(objects)@.len() + k,
            objects@.take(old(objects)@.len() as int) == old(objects)@,
            forall|j: int|
                old(objects)@.len() <= j < objects@.len() ==> spawned_ok(#[trigger] objects@[j])
                    && in_room_interior(room, objects@[j].x as int, objects@[j].y as int),
            forall|j: int|
                old(objects)@.len() <= j < objects@.len() ==> !blocked_at(
                    map@,
                    objects@.take(j),
                    (#[trigger] objects@[j]).x as int,
                    objects@[j].y as int,
                ),
        decreases num_monsters - k,
    {
        let x = rand_range_i32(room.x1 + 1, room.x2);
        let y = rand_range_i32(room.y1 + 1, room.y2);
        if !is_blocked(x, y, map, objects) {
            let total: u32 = 80 + troll_chance + 5;
            let d = rand_below(total);
            let creature = if d < 80 {
                make_orc(x, y)
            } else if d < 80 + troll_chance {
                make_troll(x, y)
            } else {
                make_npc(x, y)
            };
            let ghost pre = objects@;
            objects.push(creature);
            proof {
                assert(objects@.take(old(objects)@.len() as int) =~= pre.take(
                    old(objects)@.len() as int,
                ));
                assert forall|j: int|
                    old(objects)@.len() <= j < objects@.len() implies !blocked_at(
                    map@,
                    objects@.take(j),
                    (#[trigger] objects@[j]).x as int,
                    objects@[j].y as int,
                ) by {
                    if j < pre.len() {
                        assert(objects@.take(j) =~= pre.take(j));
                        assert(objects@[j] == pre[j]);
                    } else {
                        assert(objects@.take(j) =~= pre);
                        assert(objects@[j].x == x && objects@[j].y == y);
                    }
                }
            }
        }
        k += 1;
    }
    proof {
        assert(monster_table@ =~= monster_count_table());
        assert(objects@.len() <= old(objects)@.len() + dungeon_level_value(
            monster_count_table(),
            level,
        ));
    }

    let mut item_table: Vec<Transition> = Vec::new();
    item_table.push(Transition { level: 1, value: 1 });
    item_table.push(Transition { level: 4, value: 2 });
    let max_items = from_dungeon_level(&item_table, level);
    proof {
        lemma_dlv_bound(item_table@, level, 2);
    }
    let num_items = rand_below(max_items + 1);

    let mut lightning_table: Vec<Transition> = Vec::new();
    lightning_table.push(Transition { level: 4, value: 25 });
    let lightning_chance = from_dungeon_level(&lightning_table, level);
    let mut fireball_table: Vec<Transition> = Vec::new();
    fireball_table.push(Transition { level: 6, value: 25 });
    let fireball_chance = from_dungeon_level(&fireball_table, level);
    let mut confuse_table: Vec<Transition> = Vec::new();
    confuse_table.push(Transition { level: 2, value: 10 });
    let confuse_chance = from_dungeon_level(&confuse_table, level);
    proof {
        lemma_dlv_bound(lightning_table@, level, 25);
        lemma_dlv_bound(fireball_table@, level, 25);
        lemma_dlv_bound(confuse_table@, level, 10);
    }

    let ghost mm = dungeon_level_value(monster_count_table(), level);
    let mut k2: u32 = 0;
    while k2 < num_items
        invariant
            map_wf(map@),
            room_ok(room),
            lightning_chance <= 25,
            fireball_chance <= 25,
            confuse_chance <= 10,
            k2 <= num_items,
            objects@.len() >= old(objects)@.len(),
            objects@.len() <= old(objects)@.len() + mm + k2,
            mm == dungeon_level_value(monster_count_table(), level),
            objects@.take(old(objects)@.len() as int) == old(objects)@,
            forall|j: int|
                old(objects)@.len() <= j < objects@.len() ==> spawned_ok(#[trigger] objects@[j])
                    && in_room_interior(room, objects@[j].x as int, objects@[j].y as int),
            forall|j: int|
                old(objects)@.len() <= j < objects@.len() ==> !blocked_at(
                    map@,
                    objects@.take(j),
                    (#[trigger] objects@[j]).x as int,
                    objects@[j].y as int,
                ),
        decreases num_items - k2,
    {
        let x = rand_range_i32(room.x1 + 1, room.x2);
        let y = rand_range_i32(room.y1 + 1, room.y2);
        if !is_blocked(x, y, map, objects) {
            let total: u32 = 35 + lightning_chance + fireball_chance + confuse_chance;
            let d = rand_below(total);
            let kind = if d < 35 {
                Item::Heal
            } else if d < 35 + lightning_chance {
                Item::Lightning
            } else if d < 35 + lightning_chance + fireball_chance {
                Item::Fireball
            } else {
                Item::Confuse
            };
            let item = make_item(x, y, kind);
            let ghost pre = objects@;
            objects.push(item);
            proof {
                assert(objects@.take(old(objects)@.len() as int) =~= pre.take(
                    old(objects)@.len() as int,
                ));
                assert forall|j: int|
                    old(objects)@.len() <= j < objects@.len() implies !blocked_at(
                    map@,
                    objects@.take(j),
                    (#[trigger] objects@[j]).x as int,
                    objects@[j].y as int,
                ) by {
                    if j < pre.len() {
                        assert(objects@.take(j) =~= pre.take(j));
                        assert(objects@[j] == pre[j]);
                    } else {
                        assert(objects@.take(j) =~= pre);
                        assert(objects@[j].x == x && objects@[j].y == y);
                    }
                }
            }
        }
        k2 += 1;
    }
    proof {
        assert(item_table@ =~= item_count_table());
    }
}

/// Carving never blocks a cell: between two generator steps every cell is
/// either freshly carved or untouched.
pub open spec fn carve_monotone(m0: Seq<Vec<Tile>>, m1: Seq<Vec<Tile>>) -> bool {
    forall|x: int, y: int|
        in_map(x, y) ==> (#[trigger] at(m1, x, y)) == carved() || at(m1, x, y) == at(m0, x, y)
}

/// An elbow path of one horizontal and one vertical tunnel segment connects
/// `a` to `b`, in one of the two possible orders; every cell on it is
/// walkable.
pub open spec fn l_path_clear(m: Seq<Vec<Tile>>, a: (int, int), b: (int, int)) -> bool {
    ||| (h_seg_clear(m, a.0, b.0, a.1) && v_seg_clear(m, a.1, b.1, b.0))
    ||| (v_seg_clear(m, a.1, b.1, a.0) && h_seg_clear(m, a.0, b.0, b.1))
}

/// Every accepted room's interior is fully carved.
pub open spec fn rooms_carved(m: Seq<Vec<Tile>>, rooms: Seq<Rect>) -> bool {
    forall|i: int, x: int, y: int|
        0 <= i < rooms.len() && #[trigger] in_room_interior(rooms[i], x, y) ==> at(m, x, y)
            == carved()
}

/// No two accepted rooms' bounding rectangles overlap.
pub open spec fn rooms_disjoint(rooms: Seq<Rect>) -> bool {
    forall|i: int, j: int|
        0 <= i < rooms.len() && 0 <= j < rooms.len() && i != j ==> !(#[trigger] rects_overlap(
            rooms[i],
            rooms[j],
        ))
}

/// Each accepted room after the first is connected to its predecessor's
/// center by a carved elbow path.
pub open spec fn rooms_connected(m: Seq<Vec<Tile>>, rooms: Seq<Rect>) -> bool {
    forall|i: int, j: int|
        #![trigger rooms[i], rooms[j]]
        0 <= i && j == i + 1 && j < rooms.len() ==> l_path_clear(
            m,
            rooms[i].center_spec(),
            rooms[j].center_spec(),
        )
}

/// Everything `make_map` promises of a freshly generated level's grid and
/// accepted rooms.
pub open spec fn generated_level(m: Seq<Vec<Tile>>, rooms: Seq<Rect>) -> bool {
    &&& map_wf(m)
    &&& rooms.len() >= 1
    &&& forall|i: int| 0 <= i < rooms.len() ==> room_ok(#[trigger] rooms[i])
    &&& rooms_carved(m, rooms)
    &&& rooms_disjoint(rooms)
    &&& rooms_connected(m, rooms)
    &&& forall|x: int, y: int| in_map(x, y) ==> !(#[trigger] at(m, x, y)).explored
}

/// Every entity after the player stands strictly inside some accepted
/// room's interior: nothing from an earlier level survives the transition.
pub open spec fn entities_in_rooms(s: Seq<Object>, rooms: Seq<Rect>) -> bool {
    forall|k: int|
        #![trigger s[k]]
        1 <= k < s.len() ==> exists|ri: int|
            0 <= ri < rooms.len() && #[trigger] in_room_interior(
                rooms[ri],
                s[k].x as int,
                s[k].y as int,
            )
}

/// The stairs-down marker entity placed at the last room's center.
pub open spec fn stairs_ok(o: Object, r: Rect) -> bool {
    &&& o.glyph == '<'
    &&& o.name@ == "stairs"@
    &&& o.color == spec_white()
    &&& !o.blocks
    &&& !o.alive
    &&& o.always_visible
    &&& o.level == 1
    &&& o.fighter is None
    &&& o.ai is None
    &&& o.item is None
    &&& (o.x as int, o.y as int) == r.center_spec()
}

/// The center of a well-fitting room lies strictly inside the room, and so
/// strictly inside the grid's border.
proof fn lemma_center_interior(r: Rect)
    requires
        room_ok(r),
    ensures
        in_room_interior(r, r.center_spec().0, r.center_spec().1),
        interior(r.center_spec().0, r.center_spec().1),
{
    assert(r.x1 + 1 <= (r.x1 + r.x2) / 2 <= r.x2 - 1) by (nonlinear_arith)
        requires
            0 <= r.x1,
            r.x1 + 2 <= r.x2,
    ;
    assert(r.y1 + 1 <= (r.y1 + r.y2) / 2 <= r.y2 - 1) by (nonlinear_arith)
        requires
            0 <= r.y1,
            r.y1 + 2 <= r.y2,
    ;
}

/// A carved elbow path stays carved under further carving.
proof fn lemma_path_preserved(
    m0: Seq<Vec<Tile>>,
    m1: Seq<Vec<Tile>>,
    a: (int, int),
    b: (int, int),
)
    requires
        carve_monotone(m0, m1),
        l_path_clear(m0, a, b),
        interior(a.0, a.1),
        interior(b.0, b.1),
    ensures
        l_path_clear(m1, a, b),
{
    if h_seg_clear(m0, a.0, b.0, a.1) && v_seg_clear(m0, a.1, b.1, b.0) {
        assert forall|x: int|
            (if a.0 <= b.0 {
                a.0 <= x <= b.0
            } else {
                b.0 <= x <= a.0
            }) implies !(#[trigger] at(m1, x, a.1)).blocked by {
            assert(!at(m0, x, a.1).blocked);
            assert(in_map(x, a.1));
        }
        assert forall|y: int|
            (if a.1 <= b.1 {
                a.1 <= y <= b.1
            } else {
                b.1 <= y <= a.1
            }) implies !(#[trigger] at(m1, b.0, y)).blocked by {
            assert(!at(m0, b.0, y).blocked);
            assert(in_map(b.0, y));
        }
        assert(h_seg_clear(m1, a.0, b.0, a.1) && v_seg_clear(m1, a.1, b.1, b.0));
    } else {
        assert forall|y: int|
            (if a.1 <= b.1 {
                a.1 <= y <= b.1
            } else {
                b.1 <= y <= a.1
            }) implies !(#[trigger] at(m1, a.0, y)).blocked by {
            assert(!at(m0, a.0, y).blocked);
            assert(in_map(a.0, y));
        }
        assert forall|x: int|
            (if a.0 <= b.0 {
                a.0 <= x <= b.0
            } else {
                b.0 <= x <= a.0
            }) implies !(#[trigger] at(m1, x, b.1)).blocked by {
            assert(!at(m0, x, b.1).blocked);
            assert(in_map(x, b.1));
        }
        assert(v_seg_clear(m1, a.1, b.1, a.0) && h_seg_clear(m1, a.0, b.0, b.1));
    }
}

/// Whether a candidate room overlaps any already accepted room.
fn room_overlaps_any(rooms: &Vec<Rect>, r: &Rect) -> (b: bool)
    ensures
        b == exists|j: int| 0 <= j < rooms@.len() && rects_overlap(rooms@[j], *r),
{
    let n = rooms.len();
    let mut i: usize = 0;
    while i < n
        invariant
            n == rooms@.len(),
            i <= n,
            forall|j: int| 0 <= j < i ==> !rects_overlap(rooms@[j], *r),
        decreases n - i,
    {
        if rooms[i].intersects_with(r) {
            return true;
        }
        i += 1;
    }
    false
}

/// Carves a fresh level: attempts a fixed number of candidate rooms,
/// accepts the non-overlapping ones, connects consecutive accepted rooms
/// with elbow tunnels, seeds each room, repositions the player to the first
/// room's center and drops the stairs marker at the last room's center. The
/// world collection is truncated to the player first, so nothing survives a
/// level transition.
pub fn make_map(objects: &mut Vec<Object>, level: u32) -> (r: (Grid, Vec<Rect>))
    requires
        old(objects)@.len() >= 1,
        old(objects)@[0].fighter matches Some(f) && f.on_death == DeathCallback::Player
            && f.max_hp >= 0,
        old(objects)@[0].item is None,
        old(objects)@[0].ai is None,
    ensures
        generated_level(r.0@, r.1@),
        world_wf(final(objects)@),
        final(objects)@.len() >= 2,
        (final(objects)@[0].x as int, final(objects)@[0].y as int) == r.1@[0].center_spec(),
        final(objects)@[0] == (Object {
            x: final(objects)@[0].x,
            y: final(objects)@[0].y,
            ..old(objects)@[0]
        }),
        stairs_ok(final(objects)@.last(), r.1@.last()),
        forall|k: int|
            1 <= k < final(objects)@.len() - 1 ==> spawned_ok(#[trigger] final(objects)@[k]),
        entities_in_rooms(final(objects)@, r.1@),
{
    let mut map = blank_map();
    objects.truncate(1);
    proof {
        assert(objects@ =~= old(objects)@.take(1));
        assert(objects@[0] == old(objects)@[0]);
    }
    let mut rooms: Vec<Rect> = Vec::new();

    let mut attempt: usize = 0;
    while attempt < MAX_ROOMS as usize
        invariant
            map_wf(map@),
            attempt >= 1 ==> rooms@.len() >= 1,
            forall|i: int| 0 <= i < rooms@.len() ==> room_ok(#[trigger] rooms@[i]),
            rooms_carved(map@, rooms@),
            rooms_disjoint(rooms@),
            rooms_connected(map@, rooms@),
            forall|x: int, y: int| in_map(x, y) ==> !(#[trigger] at(map@, x, y)).explored,
            objects@.len() >= 1,
            rooms@.len() == 0 ==> objects@[0] == old(objects)@[0],
            rooms@.len() >= 1 ==> (objects@[0].x as int, objects@[0].y as int)
                == rooms@[0].center_spec(),
            objects@[0] == (Object { x: objects@[0].x, y: objects@[0].y, ..old(objects)@[0] }),
            forall|k: int|
                1 <= k < objects@.len() ==> spawned_ok(#[trigger] objects@[k]) && interior(
                    objects@[k].x as int,
                    objects@[k].y as int,
                ),
            entities_in_rooms(objects@, rooms@),
        decreases MAX_ROOMS - attempt,
    {
        let w = rand_range_i32(ROOM_MIN_SIZE, ROOM_MAX_SIZE + 1);
        let h = rand_range_i32(ROOM_MIN_SIZE, ROOM_MAX_SIZE + 1);
        let x = rand_range_i32(0, MAP_WIDTH - w);
        let y = rand_range_i32(0, MAP_HEIGHT - h);

        let new_room = Rect::new(x, y, w, h);
        proof {
            assert(room_ok(new_room));
        }
        let failed = room_overlaps_any(&rooms, &new_room);

        if !failed {
            let ghost m0 = map@;
            let ghost objs0 = objects@;
            create_room(new_room, &mut map);
            let ghost m1 = map@;
            place_objects(new_room, &map, objects, level);
            proof {
                assert forall|k: int| 1 <= k < objects@.len() implies spawned_ok(
                    #[trigger] objects@[k],
                ) && interior(objects@[k].x as int, objects@[k].y as int) by {
                    if k < objs0.len() {
                        assert(objects@[k] == objects@.take(objs0.len() as int)[k]);
                        assert(objects@[k] == objs0[k]);
                    } else {
                        assert(in_room_interior(new_room, objects@[k].x as int, objects@[k].y as int));
                    }
                }
                assert(objects@[0] == objects@.take(objs0.len() as int)[0]);
            }

            let (new_x, new_y) = new_room.center();
            proof {
                lemma_center_interior(new_room);
            }
            if rooms.len() == 0 {
                objects[0].set_pos(new_x, new_y);
            } else {
                let (prev_x, prev_y) = rooms[rooms.len() - 1].center();
                proof {
                    lemma_center_interior(rooms@.last());
                }
                if rand_bool() {
                    create_h_tunnel(prev_x, new_x, prev_y, &mut map);
                    let ghost m2 = map@;
                    create_v_tunnel(prev_y, new_y, new_x, &mut map);
                    proof {
                        assert(h_seg_clear(m2, prev_x as int, new_x as int, prev_y as int));
                        assert(carve_monotone(m2, map@));
                        assert(h_seg_clear(map@, prev_x as int, new_x as int, prev_y as int));
                        assert(v_seg_clear(map@, prev_y as int, new_y as int, new_x as int));
                        assert(l_path_clear(
                            map@,
                            rooms@.last().center_spec(),
                            new_room.center_spec(),
                        ));
                    }
                } else {
                    create_v_tunnel(prev_y, new_y, prev_x, &mut map);
                    let ghost m2 = map@;
                    create_h_tunnel(prev_x, new_x, new_y, &mut map);
                    proof {
                        assert(v_seg_clear(m2, prev_y as int, new_y as int, prev_x as int));
                        assert(carve_monotone(m2, map@));
                        assert(v_seg_clear(map@, prev_y as int, new_y as int, prev_x as int));
                        assert(h_seg_clear(map@, prev_x as int, new_x as int, new_y as int));
                        assert(l_path_clear(
                            map@,
                            rooms@.last().center_spec(),
                            new_room.center_spec(),
                        ));
                    }
                }
            }
            let ghost rooms0 = rooms@;
            rooms.push(new_room);
            proof {
                assert forall|kk: int|
                    #![trigger objects@[kk]]
                    1 <= kk < objects@.len() implies exists|ri: int|
                    0 <= ri < rooms@.len() && #[trigger] in_room_interior(
                        rooms@[ri],
                        objects@[kk].x as int,
                        objects@[kk].y as int,
                    ) by {
                    if kk < objs0.len() {
                        assert(objects@[kk] == objs0[kk]);
                        let ri = choose|ri: int|
                            0 <= ri < rooms0.len() && in_room_interior(
                                rooms0[ri],
                                objs0[kk].x as int,
                                objs0[kk].y as int,
                            );
                        assert(rooms@[ri] == rooms0[ri]);
                        assert(in_room_interior(
                            rooms@[ri],
                            objects@[kk].x as int,
                            objects@[kk].y as int,
                        ));
                    } else {
                        assert(in_room_interior(
                            new_room,
                            objects@[kk].x as int,
                            objects@[kk].y as int,
                        ));
                        assert(rooms@[rooms0.len() as int] == new_room);
                        assert(in_room_interior(
                            rooms@[rooms0.len() as int],
                            objects@[kk].x as int,
                            objects@[kk].y as int,
                        ));
                    }
                }
                assert(carve_monotone(m0, map@));
                assert(carve_monotone(m1, map@));
                // every older room's interior stays carved, and the new room's
                // interior was carved by create_room and stays carved
                assert forall|i: int, xx: int, yy: int|
                    0 <= i < rooms@.len() && #[trigger] in_room_interior(
                        rooms@[i],
                        xx,
                        yy,
                    ) implies at(map@, xx, yy) == carved() by {
                    assert(room_ok(rooms@[i]));
                    assert(in_map(xx, yy));
                    if i < rooms0.len() {
                        assert(in_room_interior(rooms0[i], xx, yy));
                        assert(at(m0, xx, yy) == carved());
                    } else {
                        assert(rooms@[i] == new_room);
                        assert(at(m1, xx, yy) == carved());
                    }
                }
                // disjointness: the overlap test refused every overlapping candidate
                assert forall|i: int, j: int|
                    0 <= i < rooms@.len() && 0 <= j < rooms@.len() && i != j implies !(
                #[trigger] rects_overlap(rooms@[i], rooms@[j])) by {
                    if i < rooms0.len() && j < rooms0.len() {
                        assert(!rects_overlap(rooms0[i], rooms0[j]));
                    } else if i < rooms0.len() {
                        assert(!rects_overlap(rooms0[i], new_room));
                    } else {
                        assert(!rects_overlap(rooms0[j], new_room));
                    }
                }
                // connectivity: older elbows stay carved; the new elbow was
                // just carved
                assert forall|i: int, j: int|
                    #![trigger rooms@[i], rooms@[j]]
                    0 <= i && j == i + 1 && j < rooms@.len() implies l_path_clear(
                    map@,
                    rooms@[i].center_spec(),
                    rooms@[j].center_spec(),
                ) by {
                    if j < rooms0.len() {
                        assert(l_path_clear(m0, rooms0[i].center_spec(), rooms0[j].center_spec()));
                        lemma_center_interior(rooms0[i]);
                        lemma_center_interior(rooms0[j]);
                        lemma_path_preserved(
                            m0,
                            map@,
                            rooms0[i].center_spec(),
                            rooms0[j].center_spec(),
                        );
                    } else {
                        assert(rooms@[j] == new_room);
                        assert(rooms0.len() >= 1);
                        assert(rooms@[i] == rooms0[rooms0.len() - 1]);
                    }
                }
            }
        }
        attempt += 1;
    }

    let (lx, ly) = rooms[rooms.len() - 1].center();
    proof {
        lemma_center_interior(rooms@.last());
    }
    let mut stairs = Object::new(lx, ly, '<', "stairs", white(), false);
    stairs.always_visible = true;
    let ghost objs_before = objects@;
    objects.push(stairs);
    proof {
        assert forall|kk: int|
            #![trigger objects@[kk]]
            1 <= kk < objects@.len() implies exists|ri: int|
            0 <= ri < rooms@.len() && #[trigger] in_room_interior(
                rooms@[ri],
                objects@[kk].x as int,
                objects@[kk].y as int,
            ) by {
            if kk < objs_before.len() {
                assert(objects@[kk] == objs_before[kk]);
                let ri = choose|ri: int|
                    0 <= ri < rooms@.len() && in_room_interior(
                        rooms@[ri],
                        objs_before[kk].x as int,
                        objs_before[kk].y as int,
                    );
                assert(in_room_interior(rooms@[ri], objects@[kk].x as int, objects@[kk].y as int));
            } else {
                assert(in_room_interior(
                    rooms@[rooms@.len() - 1],
                    objects@[kk].x as int,
                    objects@[kk].y as int,
                ));
            }
        }
    }
    (map, rooms)
}

/// Two cells adjacent along one axis.
pub open spec fn cells_adjacent(a: (int, int), b: (int, int)) -> bool {
    ||| (a.0 == b.0 && (a.1 == b.1 + 1 || a.1 + 1 == b.1))
    ||| (a.1 == b.1 && (a.0 == b.0 + 1 || a.0 + 1 == b.0))
}

/// A path of carved cells: consecutive entries are adjacent and every cell
/// on it is walkable.
pub open spec fn carved_path(m: Seq<Vec<Tile>>, p: Seq<(int, int)>) -> bool {
    &&& p.len() >= 1
    &&& forall|i: int| 0 <= i < p.len() ==> !at(m, (#[trigger] p[i]).0, p[i].1).blocked
    &&& forall|i: int, j: int|
        #![trigger p[i], p[j]]
        0 <= i && j == i + 1 && j < p.len() ==> cells_adjacent(p[i], p[j])
}

proof fn lemma_h_walk(m: Seq<Vec<Tile>>, x1: int, x2: int, y: int) -> (p: Seq<(int, int)>)
    requires
        h_seg_clear(m, x1, x2, y),
    ensures
        carved_path(m, p),
        p.first() == (x1, y),
        p.last() == (x2, y),
    decreases (if x1 <= x2 {
        x2 - x1
    } else {
        x1 - x2
    }),
{
    if x1 == x2 {
        let p = seq![(x1, y)];
        assert(!at(m, x1, y).blocked);
        p
    } else {
        let step: int = if x1 < x2 {
            1
        } else {
            -1
        };
        assert(h_seg_clear(m, x1 + step, x2, y)) by {
            assert forall|x: int|
                (if x1 + step <= x2 {
                    x1 + step <= x <= x2
                } else {
                    x2 <= x <= x1 + step
                }) implies !(#[trigger] at(m, x, y)).blocked by {
                assert((if x1 <= x2 {
                    x1 <= x <= x2
                } else {
                    x2 <= x <= x1
                }));
            }
        }
        let rest = lemma_h_walk(m, x1 + step, x2, y);
        let p = seq![((x1, y))] + rest;
        assert(!at(m, x1, y).blocked);
        assert forall|i: int| 0 <= i < p.len() implies !at(
            m,
            (#[trigger] p[i]).0,
            p[i].1,
        ).blocked by {
            if i > 0 {
                assert(p[i] == rest[i - 1]);
            }
        }
        assert forall|i: int, j: int|
            #![trigger p[i], p[j]]
            0 <= i && j == i + 1 && j < p.len() implies cells_adjacent(p[i], p[j]) by {
            if i == 0 {
                assert(p[0] == (x1, y));
                assert(p[1] == rest[0]);
                assert(rest[0] == rest.first());
                assert(cells_adjacent((x1, y), (x1 + step, y)));
            } else {
                assert(p[i] == rest[i - 1]);
                assert(p[j] == rest[j - 1]);
                assert(cells_adjacent(rest[i - 1], rest[i - 1 + 1]));
            }
        }
        p
    }
}

proof fn lemma_v_walk(m: Seq<Vec<Tile>>, y1: int, y2: int, x: int) -> (p: Seq<(int, int)>)
    requires
        v_seg_clear(m, y1, y2, x),
    ensures
        carved_path(m, p),
        p.first() == (x, y1),
        p.last() == (x, y2),
    decreases (if y1 <= y2 {
        y2 - y1
    } else {
        y1 - y2
    }),
{
    if y1 == y2 {
        let p = seq![(x, y1)];
        assert(!at(m, x, y1).blocked);
        p
    } else {
        let step: int = if y1 < y2 {
            1
        } else {
            -1
        };
        assert(v_seg_clear(m, y1 + step, y2, x)) by {
            assert forall|y: int|
                (if y1 + step <= y2 {
                    y1 + step <= y <= y2
                } else {
                    y2 <= y <= y1 + step
                }) implies !(#[trigger] at(m, x, y)).blocked by {
                assert((if y1 <= y2 {
                    y1 <= y <= y2
                } else {
                    y2 <= y <= y1
                }));
            }
        }
        let rest = lemma_v_walk(m, y1 + step, y2, x);
        let p = seq![((x, y1))] + rest;
        assert(!at(m, x, y1).blocked);
        assert forall|i: int| 0 <= i < p.len() implies !at(
            m,
            (#[trigger] p[i]).0,
            p[i].1,
        ).blocked by {
            if i > 0 {
                assert(p[i] == rest[i - 1]);
            }
        }
        assert forall|i: int, j: int|
            #![trigger p[i], p[j]]
            0 <= i && j == i + 1 && j < p.len() implies cells_adjacent(p[i], p[j]) by {
            if i == 0 {
                assert(p[0] == (x, y1));
                assert(p[1] == rest[0]);
                assert(rest[0] == rest.first());
                assert(cells_adjacent((x, y1), (x, y1 + step)));
            } else {
                assert(p[i] == rest[i - 1]);
                assert(p[j] == rest[j - 1]);
                assert(cells_adjacent(rest[i - 1], rest[i - 1 + 1]));
            }
        }
        p
    }
}

/// Joining two carved paths at a shared endpoint gives a carved path.
proof fn lemma_path_join(m: Seq<Vec<Tile>>, p1: Seq<(int, int)>, p2: Seq<(int, int)>) -> (p: Seq<
    (int, int),
>)
    requires
        carved_path(m, p1),
        carved_path(m, p2),
        p1.last() == p2.first(),
    ensures
        carved_path(m, p),
        p.first() == p1.first(),
        p.last() == p2.last(),
{
    let p = p1 + p2.skip(1);
    assert forall|i: int| 0 <= i < p.len() implies !at(m, (#[trigger] p[i]).0, p[i].1).blocked by {
        if i < p1.len() {
            assert(p[i] == p1[i]);
        } else {
            assert(p[i] == p2[i - p1.len() + 1]);
        }
    }
    assert forall|i: int, j: int|
        #![trigger p[i], p[j]]
        0 <= i && j == i + 1 && j < p.len() implies cells_adjacent(p[i], p[j]) by {
        if j < p1.len() {
            assert(p[i] == p1[i] && p[j] == p1[j]);
            assert(cells_adjacent(p1[i], p1[i + 1]));
        } else if i == p1.len() - 1 {
            assert(p[i] == p1[i]);
            assert(p1[i] == p1.last());
            assert(p[j] == p2.skip(1)[0]);
            assert(p[j] == p2[1]);
            assert(cells_adjacent(p2[0], p2[1]));
            assert(p2[0] == p2.first());
        } else {
            let k = i - p1.len() + 1;
            assert(p[i] == p2[k]);
            assert(p[j] == p2[k + 1]);
            assert(cells_adjacent(p2[k], p2[k + 1]));
        }
    }
    if p2.len() == 1 {
        assert(p =~= p1);
        assert(p.last() == p1.last());
    } else {
        assert(p.last() == p2.skip(1).last());
        assert(p2.skip(1).last() == p2.last());
    }
    p
}

/// Law: in a generated level, each accepted room after the first is joined
/// to its predecessor by a path of carved cells — the two tunnel segments
/// laid between their centers.
pub proof fn lemma_rooms_path_connected(m: Seq<Vec<Tile>>, rooms: Seq<Rect>, i: int) -> (p: Seq<
    (int, int),
>)
    requires
        generated_level(m, rooms),
        1 <= i < rooms.len(),
    ensures
        carved_path(m, p),
        p.first() == rooms[i - 1].center_spec(),
        p.last() == rooms[i].center_spec(),
{
    let a = rooms[i - 1].center_spec();
    let b = rooms[i].center_spec();
    assert(l_path_clear(m, a, b)) by {
        assert(rooms[i - 1] == rooms[i - 1] && rooms[i] == rooms[i]);
    }
    if h_seg_clear(m, a.0, b.0, a.1) && v_seg_clear(m, a.1, b.1, b.0) {
        let p1 = lemma_h_walk(m, a.0, b.0, a.1);
        let p2 = lemma_v_walk(m, a.1, b.1, b.0);
        assert(p1.last() == (b.0, a.1));
        assert(p2.first() == (b.0, a.1));
        let p = lemma_path_join(m, p1, p2);
        assert(p.first() == (a.0, a.1));
        assert(p.last() == (b.0, b.1));
        assert((a.0, a.1) == a);
        assert((b.0, b.1) == b);
        p
    } else {
        let p1 = lemma_v_walk(m, a.1, b.1, a.0);
        let p2 = lemma_h_walk(m, a.0, b.0, b.1);
        assert(p1.last() == (a.0, b.1));
        assert(p2.first() == (a.0, b.1));
        let p = lemma_path_join(m, p1, p2);
        assert(p.first() == (a.0, a.1));
        assert(p.last() == (b.0, b.1));
        assert((a.0, a.1) == a);
        assert((b.0, b.1) == b);
        p
    }
}

pub open spec fn msg_welcome() -> Seq<char> {
    "Welcome stranger! Prepare to perish in the Tombs of The Glass Oak."@
}

pub open spec fn msg_rest() -> Seq<char> {
    "You take a moment to rest, and recover your strength"@
}

pub open spec fn msg_descend() -> Seq<char> {
    "After a rare moment of peace, you descend deeper into the heart of the dungeon..."@
}

/// The player's starting stats.
pub open spec fn player_start(o: Object) -> bool {
    &&& o.glyph == '%'
    &&& o.name@ == "player"@
    &&& o.color == spec_white()
    &&& o.blocks
    &&& o.alive
    &&& !o.always_visible
    &&& o.level == 1
    &&& o.fighter == Some(
        Fighter { max_hp: 100, hp: 100, defense: 1, power: 4, xp: 0, on_death: DeathCallback::Player },
    )
    &&& o.ai is None
    &&& o.item is None
}

/// Starts a new session: a fresh player, a first level, depth 1, an empty
/// inventory and the welcome line in the log.
pub fn new_game() -> (r: (Vec<Object>, Game, Vec<Rect>))
    ensures
        world_wf(r.0@),
        player_start(Object { x: 0, y: 0, ..r.0@[0] }),
        generated_level(r.1.map@, r.2@),
        (r.0@[0].x as int, r.0@[0].y as int) == r.2@[0].center_spec(),
        r.1.dungeon_level == 1,
        r.1.inventory@.len() == 0,
        r.1.log@.len() == 1,
        r.1.log@[0].0@ == msg_welcome(),
        r.1.log@[0].1 == spec_red(),
{
    let mut player = Object::new(0, 0, '%', "player", white(), true);
    player.alive = true;
    player.fighter = Some(
        Fighter { max_hp: 100, hp: 100, defense: 1, power: 4, xp: 0, on_death: DeathCallback::Player },
    );
    let mut objects: Vec<Object> = Vec::new();
    objects.push(player);
    let (map, rooms) = make_map(&mut objects, 1);
    let mut log: Vec<(String, Color)> = Vec::new();
    let w = String::from_str(
        "Welcome stranger! Prepare to perish in the Tombs of The Glass Oak.",
    );
    log.push((w, red()));
    let game = Game { map, log, inventory: Vec::new(), dungeon_level: 1 };
    (objects, game, rooms)
}

/// Full effect of descending one level: some freshly generated set of
/// accepted rooms fills the new grid, the player rests for half their
/// maximum hit points and stands at the first room's center, the stairs
/// marker sits at the last room's center, the depth rises by one, and the
/// two rest-and-descend lines join the log.
pub open spec fn descend_post(s0: Seq<Object>, s1: Seq<Object>, g0: Game, g1: Game) -> bool {
    &&& exists|rooms: Seq<Rect>|
        {
            &&& #[trigger] generated_level(g1.map@, rooms)
            &&& (s1[0].x as int, s1[0].y as int) == rooms[0].center_spec()
            &&& stairs_ok(s1.last(), rooms.last())
            &&& entities_in_rooms(s1, rooms)
        }
    &&& s1[0] == (Object {
        x: s1[0].x,
        y: s1[0].y,
        fighter: Some(healed_fighter(s0[0].fighter->0, s0[0].fighter->0.max_hp as int / 2)),
        ..s0[0]
    })
    &&& forall|k: int| 1 <= k < s1.len() - 1 ==> spawned_ok(#[trigger] s1[k])
    &&& g1.dungeon_level == g0.dungeon_level + 1
    &&& g1.inventory == g0.inventory
    &&& log_extended(
        g0.log@,
        g1.log@,
        seq![(msg_rest(), spec_violet()), (msg_descend(), spec_red())],
    )
}

/// Descends one level: the player rests and recovers half their maximum hit
/// points, the depth rises by one, and a freshly generated grid replaces
/// the old one wholesale, with only the player surviving the transition.
pub fn next_level(objects: &mut Vec<Object>, game: &mut Game) -> (rooms: Vec<Rect>)
    requires
        world_wf(old(objects)@),
        old(game).dungeon_level < u32::MAX,
    ensures
        world_wf(final(objects)@),
        generated_level(final(game).map@, rooms@),
        (final(objects)@[0].x as int, final(objects)@[0].y as int) == rooms@[0].center_spec(),
        final(objects)@[0] == (Object {
            x: final(objects)@[0].x,
            y: final(objects)@[0].y,
            fighter: Some(
                healed_fighter(
                    old(objects)@[0].fighter->0,
                    old(objects)@[0].fighter->0.max_hp as int / 2,
                ),
            ),
            ..old(objects)@[0]
        }),
        stairs_ok(final(objects)@.last(), rooms@.last()),
        forall|k: int|
            1 <= k < final(objects)@.len() - 1 ==> spawned_ok(#[trigger] final(objects)@[k]),
        entities_in_rooms(final(objects)@, rooms@),
        final(game).dungeon_level == old(game).dungeon_level + 1,
        final(game).inventory == old(game).inventory,
        log_extended(
            old(game).log@,
            final(game).log@,
            seq![(msg_rest(), spec_violet()), (msg_descend(), spec_red())],
        ),
        crate::game::log_grows(old(game).log@, final(game).log@),
{
    proof {
        lemma_log_extended_refl(game.log@);
    }
    let t1 = String::from_str("You take a moment to rest, and recover your strength");
    proof {
        lemma_log_extended_push(game.log@, t1, spec_violet(), msg_rest());
    }
    add_msg(&mut game.log, t1, violet());
    let f = objects[0].fighter.unwrap();
    let heal_hp = f.max_hp / 2;
    objects[0].heal(heal_hp);
    let t2 = String::from_str(
        "After a rare moment of peace, you descend deeper into the heart of the dungeon...",
    );
    proof {
        lemma_log_extended_push(game.log@, t2, spec_red(), msg_descend());
        lemma_log_extended_trans(
            old(game).log@,
            game.log@,
            game.log@.push((t2, spec_red())),
            seq![(msg_rest(), spec_violet())],
            seq![(msg_descend(), spec_red())],
        );
        assert(seq![(msg_rest(), spec_violet())] + seq![(msg_descend(), spec_red())] =~= seq![
            (msg_rest(), spec_violet()),
            (msg_descend(), spec_red()),
        ]);
    }
    add_msg(&mut game.log, t2, red());
    proof {
        crate::game::lemma_log_extended_grows(
            old(game).log@,
            game.log@,
            seq![(msg_rest(), spec_violet()), (msg_descend(), spec_red())],
        );
    }
    game.dungeon_level = game.dungeon_level + 1;
    let (m, rooms) = make_map(objects, game.dungeon_level);
    game.map = m;
    rooms
}

} // verus!
