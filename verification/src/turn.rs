//! One discrete game turn: the player's abstract command is resolved and
//! classified, and only a turn-taking action lets every AI-bearing entity
//! act. The input layer that produces commands, and the renderer that draws
//! the outcome, stay outside; exploration marking and target validation are
//! offered here as the pieces of those collaborations that carry game rules.

use vstd::prelude::*;
use vstd::string::*;

use crate::engine::Fov;
use crate::engine::fov_wf;
use crate::engine::is_visible;
use crate::engine::ai_phase_post;
use crate::engine::move_or_attack_post;
use crate::engine::move_takes_turn;
use crate::engine::player_move_or_attack;
use crate::engine::run_ai_turns;
use crate::engine::visible;
use crate::engine::world_wf;
use crate::game::Game;
use crate::game::lemma_log_grows_refl;
use crate::game::lemma_log_grows_trans;
use crate::game::log_grows;
use crate::geom::dist_sq;
use crate::geom::dist_sq_spec;
use crate::items::UseResult;
use crate::items::UseTarget;
use crate::items::drop_post;
use crate::items::pickup_post;
use crate::items::use_item_post;
use crate::items::drop_item;
use crate::items::pick_item_up;
use crate::items::use_item;
use crate::mapgen::descend_post;
use crate::mapgen::next_level;
use crate::object::Object;
use crate::tile::Grid;
use crate::tile::Tile;
use crate::tile::at;
use crate::tile::explored_monotonic;
use crate::tile::in_map;
use crate::tile::map_wf;

verus! {

/// The abstract commands the input collaborator can hand the engine.
#[derive(Clone, Copy, Debug, PartialEq, Eq, Structural)]
pub enum Command {
    Move(i32, i32),
    Wait,
    PickUp,
    DropItem(usize),
    UseItem(usize, UseTarget),
    Descend,
    Quit,
}

/// Classification of a resolved player action: only `TookTurn` advances to
/// the AI phase, and `Exit` ends the session after a save.
#[derive(Clone, Copy, Debug, PartialEq, Eq, Structural)]
pub enum PlayerAction {
    TookTurn,
    DidntTakeTurn,
    Exit,
}

/// The per-command side conditions the input layer must guarantee.
pub open spec fn command_ok(cmd: Command, s: Seq<Object>, g: Game) -> bool {
    match cmd {
        Command::Move(dx, dy) => -1 <= dx <= 1 && -1 <= dy <= 1 && !(dx == 0 && dy == 0),
        Command::DropItem(i) => i < g.inventory@.len() && g.inventory@[i as int].ai is None,
        Command::UseItem(i, t) => i < g.inventory@.len() && (t matches UseTarget::Monster(id)
            ==> 0 < id < s.len() && s[id as int].fighter is Some),
        _ => true,
    }
}

/// How a command is classified: a wait by a living player takes the turn,
/// and so does a movement that resolves as an attack or a completed step —
/// an invalid move, silently dropped against a wall or a blocking entity,
/// costs no turn. Quitting exits, and everything else costs no turn.
pub open spec fn command_class(
    cmd: Command,
    s: Seq<Object>,
    m: Seq<Vec<Tile>>,
) -> PlayerAction {
    match cmd {
        Command::Quit => PlayerAction::Exit,
        Command::Move(dx, dy) => if s[0].alive && move_takes_turn(s, m, dx as int, dy as int) {
            PlayerAction::TookTurn
        } else {
            PlayerAction::DidntTakeTurn
        },
        Command::Wait => if s[0].alive {
            PlayerAction::TookTurn
        } else {
            PlayerAction::DidntTakeTurn
        },
        _ => PlayerAction::DidntTakeTurn,
    }
}

/// Full effect of one resolved command on the world, the session state and
/// the log: each arm restates the dispatched routine's postcondition, and
/// a dead player's command — or a command with nothing to act on — changes
/// nothing.
pub open spec fn command_effect(
    cmd: Command,
    s0: Seq<Object>,
    s1: Seq<Object>,
    g0: Game,
    g1: Game,
    f: Seq<Vec<bool>>,
) -> bool {
    match cmd {
        Command::Quit => s1 == s0 && g1 == g0,
        Command::Wait => s1 == s0 && g1 == g0,
        Command::Move(dx, dy) => if s0[0].alive {
            move_or_attack_post(s0, s1, g0, g1, dx as int, dy as int)
        } else {
            s1 == s0 && g1 == g0
        },
        Command::PickUp => if s0[0].alive {
            if exists|j: int| 0 <= j < s0.len() && #[trigger] is_item_at_player(s0, j) {
                exists|j: int|
                    {
                        &&& 0 < j < s0.len()
                        &&& is_item_at_player(s0, j)
                        &&& forall|k: int| 0 <= k < j ==> !is_item_at_player(s0, k)
                        &&& #[trigger] pickup_post(s0, s1, g0, g1, j)
                    }
            } else {
                s1 == s0 && g1 == g0
            }
        } else {
            s1 == s0 && g1 == g0
        },
        Command::DropItem(i) => if s0[0].alive {
            drop_post(s0, s1, g0, g1, i as int)
        } else {
            s1 == s0 && g1 == g0
        },
        Command::UseItem(i, t) => if s0[0].alive {
            exists|r: UseResult| #[trigger] use_item_post(i as int, t, s0, s1, g0, g1, f, r)
        } else {
            s1 == s0 && g1 == g0
        },
        Command::Descend => if s0[0].alive && stairs_at_player(s0) {
            descend_post(s0, s1, g0, g1)
        } else {
            s1 == s0 && g1 == g0
        },
    }
}

/// Resolves one player command: classifies it and carries out its full
/// effect, restated arm by arm in `command_effect`.
pub fn apply_command(
    cmd: Command,
    objects: &mut Vec<Object>,
    game: &mut Game,
    fov: &Fov,
) -> (action: PlayerAction)
    requires
        world_wf(old(objects)@),
        map_wf(old(game).map@),
        fov_wf(fov@),
        command_ok(cmd, old(objects)@, *old(game)),
        old(game).dungeon_level < u32::MAX,
    ensures
        action == command_class(cmd, old(objects)@, old(game).map@),
        world_wf(final(objects)@),
        map_wf(final(game).map@),
        log_grows(old(game).log@, final(game).log@),
        command_effect(cmd, old(objects)@, final(objects)@, *old(game), *final(game), fov@),
{
    proof {
        lemma_log_grows_refl(game.log@);
    }
    let alive = objects[0].alive;
    match cmd {
        Command::Quit => PlayerAction::Exit,
        Command::Wait => {
            if alive {
                PlayerAction::TookTurn
            } else {
                PlayerAction::DidntTakeTurn
            }
        },
        Command::Move(dx, dy) => {
            if alive {
                let took = player_move_or_attack(dx, dy, objects, game);
                proof {
                    lemma_move_or_attack_wf(old(objects)@, objects@, *old(game), *game, dx, dy);
                }
                if took {
                    PlayerAction::TookTurn
                } else {
                    PlayerAction::DidntTakeTurn
                }
            } else {
                PlayerAction::DidntTakeTurn
            }
        },
        Command::PickUp => {
            if alive {
                let found = item_at_player(objects);
                match found {
                    Some(id) => {
                        pick_item_up(id, objects, game);
                        proof {
                            assert(pickup_post(
                                old(objects)@,
                                objects@,
                                *old(game),
                                *game,
                                id as int,
                            ));
                        }
                    },
                    None => {},
                }
            }
            PlayerAction::DidntTakeTurn
        },
        Command::DropItem(i) => {
            if alive {
                drop_item(i, objects, game);
            }
            PlayerAction::DidntTakeTurn
        },
        Command::UseItem(i, target) => {
            if alive {
                let r = use_item(i, target, objects, game, fov);
                proof {
                    assert(use_item_post(
                        i as int,
                        target,
                        old(objects)@,
                        objects@,
                        *old(game),
                        *game,
                        fov@,
                        r,
                    ));
                }
            }
            PlayerAction::DidntTakeTurn
        },
        Command::Descend => {
            if alive {
                let on_stairs = player_on_stairs(objects);
                if on_stairs {
                    let rooms = next_level(objects, game);
                    proof {
                        assert(crate::mapgen::generated_level(game.map@, rooms@));
                        assert(crate::mapgen::descend_post(
                            old(objects)@,
                            objects@,
                            *old(game),
                            *game,
                        ));
                    }
                }
            }
            PlayerAction::DidntTakeTurn
        },
    }
}

/// Whether entity `j` is an item lying at the player's feet.
pub open spec fn is_item_at_player(s: Seq<Object>, j: int) -> bool {
    s[j].item is Some && s[j].x == s[0].x && s[j].y == s[0].y
}

/// The first item entity at the player's position, if any: what a pickup
/// command picks.
pub fn item_at_player(objects: &Vec<Object>) -> (r: Option<usize>)
    requires
        objects@.len() >= 1,
        objects@[0].item is None,
    ensures
        match r {
            Some(j) => 0 < j < objects@.len() && is_item_at_player(objects@, j as int)
                && forall|k: int| 0 <= k < j ==> !is_item_at_player(objects@, k),
            None => forall|k: int| 0 <= k < objects@.len() ==> !is_item_at_player(objects@, k),
        },
{
    let px = objects[0].x;
    let py = objects[0].y;
    let n = objects.len();
    let mut j: usize = 0;
    while j < n
        invariant
            n == objects@.len(),
            objects@.len() >= 1,
            j <= n,
            px == objects@[0].x,
            py == objects@[0].y,
            objects@[0].item is None,
            forall|k: int| 0 <= k < j ==> !is_item_at_player(objects@, k),
        decreases n - j,
    {
        let o = &objects[j];
        if o.item.is_some() && o.x == px && o.y == py {
            return Some(j);
        }
        j += 1;
    }
    None
}

/// Whether a stairs marker stands at the player's position.
pub open spec fn stairs_at_player(s: Seq<Object>) -> bool {
    exists|j: int| 0 <= j < s.len() && (#[trigger] s[j]).name@ == "stairs"@ && s[j].x == s[0].x
        && s[j].y == s[0].y
}

pub fn player_on_stairs(objects: &Vec<Object>) -> (r: bool)
    requires
        objects@.len() >= 1,
    ensures
        r == stairs_at_player(objects@),
{
    let px = objects[0].x;
    let py = objects[0].y;
    let stairs_name = String::from_str("stairs");
    let n = objects.len();
    let mut j: usize = 0;
    while j < n
        invariant
            n == objects@.len(),
            objects@.len() >= 1,
            j <= n,
            px == objects@[0].x,
            py == objects@[0].y,
            stairs_name@ == "stairs"@,
            forall|k: int|
                0 <= k < j ==> !((#[trigger] objects@[k]).name@ == "stairs"@ && objects@[k].x
                    == objects@[0].x && objects@[k].y == objects@[0].y),
        decreases n - j,
    {
        let o = &objects[j];
        if o.x == px && o.y == py && o.name == stairs_name {
            return true;
        }
        j += 1;
    }
    false
}

/// A played-out move or attack keeps the world well-formed.
proof fn lemma_move_or_attack_wf(
    pre: Seq<Object>,
    post: Seq<Object>,
    g0: Game,
    g1: Game,
    dx: i32,
    dy: i32,
)
    requires
        world_wf(pre),
        map_wf(g0.map@),
        -1 <= dx <= 1,
        -1 <= dy <= 1,
        !(dx == 0 && dy == 0),
        move_or_attack_post(pre, post, g0, g1, dx as int, dy as int),
    ensures
        world_wf(post),
{
    let x = pre[0].x + dx;
    let y = pre[0].y + dy;
    if exists|j: int| 0 <= j < pre.len() && #[trigger] crate::engine::is_combat_target(pre, j, x, y) {
        let t = choose|t: int|
            {
                &&& #[trigger] crate::engine::first_combat_target(pre, t, x, y)
                &&& crate::object::attack_post(pre[0], pre[t], post[0], post[t])
                &&& forall|i: int| 0 <= i < pre.len() && i != 0 && i != t ==> post[i] == pre[i]
            };
        assert(t != 0);
        crate::engine::lemma_wf_after_attack(pre, post, 0, t);
    } else {
        crate::engine::lemma_wf_after_move(pre, post, g0.map@, 0, dx as int, dy as int);
    }
}

/// Runs one full turn: resolves the command, and when it took the turn and
/// the player still lives, lets every AI-bearing entity act in collection
/// order. The ensured middle state is the world as the player's action left
/// it, before the AI phase ran over it.
pub fn run_turn(cmd: Command, objects: &mut Vec<Object>, game: &mut Game, fov: &Fov) -> (action:
    PlayerAction)
    requires
        world_wf(old(objects)@),
        map_wf(old(game).map@),
        fov_wf(fov@),
        command_ok(cmd, old(objects)@, *old(game)),
        old(game).dungeon_level < u32::MAX,
    ensures
        action == command_class(cmd, old(objects)@, old(game).map@),
        world_wf(final(objects)@),
        map_wf(final(game).map@),
        log_grows(old(game).log@, final(game).log@),
        exists|ms: Seq<Object>, mg: Game|
            {
                &&& #[trigger] command_effect(cmd, old(objects)@, ms, *old(game), mg, fov@)
                &&& if action == PlayerAction::TookTurn && ms[0].alive {
                    ai_phase_post(ms, final(objects)@, mg, *final(game), fov@)
                } else {
                    final(objects)@ == ms && *final(game) == mg
                }
            },
{
    let action = apply_command(cmd, objects, game, fov);
    let ghost ms = objects@;
    let ghost mg = *game;
    let took_turn = match action {
        PlayerAction::TookTurn => true,
        _ => false,
    };
    if took_turn && objects[0].alive {
        let ghost mid_log = game.log@;
        run_ai_turns(objects, game, fov);
        proof {
            lemma_log_grows_trans(old(game).log@, mid_log, game.log@);
            assert(command_effect(cmd, old(objects)@, ms, *old(game), mg, fov@));
        }
    } else {
        proof {
            assert(command_effect(cmd, old(objects)@, ms, *old(game), mg, fov@));
        }
    }
    action
}

fn mark_explored_cell(map: &mut Grid, x: i32, y: i32)
    requires
        map_wf(old(map)@),
        in_map(x as int, y as int),
    ensures
        map_wf(final(map)@),
        forall|xi: int, yi: int|
            in_map(xi, yi) ==> #[trigger] at(final(map)@, xi, yi) == if xi == x && yi == y {
                Tile { explored: true, ..at(old(map)@, xi, yi) }
            } else {
                at(old(map)@, xi, yi)
            },
{
    let ghost m0 = map@;
    let t = map[x as usize][y as usize];
    map[x as usize].set(y as usize, Tile { explored: true, ..t });
    proof {
        assert(map@ =~= m0.update(x as int, map@[x as int]));
        assert(map@[x as int]@ =~= m0[x as int]@.update(
            y as int,
            Tile { explored: true, ..at(m0, x as int, y as int) },
        ));
        assert forall|xi: int, yi: int| in_map(xi, yi) implies #[trigger] at(map@, xi, yi) == (
        if xi == x && yi == y {
            Tile { explored: true, ..at(m0, xi, yi) }
        } else {
            at(m0, xi, yi)
        }) by {
            if xi != x {
                assert(map@[xi] == m0[xi]);
            }
        }
        assert forall|xx: int| 0 <= xx < crate::MAP_WIDTH implies (#[trigger] map@[xx])@.len()
            == crate::MAP_HEIGHT by {
            assert(m0[xx]@.len() == crate::MAP_HEIGHT);
        }
        assert forall|xi: int, yi: int|
            in_map(xi, yi) && !crate::tile::interior(xi, yi) implies (#[trigger] at(
            map@,
            xi,
            yi,
        )).blocked by {
            assert(at(m0, xi, yi).blocked);
        }
    }
}

/// Marks every currently visible cell explored. Exploration is monotonic:
/// no flag is ever cleared.
pub fn update_explored(map: &mut Grid, fov: &Fov)
    requires
        map_wf(old(map)@),
        fov_wf(fov@),
    ensures
        map_wf(final(map)@),
        forall|x: int, y: int|
            in_map(x, y) ==> #[trigger] at(final(map)@, x, y) == (Tile {
                explored: at(old(map)@, x, y).explored || visible(fov@, x, y),
                ..at(old(map)@, x, y)
            }),
        explored_monotonic(old(map)@, final(map)@),
{
    let mut x: i32 = 0;
    while x < crate::MAP_WIDTH
        invariant
            map_wf(map@),
            fov_wf(fov@),
            0 <= x <= crate::MAP_WIDTH,
            forall|xi: int, yi: int|
                in_map(xi, yi) ==> #[trigger] at(map@, xi, yi) == if xi < x {
                    Tile {
                        explored: at(old(map)@, xi, yi).explored || visible(fov@, xi, yi),
                        ..at(old(map)@, xi, yi)
                    }
                } else {
                    at(old(map)@, xi, yi)
                },
        decreases crate::MAP_WIDTH - x,
    {
        let mut y: i32 = 0;
        while y < crate::MAP_HEIGHT
            invariant
                map_wf(map@),
                fov_wf(fov@),
                0 <= x < crate::MAP_WIDTH,
                0 <= y <= crate::MAP_HEIGHT,
                forall|xi: int, yi: int|
                    in_map(xi, yi) ==> #[trigger] at(map@, xi, yi) == if xi < x || (xi == x && yi
                        < y) {
                        Tile {
                            explored: at(old(map)@, xi, yi).explored || visible(fov@, xi, yi),
                            ..at(old(map)@, xi, yi)
                        }
                    } else {
                        at(old(map)@, xi, yi)
                    },
            decreases crate::MAP_HEIGHT - y,
        {
            if is_visible(fov, x, y) {
                mark_explored_cell(map, x, y);
            } else {
                proof {
                    assert(at(map@, x as int, y as int) == Tile {
                        explored: at(old(map)@, x as int, y as int).explored || visible(
                            fov@,
                            x as int,
                            y as int,
                        ),
                        ..at(old(map)@, x as int, y as int)
                    });
                }
            }
            y += 1;
        }
        x += 1;
    }
}

/// Whether `(x, y)` is a legal target tile: on the grid, currently visible,
/// and — when the effect is range-limited — within range of the player.
pub fn target_tile_valid(
    objects: &Vec<Object>,
    fov: &Fov,
    x: i32,
    y: i32,
    max_range: Option<i32>,
) -> (r: bool)
    requires
        objects@.len() >= 1,
        fov_wf(fov@),
        max_range matches Some(mr) ==> 0 <= mr <= 1000,
    ensures
        r == (in_map(x as int, y as int) && visible(fov@, x as int, y as int) && (match max_range {
            Some(mr) => dist_sq_spec(
                objects@[0].x as int,
                objects@[0].y as int,
                x as int,
                y as int,
            ) <= mr * mr,
            None => true,
        })),
{
    if x < 0 || y < 0 || x >= crate::MAP_WIDTH || y >= crate::MAP_HEIGHT {
        return false;
    }
    if !is_visible(fov, x, y) {
        return false;
    }
    match max_range {
        Some(mr) => {
            let d = dist_sq(objects[0].x, objects[0].y, x, y);
            let mr128 = mr as i128;
            proof {
                assert(0 <= mr128 * mr128 <= 1000000 && mr128 * mr128 == (mr * mr) as int)
                    by (nonlinear_arith)
                    requires
                        0 <= mr128 <= 1000,
                        mr128 == mr,
                ;
            }
            d <= mr128 * mr128
        },
        None => true,
    }
}

/// Checks the world invariant on a collection of unknown provenance, such
/// as one read back from a save file.
pub fn world_wf_check(objects: &Vec<Object>) -> (r: bool)
    ensures
        r == world_wf(objects@),
{
    if objects.len() == 0 {
        return false;
    }
    let p = &objects[0];
    let player_ok = p.fighter.is_some() && match p.fighter {
        Some(f) => matches!(f.on_death, crate::object::DeathCallback::Player) && f.max_hp >= 0,
        None => false,
    } && p.item.is_none() && p.ai.is_none();
    if !player_ok {
        return false;
    }
    let n = objects.len();
    let mut i: usize = 0;
    while i < n
        invariant
            n == objects@.len(),
            i <= n,
            forall|j: int|
                0 <= j < i ==> crate::tile::interior(
                    (#[trigger] objects@[j]).x as int,
                    objects@[j].y as int,
                ) && (objects@[j].ai is Some ==> objects@[j].fighter is Some),
        decreases n - i,
    {
        let o = &objects[i];
        let pos_ok = 1 <= o.x && o.x < crate::MAP_WIDTH - 1 && 1 <= o.y && o.y < crate::MAP_HEIGHT
            - 1;
        let ai_ok = o.ai.is_none() || o.fighter.is_some();
        if !(pos_ok && ai_ok) {
            return false;
        }
        i += 1;
    }
    true
}

/// Checks the grid invariant on a grid of unknown provenance.
pub fn map_wf_check(map: &Grid) -> (r: bool)
    ensures
        r == map_wf(map@),
{
    if map.len() != (crate::MAP_WIDTH as usize) {
        return false;
    }
    let mut x: usize = 0;
    while x < (crate::MAP_WIDTH as usize)
        invariant
            map@.len() == crate::MAP_WIDTH,
            x <= crate::MAP_WIDTH,
            forall|xi: int| 0 <= xi < x ==> (#[trigger] map@[xi])@.len() == crate::MAP_HEIGHT,
            forall|xi: int, yi: int|
                in_map(xi, yi) && xi < x && !crate::tile::interior(xi, yi) ==> (#[trigger] at(
                    map@,
                    xi,
                    yi,
                )).blocked,
        decreases crate::MAP_WIDTH - x,
    {
        let col = &map[x];
        if col.len() != (crate::MAP_HEIGHT as usize) {
            return false;
        }
        let mut y: usize = 0;
        while y < (crate::MAP_HEIGHT as usize)
            invariant
                map@.len() == crate::MAP_WIDTH,
                x < crate::MAP_WIDTH,
                y <= crate::MAP_HEIGHT,
                (map@[x as int])@.len() == crate::MAP_HEIGHT,
                forall|xi: int| 0 <= xi < x ==> (#[trigger] map@[xi])@.len() == crate::MAP_HEIGHT,
                forall|xi: int, yi: int|
                    in_map(xi, yi) && xi < x && !crate::tile::interior(xi, yi) ==> (#[trigger] at(
                        map@,
                        xi,
                        yi,
                    )).blocked,
                forall|yi: int|
                    0 <= yi < y && !crate::tile::interior(x as int, yi) ==> (#[trigger] at(
                        map@,
                        x as int,
                        yi,
                    )).blocked,
            decreases crate::MAP_HEIGHT - y,
        {
            let border = x == 0 || x == (crate::MAP_WIDTH as usize) - 1 || y == 0 || y == (crate::MAP_HEIGHT as usize)
                - 1;
            if border && !map[x][y].blocked {
                proof {
                    assert(in_map(x as int, y as int));
                    assert(!crate::tile::interior(x as int, y as int));
                    assert(!at(map@, x as int, y as int).blocked);
                }
                return false;
            }
            proof {
                assert(!crate::tile::interior(x as int, y as int) ==> at(
                    map@,
                    x as int,
                    y as int,
                ).blocked);
            }
            y += 1;
        }
        x += 1;
    }
    true
}

/// Checks the visibility grid's dimensions.
pub fn fov_wf_check(fov: &Fov) -> (r: bool)
    ensures
        r == fov_wf(fov@),
{
    if fov.len() != (crate::MAP_WIDTH as usize) {
        return false;
    }
    let mut x: usize = 0;
    while x < (crate::MAP_WIDTH as usize)
        invariant
            fov@.len() == crate::MAP_WIDTH,
            x <= crate::MAP_WIDTH,
            forall|xi: int| 0 <= xi < x ==> (#[trigger] fov@[xi])@.len() == crate::MAP_HEIGHT,
        decreases crate::MAP_WIDTH - x,
    {
        if fov[x].len() != (crate::MAP_HEIGHT as usize) {
            return false;
        }
        x += 1;
    }
    true
}

/// The names of the first `n` entities standing on a currently visible
/// `(x, y)`, in collection order: what the pointer-hover line shows.
pub open spec fn names_at_spec(
    s: Seq<Object>,
    f: Seq<Vec<bool>>,
    x: int,
    y: int,
    n: int,
) -> Seq<Seq<char>>
    decreases n,
{
    if n <= 0 {
        Seq::empty()
    } else {
        names_at_spec(s, f, x, y, n - 1) + (if s[n - 1].x == x && s[n - 1].y == y && visible(
            f,
            x,
            y,
        ) {
            seq![s[n - 1].name@]
        } else {
            Seq::empty()
        })
    }
}

/// Collects the display names under the pointer; the display layer joins
/// them into its hover line.
pub fn names_at(objects: &Vec<Object>, fov: &Fov, x: i32, y: i32) -> (r: Vec<String>)
    requires
        fov_wf(fov@),
        in_map(x as int, y as int),
    ensures
        r@.map_values(|s: String| s@) == names_at_spec(
            objects@,
            fov@,
            x as int,
            y as int,
            objects@.len() as int,
        ),
{
    let mut r: Vec<String> = Vec::new();
    let n = objects.len();
    let mut i: usize = 0;
    proof {
        assert(r@.map_values(|s: String| s@) =~= Seq::<Seq<char>>::empty());
    }
    while i < n
        invariant
            n == objects@.len(),
            i <= n,
            fov_wf(fov@),
            in_map(x as int, y as int),
            r@.map_values(|s: String| s@) == names_at_spec(
                objects@,
                fov@,
                x as int,
                y as int,
                i as int,
            ),
        decreases n - i,
    {
        let o = &objects[i];
        if o.x == x && o.y == y && is_visible(fov, x, y) {
            let nm = o.name.clone();
            let ghost before = r@.map_values(|s: String| s@);
            r.push(nm);
            proof {
                assert(r@.map_values(|s: String| s@) =~= before.push(objects@[i as int].name@));
                assert(before.push(objects@[i as int].name@) =~= before + seq![
                    objects@[i as int].name@,
                ]);
            }
        }
        i += 1;
    }
    r
}

/// The first combat-bearing entity other than the player standing on
/// `(x, y)`: how a click during targeted-effect selection resolves to an
/// entity.
pub fn monster_at(objects: &Vec<Object>, x: i32, y: i32) -> (r: Option<usize>)
    ensures
        match r {
            Some(t) => 0 < t < objects@.len() && objects@[t as int].fighter is Some && objects@[
                t as int
            ].x == x && objects@[t as int].y == y,
            None => forall|j: int|
                0 < j < objects@.len() ==> !((#[trigger] objects@[j]).fighter is Some
                    && objects@[j].x == x && objects@[j].y == y),
        },
{
    let n = objects.len();
    let mut j: usize = 1;
    if n == 0 {
        return None;
    }
    while j < n
        invariant
            n == objects@.len(),
            1 <= j,
            j <= n || n == 0,
            forall|k: int|
                0 < k < j && k < n ==> !((#[trigger] objects@[k]).fighter is Some && objects@[k].x
                    == x && objects@[k].y == y),
        decreases n - j,
    {
        let o = &objects[j];
        if o.fighter.is_some() && o.x == x && o.y == y {
            return Some(j);
        }
        j += 1;
    }
    None
}

} // verus!
