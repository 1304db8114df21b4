//! The turn engine: movement legality, the shared movement primitive, combat
//! between entities of the world collection, AI dispatch and progression.
//!
//! Visibility is an outside collaborator: every routine that needs it takes
//! a precomputed visibility grid as data.

use vstd::prelude::*;

use crate::MAP_HEIGHT;
use crate::MAP_WIDTH;
use crate::LEVEL_UP_BASE;
use crate::LEVEL_UP_FACTOR;
use crate::color::red;
use crate::color::spec_red;
use crate::color::spec_yellow;
use crate::color::white;
use crate::color::yellow;
use crate::game::Game;
use crate::game::add_msg;
use crate::game::game_same_but_log;
use crate::game::lemma_log_extended_grows;
use crate::game::lemma_log_extended_push;
use crate::game::lemma_log_grows_refl;
use crate::game::lemma_log_extended_refl;
use crate::game::log_extended;
use crate::game::log_grows;
use crate::game::lemma_log_grows_trans;
use crate::geom::dist_sq;
use crate::geom::dist_sq_spec;
use crate::num::clamp_i32;
use crate::num::sat_add_i32;
use crate::object::Ai;
use crate::object::DeathCallback;
use crate::object::Fighter;
use crate::object::Object;
use crate::object::attack_msgs;
use crate::object::attack_post;
use crate::rng::rand_step;
use crate::text::dec_int;
use crate::text::push_dec_i64;
use crate::tile::Grid;
use crate::tile::Tile;
use crate::tile::at;
use crate::tile::in_map;
use crate::tile::interior;
use crate::tile::map_wf;

verus! {

/// A visibility grid, column-major like the tile grid: `fov[x][y]` says
/// whether `(x, y)` is currently visible. Computed by the field-of-view
/// collaborator outside the engine.
pub type Fov = Vec<Vec<bool>>;

pub open spec fn fov_wf(f: Seq<Vec<bool>>) -> bool {
    &&& f.len() == MAP_WIDTH
    &&& forall|x: int| 0 <= x < MAP_WIDTH ==> (#[trigger] f[x])@.len() == MAP_HEIGHT
}

pub open spec fn visible(f: Seq<Vec<bool>>, x: int, y: int) -> bool {
    f[x]@[y]
}

/// The visibility query the engine consumes.
pub fn is_visible(fov: &Fov, x: i32, y: i32) -> (r: bool)
    requires
        fov_wf(fov@),
        in_map(x as int, y as int),
    ensures
        r == visible(fov@, x as int, y as int),
{
    fov[x as usize][y as usize]
}

/// Whether entity `i` blocks the cell `(x, y)`.
pub open spec fn entity_blocks_at(s: Seq<Object>, i: int, x: int, y: int) -> bool {
    s[i].blocks && s[i].x == x && s[i].y == y
}

/// Movement legality: a destination is illegal if the grid marks it blocked
/// or a blocking entity occupies it.
pub open spec fn blocked_at(m: Seq<Vec<Tile>>, s: Seq<Object>, x: int, y: int) -> bool {
    at(m, x, y).blocked || exists|i: int|
        0 <= i < s.len() && #[trigger] entity_blocks_at(s, i, x, y)
}

pub fn is_blocked(x: i32, y: i32, map: &Grid, objects: &Vec<Object>) -> (r: bool)
    requires
        map_wf(map@),
        in_map(x as int, y as int),
    ensures
        r == blocked_at(map@, objects@, x as int, y as int),
{
    if map[x as usize][y as usize].blocked {
        return true;
    }
    let n = objects.len();
    let mut i: usize = 0;
    while i < n
        invariant
            n == objects@.len(),
            i <= n,
            !at(map@, x as int, y as int).blocked,
            forall|j: int| 0 <= j < i ==> !entity_blocks_at(objects@, j, x as int, y as int),
        decreases n - i,
    {
        let o = &objects[i];
        if o.blocks && o.x == x && o.y == y {
            proof {
                assert(entity_blocks_at(objects@, i as int, x as int, y as int));
            }
            return true;
        }
        i += 1;
    }
    false
}

/// Effect of attempting to step entity `id` by `(dx, dy)`: the move happens
/// exactly when the destination is not blocked; an illegal step is silently
/// dropped.
pub open spec fn move_by_post(
    pre: Seq<Object>,
    post: Seq<Object>,
    m: Seq<Vec<Tile>>,
    id: int,
    dx: int,
    dy: int,
) -> bool {
    let o = pre[id];
    let nx = o.x + dx;
    let ny = o.y + dy;
    if !blocked_at(m, pre, nx, ny) {
        post == pre.update(id, Object { x: nx as i32, y: ny as i32, ..o })
    } else {
        post == pre
    }
}

/// Steps entity `id` by `(dx, dy)` if the destination is free.
pub fn move_by(id: usize, dx: i32, dy: i32, map: &Grid, objects: &mut Vec<Object>)
    requires
        map_wf(map@),
        id < old(objects).len(),
        interior(old(objects)@[id as int].x as int, old(objects)@[id as int].y as int),
        -1 <= dx <= 1,
        -1 <= dy <= 1,
    ensures
        final(objects)@.len() == old(objects)@.len(),
        move_by_post(old(objects)@, final(objects)@, map@, id as int, dx as int, dy as int),
{
    let (x, y) = objects[id].pos();
    if !is_blocked(x + dx, y + dy, map, objects) {
        objects[id].set_pos(x + dx, y + dy);
    }
}

/// The legality filter on a proposed step: the step itself if the
/// destination is free, no movement otherwise.
pub fn move_check(pos: (i32, i32), mv: (i32, i32), map: &Grid, objects: &Vec<Object>) -> (r: (
    i32,
    i32,
))
    requires
        map_wf(map@),
        interior(pos.0 as int, pos.1 as int),
        -1 <= mv.0 <= 1,
        -1 <= mv.1 <= 1,
    ensures
        r == if !blocked_at(map@, objects@, pos.0 + mv.0, pos.1 + mv.1) {
            mv
        } else {
            (0i32, 0i32)
        },
{
    let (pos_x, pos_y) = pos;
    let (move_x, move_y) = mv;
    if !is_blocked(pos_x + move_x, pos_y + move_y, map, objects) {
        (move_x, move_y)
    } else {
        (0, 0)
    }
}

/// One axis of the rounded unit vector toward a target: the sign of the
/// difference when this axis contributes at least half of the step's
/// Euclidean length (`3 d^2 >= o^2` is exactly `|d| / sqrt(d^2 + o^2) >=
/// 1/2`), else no step on this axis.
pub open spec fn step_component(d: int, o: int) -> int {
    if d == 0 {
        0
    } else if 3 * d * d >= o * o {
        if d > 0 {
            1
        } else {
            -1
        }
    } else {
        0
    }
}

fn step_of(d: i64, o: i64) -> (r: i32)
    requires
        -1000 <= d <= 1000,
        -1000 <= o <= 1000,
    ensures
        r == step_component(d as int, o as int),
{
    proof {
        assert((-3000000 <= 3 * d * d <= 3000000) && (-3000000 <= o * o <= 3000000))
            by (nonlinear_arith)
            requires
                -1000 <= d <= 1000,
                -1000 <= o <= 1000,
        ;
    }
    if d == 0 {
        0
    } else if 3 * d * d >= o * o {
        if d > 0 {
            1
        } else {
            -1
        }
    } else {
        0
    }
}

/// Steps entity `id` one cell along the rounded unit vector toward the
/// target, dropping the step if the destination is blocked.
pub fn move_towards(
    id: usize,
    target_x: i32,
    target_y: i32,
    map: &Grid,
    objects: &mut Vec<Object>,
)
    requires
        map_wf(map@),
        id < old(objects).len(),
        interior(old(objects)@[id as int].x as int, old(objects)@[id as int].y as int),
        in_map(target_x as int, target_y as int),
    ensures
        final(objects)@.len() == old(objects)@.len(),
        move_by_post(
            old(objects)@,
            final(objects)@,
            map@,
            id as int,
            step_component(
                target_x - old(objects)@[id as int].x,
                target_y - old(objects)@[id as int].y,
            ),
            step_component(
                target_y - old(objects)@[id as int].y,
                target_x - old(objects)@[id as int].x,
            ),
        ),
{
    let (x, y) = objects[id].pos();
    let dx: i64 = target_x as i64 - x as i64;
    let dy: i64 = target_y as i64 - y as i64;
    let sx = step_of(dx, dy);
    let sy = step_of(dy, dx);
    move_by(id, sx, sy, map, objects);
}

/// Resolves an attack between two entities of the world collection,
/// addressed by index.
pub fn attack_at(attacker: usize, defender: usize, objects: &mut Vec<Object>, game: &mut Game)
    requires
        attacker < old(objects).len(),
        defender < old(objects).len(),
        attacker != defender,
        old(objects)@[attacker as int].fighter is Some,
    ensures
        final(objects)@.len() == old(objects)@.len(),
        attack_post(
            old(objects)@[attacker as int],
            old(objects)@[defender as int],
            final(objects)@[attacker as int],
            final(objects)@[defender as int],
        ),
        forall|i: int|
            0 <= i < old(objects)@.len() && i != attacker && i != defender
                ==> final(objects)@[i] == old(objects)@[i],
        log_extended(
            old(game).log@,
            final(game).log@,
            attack_msgs(old(objects)@[attacker as int], old(objects)@[defender as int]),
        ),
        log_grows(old(game).log@, final(game).log@),
        game_same_but_log(*old(game), *final(game)),
{
    let mut def = Object::new(0, 0, ' ', "", white(), false);
    core::mem::swap(&mut def, &mut objects[defender]);
    objects[attacker].attack(&mut def, game);
    core::mem::swap(&mut def, &mut objects[defender]);
    proof {
        lemma_log_extended_grows(
            old(game).log@,
            game.log@,
            attack_msgs(old(objects)@[attacker as int], old(objects)@[defender as int]),
        );
    }
}

/// Whether entity `j` intercepts movement onto `(x, y)`: combat-bearing
/// entities resolve as an attack instead of a move.
pub open spec fn is_combat_target(s: Seq<Object>, j: int, x: int, y: int) -> bool {
    s[j].fighter is Some && s[j].x == x && s[j].y == y
}

/// `t` is the first combat-bearing entity on `(x, y)` in collection order.
pub open spec fn first_combat_target(s: Seq<Object>, t: int, x: int, y: int) -> bool {
    &&& 0 <= t < s.len()
    &&& is_combat_target(s, t, x, y)
    &&& forall|j: int| 0 <= j < t ==> !is_combat_target(s, j, x, y)
}

/// The first combat-bearing entity standing on `(x, y)`, in collection
/// order, if any.
pub fn find_combat_target(objects: &Vec<Object>, x: i32, y: i32) -> (r: Option<usize>)
    ensures
        match r {
            Some(t) => first_combat_target(objects@, t as int, x as int, y as int),
            None => forall|j: int|
                0 <= j < objects@.len() ==> !is_combat_target(objects@, j, x as int, y as int),
        },
{
    let n = objects.len();
    let mut i: usize = 0;
    while i < n
        invariant
            n == objects@.len(),
            i <= n,
            forall|j: int| 0 <= j < i ==> !is_combat_target(objects@, j, x as int, y as int),
        decreases n - i,
    {
        let o = &objects[i];
        if o.fighter.is_some() && o.x == x && o.y == y {
            return Some(i);
        }
        i += 1;
    }
    None
}

/// Whether a movement command in this state costs the turn: it resolves as
/// an attack on an entity standing there, or as a step onto a free cell. A
/// step silently dropped against a wall or a blocking entity costs no turn.
pub open spec fn move_takes_turn(s: Seq<Object>, m: Seq<Vec<Tile>>, dx: int, dy: int) -> bool {
    let x = s[0].x + dx;
    let y = s[0].y + dy;
    ||| exists|j: int| 0 <= j < s.len() && #[trigger] is_combat_target(s, j, x, y)
    ||| !blocked_at(m, s, x, y)
}

/// Full effect of the player's movement command: an attack on the first
/// combat-bearing entity at the destination, or the attempted step.
pub open spec fn move_or_attack_post(
    s0: Seq<Object>,
    s1: Seq<Object>,
    g0: Game,
    g1: Game,
    dx: int,
    dy: int,
) -> bool {
    let x = s0[0].x + dx;
    let y = s0[0].y + dy;
    &&& s1.len() == s0.len()
    &&& log_grows(g0.log@, g1.log@)
    &&& if exists|j: int| 0 <= j < s0.len() && #[trigger] is_combat_target(s0, j, x, y) {
        exists|t: int|
            {
                &&& #[trigger] first_combat_target(s0, t, x, y)
                &&& attack_post(s0[0], s0[t], s1[0], s1[t])
                &&& forall|i: int| 0 <= i < s0.len() && i != 0 && i != t ==> s1[i] == s0[i]
                &&& log_extended(g0.log@, g1.log@, attack_msgs(s0[0], s0[t]))
                &&& game_same_but_log(g0, g1)
            }
    } else {
        &&& move_by_post(s0, s1, g0.map@, 0, dx, dy)
        &&& g1 == g0
    }
}

/// The player's movement command: moving onto a combat-bearing entity
/// resolves as an attack on the first such entity; otherwise the step is
/// attempted as a move. Returns whether the action costs the turn: an
/// attack or a completed step does, a dropped step does not.
pub fn player_move_or_attack(dx: i32, dy: i32, objects: &mut Vec<Object>, game: &mut Game) -> (
    took: bool)
    requires
        map_wf(old(game).map@),
        old(objects).len() >= 1,
        old(objects)@[0].fighter is Some,
        interior(old(objects)@[0].x as int, old(objects)@[0].y as int),
        -1 <= dx <= 1,
        -1 <= dy <= 1,
        !(dx == 0 && dy == 0),
    ensures
        final(objects)@.len() == old(objects)@.len(),
        took == move_takes_turn(old(objects)@, old(game).map@, dx as int, dy as int),
        move_or_attack_post(
            old(objects)@,
            final(objects)@,
            *old(game),
            *final(game),
            dx as int,
            dy as int,
        ),
{
    let (px, py) = objects[0].pos();
    let x = px + dx;
    let y = py + dy;

    let target = find_combat_target(objects, x, y);
    match target {
        Some(t) => {
            proof {
                assert(first_combat_target(objects@, t as int, x as int, y as int));
            }
            attack_at(0, t, objects, game);
            true
        },
        None => {
            let free = !is_blocked(x, y, &game.map, objects);
            if free {
                objects[0].set_pos(x, y);
            }
            proof {
                lemma_log_grows_refl(game.log@);
                if free {
                    assert(objects@ =~= old(objects)@.update(
                        0,
                        Object { x, y, ..old(objects)@[0] },
                    ));
                }
            }
            free
        },
    }
}

/// Well-formedness of the world collection: the player sits at index 0 with
/// a combat block whose death transition is the player's, carries no item or
/// AI block; every entity stands strictly inside the border; and every
/// AI-bearing entity has a combat block.
pub open spec fn world_wf(s: Seq<Object>) -> bool {
    &&& s.len() >= 1
    &&& s[0].fighter matches Some(f) && f.on_death == DeathCallback::Player && f.max_hp >= 0
    &&& s[0].item is None
    &&& s[0].ai is None
    &&& forall|i: int| 0 <= i < s.len() ==> interior((#[trigger] s[i]).x as int, s[i].y as int)
    &&& forall|i: int| 0 <= i < s.len() ==> ((#[trigger] s[i]).ai is Some ==> s[i].fighter is Some)
}

pub open spec fn msg_confusion_over(n: Seq<char>) -> Seq<char> {
    "The "@ + n + " is no longer confused!"@
}

pub open spec fn msg_level_up(l: int) -> Seq<char> {
    "Your battle skills grow stronger! You reached level "@ + dec_int(l) + "!"@
}

/// One AI dispatch's effect on the AI block itself: a basic entity stays
/// basic; a confused one walks its counter down and, once the counter has
/// gone negative, reverts to the behavior it saved.
pub open spec fn ai_step(a: Ai) -> Ai {
    match a {
        Ai::Basic => Ai::Basic,
        Ai::Confused { previous_ai, num_turns } => if num_turns >= 0 {
            Ai::Confused { previous_ai, num_turns: (num_turns - 1) as i32 }
        } else {
            *previous_ai
        },
    }
}

/// `n` AI dispatches applied to an AI block.
pub open spec fn ai_step_n(a: Ai, n: nat) -> Ai
    decreases n,
{
    if n == 0 {
        a
    } else {
        ai_step(ai_step_n(a, (n - 1) as nat))
    }
}

proof fn lemma_ai_countdown(p: Box<Ai>, t: i32, m: int)
    requires
        t >= -1,
        0 <= m <= t + 1,
    ensures
        ai_step_n(Ai::Confused { previous_ai: p, num_turns: t }, m as nat) == (Ai::Confused {
            previous_ai: p,
            num_turns: (t - m) as i32,
        }),
    decreases m,
{
    if m > 0 {
        lemma_ai_countdown(p, t, m - 1);
    }
}

/// Law: confusion with counter `t` lasts exactly `t + 2` dispatches. Every
/// dispatch up to that point leaves the entity confused, and the dispatch
/// numbered `t + 2` restores the saved behavior.
pub proof fn lemma_confusion_reverts(a: Ai)
    requires
        a matches Ai::Confused { previous_ai, num_turns } && num_turns >= -1,
    ensures
        ai_step_n(a, (a->num_turns + 2) as nat) == *a->previous_ai,
        forall|m: int| 0 <= m < a->num_turns + 2 ==> (#[trigger] ai_step_n(a, m as nat)) is Confused,
{
    let t = a->num_turns;
    let p = a->previous_ai;
    assert forall|m: int| 0 <= m < t + 2 implies (#[trigger] ai_step_n(a, m as nat)) is Confused by {
        lemma_ai_countdown(p, t, m);
    }
    lemma_ai_countdown(p, t, t + 1);
    assert(ai_step_n(a, (t + 2) as nat) == ai_step(ai_step_n(a, (t + 1) as nat)));
}

/// Replacing one entity's AI block keeps the world well-formed, as long as
/// the player's stays absent and the entity keeps a combat block under a
/// present AI block.
proof fn lemma_wf_set_ai(pre: Seq<Object>, post: Seq<Object>, id: int, a: Option<Ai>)
    requires
        world_wf(pre),
        0 <= id < pre.len(),
        post == pre.update(id, Object { ai: a, ..pre[id] }),
        id == 0 ==> a is None,
        a is Some ==> pre[id].fighter is Some,
    ensures
        world_wf(post),
{
    assert forall|i: int| 0 <= i < post.len() implies interior(
        (#[trigger] post[i]).x as int,
        post[i].y as int,
    ) && (post[i].ai is Some ==> post[i].fighter is Some) by {
        assert(interior(pre[i].x as int, pre[i].y as int));
        assert(pre[i].ai is Some ==> pre[i].fighter is Some);
    }
}

/// One legal step of one entity keeps the world well-formed: the landing
/// cell is unblocked, and on a bordered grid every unblocked cell is
/// interior.
pub proof fn lemma_wf_after_move(
    pre: Seq<Object>,
    post: Seq<Object>,
    m: Seq<Vec<Tile>>,
    id: int,
    dx: int,
    dy: int,
)
    requires
        map_wf(m),
        world_wf(pre),
        0 <= id < pre.len(),
        -1 <= dx <= 1,
        -1 <= dy <= 1,
        move_by_post(pre, post, m, id, dx, dy),
    ensures
        world_wf(post),
{
    let o = pre[id];
    let nx = o.x + dx;
    let ny = o.y + dy;
    assert(interior(o.x as int, o.y as int));
    if !blocked_at(m, pre, nx, ny) {
        assert(in_map(nx, ny));
        assert(interior(nx, ny));
        assert forall|i: int| 0 <= i < post.len() implies interior(
            (#[trigger] post[i]).x as int,
            post[i].y as int,
        ) && (post[i].ai is Some ==> post[i].fighter is Some) by {
            assert(interior(pre[i].x as int, pre[i].y as int));
            assert(pre[i].ai is Some ==> pre[i].fighter is Some);
        }
    }
}

/// One resolved attack keeps the world well-formed: positions are
/// untouched, a monster's death clears its AI block together with its
/// combat block, and the player's record never loses its combat block.
pub proof fn lemma_wf_after_attack(pre: Seq<Object>, post: Seq<Object>, att: int, def: int)
    requires
        world_wf(pre),
        post.len() == pre.len(),
        0 <= att < pre.len(),
        0 <= def < pre.len(),
        att != def,
        pre[att].fighter is Some,
        attack_post(pre[att], pre[def], post[att], post[def]),
        forall|i: int| 0 <= i < pre.len() && i != att && i != def ==> post[i] == pre[i],
    ensures
        world_wf(post),
{
    assert forall|i: int| 0 <= i < post.len() implies interior(
        (#[trigger] post[i]).x as int,
        post[i].y as int,
    ) && (post[i].ai is Some ==> post[i].fighter is Some) by {
        assert(interior(pre[i].x as int, pre[i].y as int));
        assert(pre[i].ai is Some ==> pre[i].fighter is Some);
    }
    assert(interior(pre[0].x as int, pre[0].y as int));
    assert(pre[0].ai is Some ==> pre[0].fighter is Some);
}

/// A change that moves nobody, keeps the player's defining fields and keeps
/// combat blocks under AI blocks keeps the world well-formed.
pub proof fn lemma_wf_pointwise(pre: Seq<Object>, post: Seq<Object>)
    requires
        world_wf(pre),
        post.len() == pre.len(),
        forall|i: int|
            0 <= i < post.len() ==> (#[trigger] post[i]).x == pre[i].x && post[i].y == pre[i].y
                && (post[i].ai is Some ==> post[i].fighter is Some),
        post[0].fighter matches Some(f) && f.on_death == DeathCallback::Player && f.max_hp >= 0,
        post[0].item is None,
        post[0].ai is None,
    ensures
        world_wf(post),
{
    assert forall|i: int| 0 <= i < post.len() implies interior(
        (#[trigger] post[i]).x as int,
        post[i].y as int,
    ) by {
        assert(interior(pre[i].x as int, pre[i].y as int));
    }
}

/// One basic-AI turn: a visible monster beyond melee range steps toward the
/// player; one in melee range attacks a living player; an unseen monster
/// does nothing.
/// Full effect of one basic-AI turn of entity `id`: an unseen monster
/// stands still, a visible one beyond melee range steps toward the player,
/// and one in melee range attacks a living player.
pub open spec fn basic_ai_post(
    s: Seq<Object>,
    s1: Seq<Object>,
    g0: Game,
    g1: Game,
    f: Seq<Vec<bool>>,
    id: int,
) -> bool {
    let mx = s[id].x as int;
    let my = s[id].y as int;
    let px = s[0].x as int;
    let py = s[0].y as int;
    if !visible(f, mx, my) {
        s1 == s && g1 == g0
    } else if dist_sq_spec(mx, my, px, py) >= 4 {
        move_by_post(
            s,
            s1,
            g0.map@,
            id,
            step_component(px - mx, py - my),
            step_component(py - my, px - mx),
        ) && g1 == g0
    } else if s[0].fighter->0.hp > 0 {
        &&& attack_post(s[id], s[0], s1[id], s1[0])
        &&& forall|i: int| 0 <= i < s.len() && i != 0 && i != id ==> s1[i] == s[i]
        &&& log_extended(g0.log@, g1.log@, attack_msgs(s[id], s[0]))
        &&& game_same_but_log(g0, g1)
    } else {
        s1 == s && g1 == g0
    }
}

pub fn ai_basic(monster_id: usize, objects: &mut Vec<Object>, fov: &Fov, game: &mut Game) -> (r:
    Ai)
    requires
        map_wf(old(game).map@),
        fov_wf(fov@),
        0 < monster_id < old(objects).len(),
        old(objects)@[monster_id as int].fighter is Some,
        old(objects)@[0].fighter is Some,
        interior(
            old(objects)@[monster_id as int].x as int,
            old(objects)@[monster_id as int].y as int,
        ),
        interior(old(objects)@[0].x as int, old(objects)@[0].y as int),
    ensures
        r == Ai::Basic,
        final(objects)@.len() == old(objects)@.len(),
        game_same_but_log(*old(game), *final(game)),
        basic_ai_post(
            old(objects)@,
            final(objects)@,
            *old(game),
            *final(game),
            fov@,
            monster_id as int,
        ),
{
    let (mx, my) = objects[monster_id].pos();
    if is_visible(fov, mx, my) {
        let (px, py) = objects[0].pos();
        let d = dist_sq(mx, my, px, py);
        if d >= 4 {
            move_towards(monster_id, px, py, &game.map, objects);
        } else {
            let hp = objects[0].fighter.unwrap().hp;
            if hp > 0 {
                attack_at(monster_id, 0, objects, game);
            }
        }
    }
    Ai::Basic
}

/// Full effect of one confused turn of entity `id` with counter `t`: while
/// the counter is non-negative the entity takes one random step on each
/// axis; once negative, nothing moves and the recovery is logged.
pub open spec fn confused_ai_post(
    s: Seq<Object>,
    s1: Seq<Object>,
    g0: Game,
    g1: Game,
    id: int,
    t: int,
) -> bool {
    if t >= 0 {
        &&& exists|dx: int, dy: int|
            -1 <= dx <= 1 && -1 <= dy <= 1 && move_by_post(s, s1, g0.map@, id, dx, dy)
        &&& g1 == g0
    } else {
        &&& s1 == s
        &&& log_extended(g0.log@, g1.log@, seq![(msg_confusion_over(s[id].name@), spec_red())])
        &&& game_same_but_log(g0, g1)
    }
}

/// One confused turn: while the counter is non-negative the entity takes one
/// random step on each axis and the counter falls; once negative, the saved
/// behavior returns and the recovery is logged.
pub fn ai_confused(
    monster_id: usize,
    objects: &mut Vec<Object>,
    game: &mut Game,
    previous_ai: Box<Ai>,
    num_turns: i32,
) -> (r: Ai)
    requires
        map_wf(old(game).map@),
        monster_id < old(objects).len(),
        interior(
            old(objects)@[monster_id as int].x as int,
            old(objects)@[monster_id as int].y as int,
        ),
    ensures
        final(objects)@.len() == old(objects)@.len(),
        game_same_but_log(*old(game), *final(game)),
        r == (if num_turns >= 0 {
            Ai::Confused { previous_ai, num_turns: (num_turns - 1) as i32 }
        } else {
            *previous_ai
        }),
        confused_ai_post(
            old(objects)@,
            final(objects)@,
            *old(game),
            *final(game),
            monster_id as int,
            num_turns as int,
        ),
{
    if num_turns >= 0 {
        let dx = rand_step();
        let dy = rand_step();
        move_by(monster_id, dx, dy, &game.map, objects);
        proof {
            assert(move_by_post(
                old(objects)@,
                objects@,
                old(game).map@,
                monster_id as int,
                dx as int,
                dy as int,
            ));
        }
        Ai::Confused { previous_ai, num_turns: num_turns - 1 }
    } else {
        let mut t = String::from_str("The ");
        t.append(objects[monster_id].name.as_str());
        t.append(" is no longer confused!");
        proof {
            assert(t@ =~= msg_confusion_over(old(objects)@[monster_id as int].name@));
            lemma_log_extended_push(
                game.log@,
                t,
                spec_red(),
                msg_confusion_over(old(objects)@[monster_id as int].name@),
            );
        }
        add_msg(&mut game.log, t, red());
        *previous_ai
    }
}

/// Full effect of one entity's AI dispatch: its AI block advances by one
/// step, nothing else of the collection but the dispatch's own movement or
/// attack changes, and the routine the old tag selects acts exactly as its
/// own postcondition says, read between the states with the entity's AI
/// block taken out.
pub open spec fn dispatch_post(
    s0: Seq<Object>,
    s1: Seq<Object>,
    g0: Game,
    g1: Game,
    f: Seq<Vec<bool>>,
    id: int,
) -> bool {
    &&& s1.len() == s0.len()
    &&& game_same_but_log(g0, g1)
    &&& log_grows(g0.log@, g1.log@)
    &&& s1[id].ai == (match s0[id].ai {
        Option::None => Option::<Ai>::None,
        Option::Some(a) => Option::Some(ai_step(a)),
    })
    &&& s0[id].ai is None ==> s1 == s0 && g1 == g0
    &&& forall|j: int| 0 <= j < s0.len() && j != id && j != 0 ==> s1[j] == s0[j]
    &&& ({
        let mid0 = s0.update(id, Object { ai: Option::None, ..s0[id] });
        let mid1 = s1.update(id, Object { ai: Option::None, ..s1[id] });
        match s0[id].ai {
            Option::None => true,
            Option::Some(Ai::Basic) => basic_ai_post(mid0, mid1, g0, g1, f, id),
            Option::Some(Ai::Confused { previous_ai, num_turns }) => confused_ai_post(
                mid0,
                mid1,
                g0,
                g1,
                id,
                num_turns as int,
            ),
        }
    })
}

/// One entity's AI dispatch: takes the AI block out, runs the routine its
/// tag selects, and stores the routine's successor block back.
pub fn ai_take_turn(monster_id: usize, objects: &mut Vec<Object>, fov: &Fov, game: &mut Game)
    requires
        map_wf(old(game).map@),
        fov_wf(fov@),
        0 < monster_id < old(objects).len(),
        world_wf(old(objects)@),
    ensures
        world_wf(final(objects)@),
        dispatch_post(
            old(objects)@,
            final(objects)@,
            *old(game),
            *final(game),
            fov@,
            monster_id as int,
        ),
{
    let ghost s0 = objects@;
    let ghost mid = monster_id as int;
    let a = objects[monster_id].take_ai();
    let ghost s1 = objects@;
    proof {
        lemma_wf_set_ai(s0, s1, mid, Option::None);
        lemma_log_grows_refl(game.log@);
    }
    match a {
        Option::Some(Ai::Basic) => {
            proof {
                assert(s1[mid].fighter == s0[mid].fighter);
            }
            let na = ai_basic(monster_id, objects, fov, game);
            let ghost s2 = objects@;
            proof {
                let mx = s1[mid].x as int;
                let my = s1[mid].y as int;
                let px = s1[0].x as int;
                let py = s1[0].y as int;
                if visible(fov@, mx, my) && dist_sq_spec(mx, my, px, py) >= 4 {
                    lemma_wf_after_move(
                        s1,
                        s2,
                        game.map@,
                        mid,
                        step_component(px - mx, py - my),
                        step_component(py - my, px - mx),
                    );
                } else if visible(fov@, mx, my) && dist_sq_spec(mx, my, px, py) < 4
                    && s1[0].fighter->0.hp > 0 {
                    lemma_wf_after_attack(s1, s2, mid, 0);
                    lemma_log_extended_grows(
                        old(game).log@,
                        game.log@,
                        attack_msgs(s1[mid], s1[0]),
                    );
                }
                assert(s2[mid].fighter is Some);
            }
            objects[monster_id].set_ai(Option::Some(na));
            proof {
                lemma_wf_set_ai(s2, objects@, mid, Option::Some(Ai::Basic));
                assert(s1 =~= s0.update(mid, Object { ai: Option::None, ..s0[mid] }));
                assert(s2[mid].ai is None);
                assert(s2 =~= objects@.update(
                    mid,
                    Object { ai: Option::None, ..objects@[mid] },
                ));
                assert forall|j: int|
                    0 <= j < s0.len() && j != mid && j != 0 implies objects@[j] == s0[j] by {
                    assert(s1[j] == s0[j]);
                    let mx = s1[mid].x as int;
                    let my = s1[mid].y as int;
                    let px = s1[0].x as int;
                    let py = s1[0].y as int;
                    if visible(fov@, mx, my) && dist_sq_spec(mx, my, px, py) >= 4 {
                        if !blocked_at(
                            game.map@,
                            s1,
                            mx + step_component(px - mx, py - my),
                            my + step_component(py - my, px - mx),
                        ) {
                            assert(s2[j] == s1[j]);
                        } else {
                            assert(s2[j] == s1[j]);
                        }
                    }
                    assert(s2[j] == s1[j]);
                    assert(objects@[j] == s2[j]);
                }
            }
        },
        Option::Some(Ai::Confused { previous_ai, num_turns }) => {
            let ghost a0 = s0[mid].ai->0;
            let na = ai_confused(monster_id, objects, game, previous_ai, num_turns);
            let ghost s2 = objects@;
            proof {
                if num_turns >= 0 {
                    let (dx, dy) = choose|dx: int, dy: int|
                        -1 <= dx <= 1 && -1 <= dy <= 1 && move_by_post(
                            s1,
                            s2,
                            old(game).map@,
                            mid,
                            dx,
                            dy,
                        );
                    lemma_wf_after_move(s1, s2, old(game).map@, mid, dx, dy);
                } else {
                    lemma_log_extended_grows(
                        old(game).log@,
                        game.log@,
                        seq![(msg_confusion_over(s1[mid].name@), spec_red())],
                    );
                }
                assert(s2[mid].fighter == s1[mid].fighter);
                assert(s2[mid].fighter is Some);
            }
            objects[monster_id].set_ai(Option::Some(na));
            proof {
                lemma_wf_set_ai(s2, objects@, mid, objects@[mid].ai);
                assert(objects@[mid].ai == Option::Some(ai_step(a0)));
                assert(s1 =~= s0.update(mid, Object { ai: Option::None, ..s0[mid] }));
                assert(s2[mid].ai is None);
                assert(s2 =~= objects@.update(
                    mid,
                    Object { ai: Option::None, ..objects@[mid] },
                ));
                assert forall|j: int|
                    0 <= j < s0.len() && j != mid && j != 0 implies objects@[j] == s0[j] by {
                    assert(s1[j] == s0[j]);
                    if num_turns >= 0 {
                        let (dx, dy) = choose|dx: int, dy: int|
                            -1 <= dx <= 1 && -1 <= dy <= 1 && move_by_post(
                                s1,
                                s2,
                                old(game).map@,
                                mid,
                                dx,
                                dy,
                            );
                        assert(s2[j] == s1[j]);
                    } else {
                        assert(s2[j] == s1[j]);
                    }
                    assert(objects@[j] == s2[j]);
                }
            }
        },
        Option::None => {
            proof {
                assert(s0[mid].ai is None);
                assert(Object { ai: Option::None, ..s0[mid] } == s0[mid]);
                assert(s1 =~= s0);
            }
        },
    }
}

/// One slot of the AI phase's queue: the entity at index `i` is dispatched
/// if it carries an AI block; the player's slot and AI-less slots pass the
/// state through untouched.
pub open spec fn ai_queue_step(
    s: Seq<Object>,
    s1: Seq<Object>,
    g: Game,
    g1: Game,
    f: Seq<Vec<bool>>,
    i: int,
) -> bool {
    if 0 < i < s.len() && s[i].ai is Some {
        dispatch_post(s, s1, g, g1, f, i)
    } else {
        s1 == s && g1 == g
    }
}

/// Aggregate effect of the AI phase: a chain of intermediate states runs
/// through every index in ascending order, each step a full AI dispatch of
/// that entity or a no-op where no AI block sits; in sum every AI block
/// advanced by one dispatch step, entities without one stand untouched,
/// and only the log changed in the session state.
pub open spec fn ai_phase_post(
    s0: Seq<Object>,
    s1: Seq<Object>,
    g0: Game,
    g1: Game,
    f: Seq<Vec<bool>>,
) -> bool {
    &&& s1.len() == s0.len()
    &&& world_wf(s0) ==> world_wf(s1)
    &&& game_same_but_log(g0, g1)
    &&& log_grows(g0.log@, g1.log@)
    &&& forall|i: int|
        0 < i < s0.len() ==> (#[trigger] s1[i]).ai == (match s0[i].ai {
            Option::None => Option::<Ai>::None,
            Option::Some(a) => Option::Some(ai_step(a)),
        })
    &&& forall|i: int| 0 < i < s0.len() && (#[trigger] s0[i]).ai is None ==> s1[i] == s0[i]
    &&& exists|worlds: Seq<Seq<Object>>, games: Seq<Game>|
        #![trigger worlds[0], games[0]]
        {
            &&& worlds.len() == s0.len() + 1
            &&& games.len() == s0.len() + 1
            &&& worlds[0] == s0
            &&& games[0] == g0
            &&& worlds[worlds.len() - 1] == s1
            &&& games[games.len() - 1] == g1
            &&& forall|i: int, j: int|
                #![trigger worlds[i], worlds[j]]
                0 <= i && j == i + 1 && j < worlds.len() ==> ai_queue_step(
                    worlds[i],
                    worlds[j],
                    games[i],
                    games[j],
                    f,
                    i,
                )
        }
}

/// Runs AI for every AI-bearing entity, in ascending collection order.
pub fn run_ai_turns(objects: &mut Vec<Object>, game: &mut Game, fov: &Fov)
    requires
        map_wf(old(game).map@),
        fov_wf(fov@),
        world_wf(old(objects)@),
    ensures
        final(objects)@.len() == old(objects)@.len(),
        world_wf(final(objects)@),
        game_same_but_log(*old(game), *final(game)),
        log_grows(old(game).log@, final(game).log@),
        ai_phase_post(old(objects)@, final(objects)@, *old(game), *final(game), fov@),
{
    proof {
        lemma_log_extended_refl(game.log@);
    }
    let n = objects.len();
    let mut id: usize = 0;
    let ghost mut worlds: Seq<Seq<Object>> = seq![objects@];
    let ghost mut games: Seq<Game> = seq![*game];
    while id < n
        invariant
            n == objects@.len(),
            id <= n,
            map_wf(game.map@),
            fov_wf(fov@),
            world_wf(objects@),
            game_same_but_log(*old(game), *game),
            log_grows(old(game).log@, game.log@),
            forall|i: int|
                0 < i < id ==> (#[trigger] objects@[i]).ai == (match old(objects)@[i].ai {
                    Option::None => Option::<Ai>::None,
                    Option::Some(a) => Option::Some(ai_step(a)),
                }),
            forall|i: int|
                0 < i < id && (#[trigger] old(objects)@[i]).ai is None ==> objects@[i] == old(
                    objects,
                )@[i],
            forall|i: int|
                id <= i < n && 0 < i ==> (#[trigger] objects@[i]) == old(objects)@[i],
            worlds.len() == id + 1,
            games.len() == id + 1,
            worlds[0] == old(objects)@,
            games[0] == *old(game),
            worlds[worlds.len() - 1] == objects@,
            games[games.len() - 1] == *game,
            forall|i: int, j: int|
                #![trigger worlds[i], worlds[j]]
                0 <= i && j == i + 1 && j < worlds.len() ==> ai_queue_step(
                    worlds[i],
                    worlds[j],
                    games[i],
                    games[j],
                    fov@,
                    i,
                ),
        decreases n - id,
    {
        let ghost pre = objects@;
        let ghost pre_g = *game;
        if id > 0 && objects[id].ai.is_some() {
            let ghost mid_log = game.log@;
            ai_take_turn(id, objects, fov, game);
            proof {
                lemma_log_grows_trans(old(game).log@, mid_log, game.log@);
                assert(pre[id as int] == old(objects)@[id as int]);
                assert forall|i: int|
                    id < i < n && 0 < i implies (#[trigger] objects@[i]) == old(objects)@[i] by {
                    assert(objects@[i] == pre[i]);
                }
                assert forall|i: int| 0 < i < id implies (#[trigger] objects@[i]) == pre[i] by {}
            }
        }
        proof {
            assert(ai_queue_step(pre, objects@, pre_g, *game, fov@, id as int));
            let ghost worlds0 = worlds;
            let ghost games0 = games;
            worlds = worlds.push(objects@);
            games = games.push(*game);
            assert forall|i: int, j: int|
                #![trigger worlds[i], worlds[j]]
                0 <= i && j == i + 1 && j < worlds.len() implies ai_queue_step(
                worlds[i],
                worlds[j],
                games[i],
                games[j],
                fov@,
                i,
            ) by {
                if j < worlds0.len() {
                    assert(worlds[i] == worlds0[i] && worlds[j] == worlds0[j]);
                    assert(games[i] == games0[i] && games[j] == games0[j]);
                    assert(ai_queue_step(worlds0[i], worlds0[j], games0[i], games0[j], fov@, i));
                } else {
                    assert(worlds[i] == worlds0[worlds0.len() - 1]);
                    assert(worlds[i] == pre);
                    assert(worlds[j] == objects@);
                    assert(games[i] == pre_g);
                    assert(games[j] == *game);
                }
            }
        }
        id += 1;
    }
}

/// The three stat boosts a level-up offers.
#[derive(Clone, Copy, Debug, PartialEq, Eq, Structural)]
pub enum StatChoice {
    Constitution,
    Strength,
    Agility,
}

/// Experience needed to rise past `level`.
pub open spec fn level_up_threshold(level: int) -> int {
    LEVEL_UP_BASE + level * LEVEL_UP_FACTOR
}

/// The chosen boost applied to the player's combat block.
pub open spec fn boosted_fighter(f: Fighter, choice: StatChoice) -> Fighter {
    match choice {
        StatChoice::Constitution => Fighter {
            max_hp: clamp_i32(f.max_hp + 20) as i32,
            hp: clamp_i32(f.hp + 20) as i32,
            ..f
        },
        StatChoice::Strength => Fighter { power: clamp_i32(f.power + 1) as i32, ..f },
        StatChoice::Agility => Fighter { defense: clamp_i32(f.defense + 1) as i32, ..f },
    }
}

/// The current level's threshold, computed wide enough never to overflow.
fn threshold_i64(level: i32) -> (t: i64)
    ensures
        t == level_up_threshold(level as int),
{
    let lv: i64 = level as i64;
    let factor: i64 = LEVEL_UP_FACTOR as i64;
    proof {
        assert(-0x8000_0000i64 * 150 <= lv * factor <= 0x8000_0000i64 * 150) by (nonlinear_arith)
            requires
                factor == 150,
                -0x8000_0000 <= lv <= 0x8000_0000,
        ;
    }
    (LEVEL_UP_BASE as i64) + lv * factor
}

/// Whether the player's experience has reached the current level's
/// threshold, so that the turn loop must block on a stat choice.
pub fn level_up_pending(objects: &Vec<Object>) -> (r: bool)
    requires
        objects@.len() >= 1,
        objects@[0].fighter is Some,
    ensures
        r == (objects@[0].fighter->0.xp >= level_up_threshold(objects@[0].level as int)),
{
    let p = &objects[0];
    let f = p.fighter.unwrap();
    let threshold: i64 = threshold_i64(p.level);
    (f.xp as i64) >= threshold
}

/// Applies one level-up: the level rises by one, the threshold is deducted
/// from the accumulated experience, and the chosen stat boost lands.
pub fn apply_level_up(objects: &mut Vec<Object>, game: &mut Game, choice: StatChoice)
    requires
        old(objects)@.len() >= 1,
        old(objects)@[0].fighter is Some,
        0 <= old(objects)@[0].level,
        old(objects)@[0].fighter->0.xp >= level_up_threshold(old(objects)@[0].level as int),
    ensures
        final(objects)@.len() == old(objects)@.len(),
        ({
            let p = old(objects)@[0];
            let f = p.fighter->0;
            let thr = level_up_threshold(p.level as int);
            let f1 = Fighter { xp: (f.xp - thr) as i32, ..f };
            &&& final(objects)@ == old(objects)@.update(
                0,
                Object {
                    level: clamp_i32(p.level + 1) as i32,
                    fighter: Some(boosted_fighter(f1, choice)),
                    ..p
                },
            )
            &&& log_extended(
                old(game).log@,
                final(game).log@,
                seq![(msg_level_up(clamp_i32(p.level + 1)), spec_yellow())],
            )
            &&& game_same_but_log(*old(game), *final(game))
        }),
{
    let mut p = Object::new(0, 0, ' ', "", white(), false);
    core::mem::swap(&mut p, &mut objects[0]);
    let f = p.fighter.unwrap();
    let threshold: i64 = threshold_i64(p.level);
    let new_level = sat_add_i32(p.level, 1);
    p.level = new_level;
    let mut t = String::from_str("Your battle skills grow stronger! You reached level ");
    push_dec_i64(&mut t, new_level as i64);
    t.append("!");
    proof {
        assert(t@ =~= msg_level_up(clamp_i32(old(objects)@[0].level + 1)));
        lemma_log_extended_push(
            game.log@,
            t,
            spec_yellow(),
            msg_level_up(clamp_i32(old(objects)@[0].level + 1)),
        );
    }
    add_msg(&mut game.log, t, yellow());
    let new_xp = ((f.xp as i64) - threshold) as i32;
    let f1 = Fighter { xp: new_xp, ..f };
    let f2 = match choice {
        StatChoice::Constitution => Fighter {
            max_hp: sat_add_i32(f1.max_hp, 20),
            hp: sat_add_i32(f1.hp, 20),
            ..f1
        },
        StatChoice::Strength => Fighter { power: sat_add_i32(f1.power, 1), ..f1 },
        StatChoice::Agility => Fighter { defense: sat_add_i32(f1.defense, 1), ..f1 },
    };
    p.fighter = Some(f2);
    core::mem::swap(&mut p, &mut objects[0]);
    proof {
        assert(objects@ =~= old(objects)@.update(
            0,
            Object {
                level: clamp_i32(old(objects)@[0].level + 1) as i32,
                fighter: Some(
                    boosted_fighter(
                        Fighter {
                            xp: (old(objects)@[0].fighter->0.xp - level_up_threshold(
                                old(objects)@[0].level as int,
                            )) as i32,
                            ..old(objects)@[0].fighter->0
                        },
                        choice,
                    ),
                ),
                ..old(objects)@[0]
            },
        ));
    }
}

/// Law: experience landing exactly on the threshold levels the player up
/// exactly once per check. The deduction leaves zero experience, strictly
/// below the next level's positive threshold, so one gain can never trigger
/// a second level-up.
pub proof fn lemma_level_up_exactly_once(level: int, xp: int)
    requires
        0 <= level,
        xp == level_up_threshold(level),
    ensures
        xp - level_up_threshold(level) == 0,
        xp - level_up_threshold(level) < level_up_threshold(level + 1),
{
}

} // verus!
