//! Item and effect resolution: use, pickup and drop of inventory items, and
//! the four effect routines. Targeted effects receive their externally
//! selected target as an argument; the blocking selection interaction lives
//! with the input collaborator.

use vstd::prelude::*;
use vstd::string::*;

use crate::CONFUSE_NUM_TURNS;
use crate::FIREBALL_DAMAGE;
use crate::FIREBALL_RADIUS;
use crate::HEAL_AMOUNT;
use crate::INVENTORY_CAPACITY;
use crate::LIGHTNING_DAMAGE;
use crate::LIGHTNING_RANGE;
use crate::color::Color;
use crate::color::green;
use crate::color::light_blue;
use crate::color::light_cyan;
use crate::color::light_green;
use crate::color::light_violet;
use crate::color::orange;
use crate::color::red;
use crate::color::spec_green;
use crate::color::spec_light_blue;
use crate::color::spec_light_cyan;
use crate::color::spec_light_green;
use crate::color::spec_light_violet;
use crate::color::spec_orange;
use crate::color::spec_red;
use crate::color::spec_white;
use crate::color::spec_yellow;
use crate::color::white;
use crate::color::yellow;
use crate::engine::Fov;
use crate::engine::fov_wf;
use crate::engine::lemma_wf_pointwise;
use crate::engine::visible;
use crate::engine::world_wf;
use crate::game::Game;
use crate::game::add_msg;
use crate::game::lemma_log_extended_grows;
use crate::game::lemma_log_extended_push;
use crate::game::lemma_log_grows_refl;
use crate::game::lemma_log_grows_trans;
use crate::game::log_grows;
use crate::game::lemma_log_extended_refl;
use crate::game::lemma_log_extended_trans;
use crate::game::log_extended;
use crate::geom::dist_sq;
use crate::geom::dist_sq_spec;
use crate::num::clamp_i32;
use crate::num::sat_add_i32;
use crate::object::Ai;
use crate::object::Item;
use crate::object::Fighter;
use crate::object::Object;
use crate::object::healed_fighter;
use crate::object::take_damage_msgs;
use crate::object::take_damage_post;
use crate::object::take_damage_result;
use crate::text::dec_int;
use crate::text::push_dec_i64;
use crate::tile::in_map;
use crate::tile::interior;

verus! {

/// Outcome of using an item: consumed, or left in the inventory.
#[derive(Clone, Copy, Debug, PartialEq, Eq, Structural)]
pub enum UseResult {
    UsedUp,
    Cancelled,
}

/// The externally selected target handed to `use_item`: nothing, a tile, or
/// an entity of the world collection.
#[derive(Clone, Copy, Debug, PartialEq, Eq, Structural)]
pub enum UseTarget {
    NoTarget,
    Tile(i32, i32),
    Monster(usize),
}

pub open spec fn msg_full_health() -> Seq<char> {
    "You are already at full health."@
}

pub open spec fn msg_heal() -> Seq<char> {
    "Your wounds start to feel better!"@
}

pub open spec fn msg_no_enemy() -> Seq<char> {
    "No enemy is close enough to strike."@
}

pub open spec fn msg_lightning(n: Seq<char>) -> Seq<char> {
    "A lightning bolt strikes the "@ + n + " with a loud thunder! The damage is "@ + dec_int(
        LIGHTNING_DAMAGE as int,
    ) + " hit points."@
}

pub open spec fn msg_confuse_prompt() -> Seq<char> {
    "Left-click an enemy to confuse it, right-click to cancel."@
}

pub open spec fn msg_confused(n: Seq<char>) -> Seq<char> {
    "The eyes of "@ + n + " look vacant, as he starts to stumble around!"@
}

pub open spec fn msg_fireball_prompt() -> Seq<char> {
    "Left-click a target tile for the fireball, or right-click to cancel."@
}

pub open spec fn msg_fireball_explode() -> Seq<char> {
    "The fireball explodes, burning everything within "@ + dec_int(FIREBALL_RADIUS as int)
        + " tiles!"@
}

pub open spec fn msg_burn(n: Seq<char>) -> Seq<char> {
    "The "@ + n + " gets burned for "@ + dec_int(FIREBALL_DAMAGE as int) + " hit points"@
}

pub open spec fn msg_cannot_use(n: Seq<char>) -> Seq<char> {
    "The "@ + n + " cannot be used."@
}

pub open spec fn msg_cancelled() -> Seq<char> {
    "Cancelled"@
}

pub open spec fn msg_inventory_full(n: Seq<char>) -> Seq<char> {
    "Your inventory is full. Cannot pick up "@ + n + "."@
}

pub open spec fn msg_picked_up(n: Seq<char>) -> Seq<char> {
    "You picked up a "@ + n + "!"@
}

pub open spec fn msg_dropped(n: Seq<char>) -> Seq<char> {
    "You dropped a "@ + n + "."@
}

/// A healing potion is cancelled at full health, and otherwise heals the
/// player a fixed amount.
pub open spec fn heal_result(s: Seq<Object>) -> UseResult {
    match s[0].fighter {
        Option::None => UseResult::Cancelled,
        Option::Some(f) => if f.hp == f.max_hp {
            UseResult::Cancelled
        } else {
            UseResult::UsedUp
        },
    }
}

pub open spec fn heal_post(s0: Seq<Object>, s1: Seq<Object>) -> bool {
    match s0[0].fighter {
        Option::None => s1 == s0,
        Option::Some(f) => if f.hp == f.max_hp {
            s1 == s0
        } else {
            s1 == s0.update(
                0,
                Object { fighter: Some(healed_fighter(f, HEAL_AMOUNT as int)), ..s0[0] },
            )
        },
    }
}

pub open spec fn heal_msgs(s0: Seq<Object>) -> Seq<(Seq<char>, Color)> {
    match s0[0].fighter {
        Option::None => Seq::empty(),
        Option::Some(f) => if f.hp == f.max_hp {
            seq![(msg_full_health(), spec_red())]
        } else {
            seq![(msg_heal(), spec_light_violet())]
        },
    }
}

pub open spec fn heal_spec(
    s0: Seq<Object>,
    s1: Seq<Object>,
    l0: Seq<(String, Color)>,
    l1: Seq<(String, Color)>,
    r: UseResult,
) -> bool {
    &&& r == heal_result(s0)
    &&& heal_post(s0, s1)
    &&& log_extended(l0, l1, heal_msgs(s0))
}

/// The healing effect.
pub fn cast_heal(objects: &mut Vec<Object>, game: &mut Game) -> (r: UseResult)
    requires
        old(objects)@.len() >= 1,
    ensures
        final(objects)@.len() == old(objects)@.len(),
        heal_spec(old(objects)@, final(objects)@, old(game).log@, final(game).log@, r),
        log_grows(old(game).log@, final(game).log@),
        crate::game::game_same_but_log(*old(game), *final(game)),
{
    proof {
        lemma_log_grows_refl(game.log@);
    }
    proof {
        lemma_log_extended_refl(game.log@);
    }
    match objects[0].fighter {
        Some(f) => {
            if f.hp == f.max_hp {
                let t = String::from_str("You are already at full health.");
                proof {
                    lemma_log_extended_push(game.log@, t, spec_red(), msg_full_health());
                }
                add_msg(&mut game.log, t, red());
                proof {
                    lemma_log_extended_grows(old(game).log@, game.log@, heal_msgs(old(objects)@));
                }
                UseResult::Cancelled
            } else {
                let t = String::from_str("Your wounds start to feel better!");
                proof {
                    lemma_log_extended_push(game.log@, t, spec_light_violet(), msg_heal());
                }
                add_msg(&mut game.log, t, light_violet());
                proof {
                    lemma_log_extended_grows(old(game).log@, game.log@, heal_msgs(old(objects)@));
                }
                objects[0].heal(HEAL_AMOUNT);
                UseResult::UsedUp
            }
        },
        None => UseResult::Cancelled,
    }
}

/// Eligibility for the lightning bolt's automatic targeting: an
/// AI-and-combat-bearing, currently visible entity other than the player,
/// strictly closer than `max_range + 1`.
pub open spec fn bolt_eligible(
    s: Seq<Object>,
    f: Seq<Vec<bool>>,
    j: int,
    bound_sq: int,
) -> bool {
    &&& 0 < j < s.len()
    &&& s[j].fighter is Some
    &&& s[j].ai is Some
    &&& visible(f, s[j].x as int, s[j].y as int)
    &&& dist_sq_spec(s[0].x as int, s[0].y as int, s[j].x as int, s[j].y as int) < bound_sq
}

/// `t` is the first entity at minimal distance among the eligible ones.
pub open spec fn bolt_chosen(s: Seq<Object>, f: Seq<Vec<bool>>, t: int, bound_sq: int) -> bool {
    let dt = dist_sq_spec(s[0].x as int, s[0].y as int, s[t].x as int, s[t].y as int);
    &&& bolt_eligible(s, f, t, bound_sq)
    &&& forall|j: int|
        #[trigger] bolt_eligible(s, f, j, bound_sq) ==> dt <= dist_sq_spec(
            s[0].x as int,
            s[0].y as int,
            s[j].x as int,
            s[j].y as int,
        )
    &&& forall|j: int|
        j < t && #[trigger] bolt_eligible(s, f, j, bound_sq) ==> dt < dist_sq_spec(
            s[0].x as int,
            s[0].y as int,
            s[j].x as int,
            s[j].y as int,
        )
}

/// Finds the nearest eligible monster within `max_range`, ties broken by
/// collection order.
pub fn closest_monster(max_range: i32, objects: &Vec<Object>, fov: &Fov) -> (r: Option<usize>)
    requires
        objects@.len() >= 1,
        fov_wf(fov@),
        0 <= max_range <= 1000,
        forall|i: int|
            0 <= i < objects@.len() ==> in_map(
                (#[trigger] objects@[i]).x as int,
                objects@[i].y as int,
            ),
    ensures
        ({
            let bound_sq = (max_range + 1) * (max_range + 1);
            match r {
                Some(t) => t < objects@.len() && bolt_chosen(objects@, fov@, t as int, bound_sq),
                None => forall|j: int| !bolt_eligible(objects@, fov@, j, bound_sq),
            }
        }),
{
    let px = objects[0].x;
    let py = objects[0].y;
    let mr: i64 = max_range as i64 + 1;
    proof {
        assert(1 <= mr * mr <= 1002001 && mr * mr == ((max_range + 1) * (max_range + 1)) as int)
            by (nonlinear_arith)
            requires
                0 <= max_range <= 1000,
                mr == max_range + 1,
        ;
    }
    let bound: i64 = mr * mr;
    let mut best: Option<usize> = None;
    let mut best_d: i128 = bound as i128;
    let n = objects.len();
    let mut j: usize = 0;
    while j < n
        invariant
            n == objects@.len(),
            objects@.len() >= 1,
            j <= n,
            fov_wf(fov@),
            px == objects@[0].x,
            py == objects@[0].y,
            bound == ((max_range + 1) * (max_range + 1)) as int,
            forall|i: int|
                0 <= i < objects@.len() ==> in_map(
                    (#[trigger] objects@[i]).x as int,
                    objects@[i].y as int,
                ),
            best is None ==> best_d == bound as int && forall|k: int|
                0 <= k < j ==> !bolt_eligible(objects@, fov@, k, bound as int),
            best matches Some(t) ==> {
                &&& 0 < t < j
                &&& bolt_eligible(objects@, fov@, t as int, bound as int)
                &&& best_d == dist_sq_spec(
                    px as int,
                    py as int,
                    objects@[t as int].x as int,
                    objects@[t as int].y as int,
                )
                &&& forall|k: int|
                    0 <= k < j && #[trigger] bolt_eligible(objects@, fov@, k, bound as int)
                        ==> best_d <= dist_sq_spec(
                        px as int,
                        py as int,
                        objects@[k].x as int,
                        objects@[k].y as int,
                    )
                &&& forall|k: int|
                    0 <= k < t && #[trigger] bolt_eligible(objects@, fov@, k, bound as int)
                        ==> best_d < dist_sq_spec(
                        px as int,
                        py as int,
                        objects@[k].x as int,
                        objects@[k].y as int,
                    )
            },
        decreases n - j,
    {
        if j != 0 {
            let o = &objects[j];
            if o.fighter.is_some() && o.ai.is_some() && crate::engine::is_visible(fov, o.x, o.y) {
                let d = dist_sq(px, py, o.x, o.y);
                if d < best_d {
                    best = Some(j);
                    best_d = d;
                }
            }
        }
        j += 1;
    }
    best
}

/// The player's record with an experience award applied.
pub open spec fn xp_awarded(p: Object, award: Option<i32>) -> Object {
    match p.fighter {
        Option::None => p,
        Option::Some(f) => match award {
            Option::None => p,
            Option::Some(xp) => Object {
                fighter: Some(Fighter { xp: clamp_i32(f.xp + xp) as i32, ..f }),
                ..p
            },
        },
    }
}

pub open spec fn lightning_spec(
    s0: Seq<Object>,
    s1: Seq<Object>,
    f: Seq<Vec<bool>>,
    l0: Seq<(String, Color)>,
    l1: Seq<(String, Color)>,
    r: UseResult,
) -> bool {
    let bound_sq = (LIGHTNING_RANGE + 1) * (LIGHTNING_RANGE + 1);
    if exists|j: int| #[trigger] bolt_eligible(s0, f, j, bound_sq) {
        &&& r == UseResult::UsedUp
        &&& exists|t: int, nt: Object|
            {
                &&& bolt_chosen(s0, f, t, bound_sq)
                &&& #[trigger] take_damage_post(
                    s0[t],
                    nt,
                    LIGHTNING_DAMAGE as int,
                    take_damage_result(s0[t], LIGHTNING_DAMAGE as int),
                )
                &&& s1 == s0.update(t, nt).update(
                    0,
                    xp_awarded(s0[0], take_damage_result(s0[t], LIGHTNING_DAMAGE as int)),
                )
                &&& log_extended(
                    l0,
                    l1,
                    seq![(msg_lightning(s0[t].name@), spec_light_blue())] + take_damage_msgs(
                        s0[t],
                        LIGHTNING_DAMAGE as int,
                    ),
                )
            }
    } else {
        &&& r == UseResult::Cancelled
        &&& s1 == s0
        &&& log_extended(l0, l1, seq![(msg_no_enemy(), spec_red())])
    }
}

/// The lightning bolt effect: strikes the nearest visible monster in range.
pub fn cast_lightning(objects: &mut Vec<Object>, game: &mut Game, fov: &Fov) -> (r: UseResult)
    requires
        world_wf(old(objects)@),
        fov_wf(fov@),
    ensures
        final(objects)@.len() == old(objects)@.len(),
        lightning_spec(old(objects)@, final(objects)@, fov@, old(game).log@, final(game).log@, r),
        log_grows(old(game).log@, final(game).log@),
        crate::game::game_same_but_log(*old(game), *final(game)),
        world_wf(final(objects)@),
{
    proof {
        lemma_log_extended_refl(game.log@);
        assert forall|i: int| 0 <= i < objects@.len() implies in_map(
            (#[trigger] objects@[i]).x as int,
            objects@[i].y as int,
        ) by {
            assert(interior(objects@[i].x as int, objects@[i].y as int));
        }
    }
    let found = closest_monster(LIGHTNING_RANGE, objects, fov);
    match found {
        Some(t) => {
            let mut m = String::from_str("A lightning bolt strikes the ");
            m.append(objects[t].name.as_str());
            m.append(" with a loud thunder! The damage is ");
            push_dec_i64(&mut m, LIGHTNING_DAMAGE as i64);
            m.append(" hit points.");
            proof {
                assert(m@ =~= msg_lightning(old(objects)@[t as int].name@));
                lemma_log_extended_push(
                    game.log@,
                    m,
                    spec_light_blue(),
                    msg_lightning(old(objects)@[t as int].name@),
                );
            }
            add_msg(&mut game.log, m, light_blue());
            let ghost mid_log = game.log@;
            let award = objects[t].take_damage(LIGHTNING_DAMAGE, game);
            proof {
                lemma_log_extended_trans(
                    old(game).log@,
                    mid_log,
                    game.log@,
                    seq![(msg_lightning(old(objects)@[t as int].name@), spec_light_blue())],
                    take_damage_msgs(old(objects)@[t as int], LIGHTNING_DAMAGE as int),
                );
            }
            let ghost s_mid = objects@;
            match award {
                Some(xp) => {
                    let f = objects[0].fighter.unwrap();
                    objects[0].set_fighter(Some(Fighter { xp: sat_add_i32(f.xp, xp), ..f }));
                },
                None => {},
            }
            proof {
                assert(objects@ =~= old(objects)@.update(t as int, s_mid[t as int]).update(
                    0,
                    xp_awarded(
                        old(objects)@[0],
                        take_damage_result(old(objects)@[t as int], LIGHTNING_DAMAGE as int),
                    ),
                ));
                lemma_wf_pointwise(old(objects)@, objects@);
                lemma_log_extended_grows(
                    old(game).log@,
                    game.log@,
                    seq![(msg_lightning(old(objects)@[t as int].name@), spec_light_blue())]
                        + take_damage_msgs(old(objects)@[t as int], LIGHTNING_DAMAGE as int),
                );
            }
            UseResult::UsedUp
        },
        None => {
            let m = String::from_str("No enemy is close enough to strike.");
            proof {
                lemma_log_extended_push(game.log@, m, spec_red(), msg_no_enemy());
            }
            add_msg(&mut game.log, m, red());
            proof {
                lemma_log_extended_grows(
                    old(game).log@,
                    game.log@,
                    seq![(msg_no_enemy(), spec_red())],
                );
            }
            UseResult::Cancelled
        },
    }
}

pub open spec fn confuse_spec(
    s0: Seq<Object>,
    s1: Seq<Object>,
    target: Option<int>,
    l0: Seq<(String, Color)>,
    l1: Seq<(String, Color)>,
    r: UseResult,
) -> bool {
    match target {
        Option::Some(id) => {
            &&& r == UseResult::UsedUp
            &&& s1[id].ai matches Some(Ai::Confused { previous_ai, num_turns }) && *previous_ai
                == (match s0[id].ai {
                Option::Some(a) => a,
                Option::None => Ai::Basic,
            }) && num_turns == CONFUSE_NUM_TURNS
            &&& s1 == s0.update(id, Object { ai: s1[id].ai, ..s0[id] })
            &&& log_extended(
                l0,
                l1,
                seq![
                    (msg_confuse_prompt(), spec_light_cyan()),
                    (msg_confused(s0[id].name@), spec_light_green()),
                ],
            )
        },
        Option::None => {
            &&& r == UseResult::Cancelled
            &&& s1 == s0
            &&& log_extended(
                l0,
                l1,
                seq![
                    (msg_confuse_prompt(), spec_light_cyan()),
                    (msg_no_enemy(), spec_red()),
                ],
            )
        },
    }
}

/// The confusion effect: wraps the target's behavior in a confused walk for
/// a fixed number of turns.
pub fn cast_confuse(objects: &mut Vec<Object>, game: &mut Game, target: Option<usize>) -> (r:
    UseResult)
    requires
        world_wf(old(objects)@),
        target matches Some(id) ==> 0 < id < old(objects)@.len() && old(objects)@[
            id as int
        ].fighter is Some,
    ensures
        final(objects)@.len() == old(objects)@.len(),
        confuse_spec(
            old(objects)@,
            final(objects)@,
            match target {
                Option::Some(id) => Option::Some(id as int),
                Option::None => Option::None,
            },
            old(game).log@,
            final(game).log@,
            r,
        ),
        log_grows(old(game).log@, final(game).log@),
        crate::game::game_same_but_log(*old(game), *final(game)),
        world_wf(final(objects)@),
{
    proof {
        lemma_log_extended_refl(game.log@);
    }
    let p = String::from_str("Left-click an enemy to confuse it, right-click to cancel.");
    proof {
        lemma_log_extended_push(game.log@, p, spec_light_cyan(), msg_confuse_prompt());
    }
    add_msg(&mut game.log, p, light_cyan());
    let ghost mid_log = game.log@;
    match target {
        Some(id) => {
            let old_ai = objects[id].take_ai();
            let prev = match old_ai {
                Some(a) => a,
                None => Ai::Basic,
            };
            objects[id].set_ai(
                Some(Ai::Confused { previous_ai: Box::new(prev), num_turns: CONFUSE_NUM_TURNS }),
            );
            let mut m = String::from_str("The eyes of ");
            m.append(objects[id].name.as_str());
            m.append(" look vacant, as he starts to stumble around!");
            proof {
                assert(m@ =~= msg_confused(old(objects)@[id as int].name@));
                lemma_log_extended_push(
                    game.log@,
                    m,
                    spec_light_green(),
                    msg_confused(old(objects)@[id as int].name@),
                );
                lemma_log_extended_trans(
                    old(game).log@,
                    mid_log,
                    game.log@.push((m, spec_light_green())),
                    seq![(msg_confuse_prompt(), spec_light_cyan())],
                    seq![(msg_confused(old(objects)@[id as int].name@), spec_light_green())],
                );
            }
            add_msg(&mut game.log, m, light_green());
            proof {
                assert(objects@ =~= old(objects)@.update(
                    id as int,
                    Object { ai: objects@[id as int].ai, ..old(objects)@[id as int] },
                ));
                lemma_wf_pointwise(old(objects)@, objects@);
                lemma_log_extended_grows(
                    old(game).log@,
                    game.log@,
                    seq![(msg_confuse_prompt(), spec_light_cyan())] + seq![
                        (msg_confused(old(objects)@[id as int].name@), spec_light_green()),
                    ],
                );
            }
            UseResult::UsedUp
        },
        None => {
            let m = String::from_str("No enemy is close enough to strike.");
            proof {
                lemma_log_extended_push(game.log@, m, spec_red(), msg_no_enemy());
                lemma_log_extended_trans(
                    old(game).log@,
                    mid_log,
                    game.log@.push((m, spec_red())),
                    seq![(msg_confuse_prompt(), spec_light_cyan())],
                    seq![(msg_no_enemy(), spec_red())],
                );
            }
            add_msg(&mut game.log, m, red());
            proof {
                lemma_log_extended_grows(
                    old(game).log@,
                    game.log@,
                    seq![(msg_confuse_prompt(), spec_light_cyan())] + seq![
                        (msg_no_enemy(), spec_red()),
                    ],
                );
            }
            UseResult::Cancelled
        },
    }
}

/// Whether the fireball centered on `(tx, ty)` burns entity `i`: any
/// combat-bearing entity within the blast radius, the player included.
pub open spec fn fb_hit(s: Seq<Object>, i: int, tx: int, ty: int) -> bool {
    &&& dist_sq_spec(s[i].x as int, s[i].y as int, tx, ty) <= FIREBALL_RADIUS * FIREBALL_RADIUS
    &&& s[i].fighter is Some
}

/// Experience the blast earns from the first `n` entities: each burned
/// non-player entity's kill award.
pub open spec fn fb_xp_upto(s: Seq<Object>, tx: int, ty: int, n: int) -> int
    decreases n,
{
    if n <= 0 {
        0
    } else {
        fb_xp_upto(s, tx, ty, n - 1) + (if n - 1 != 0 && fb_hit(s, n - 1, tx, ty) {
            match take_damage_result(s[n - 1], FIREBALL_DAMAGE as int) {
                Option::Some(xp) => xp as int,
                Option::None => 0,
            }
        } else {
            0
        })
    }
}

/// The messages the blast appends while burning the first `n` entities.
pub open spec fn fb_msgs_upto(s: Seq<Object>, tx: int, ty: int, n: int) -> Seq<
    (Seq<char>, Color),
>
    decreases n,
{
    if n <= 0 {
        Seq::empty()
    } else {
        fb_msgs_upto(s, tx, ty, n - 1) + (if fb_hit(s, n - 1, tx, ty) {
            seq![(msg_burn(s[n - 1].name@), spec_orange())] + take_damage_msgs(
                s[n - 1],
                FIREBALL_DAMAGE as int,
            )
        } else {
            Seq::empty()
        })
    }
}

/// Every burned entity has taken the blast damage; everything else stands.
pub open spec fn fb_damaged(s0: Seq<Object>, mid: Seq<Object>, tx: int, ty: int) -> bool {
    &&& mid.len() == s0.len()
    &&& forall|i: int|
        0 <= i < s0.len() ==> if fb_hit(s0, i, tx, ty) {
            take_damage_post(
                s0[i],
                #[trigger] mid[i],
                FIREBALL_DAMAGE as int,
                take_damage_result(s0[i], FIREBALL_DAMAGE as int),
            )
        } else {
            mid[i] == s0[i]
        }
}

/// The player's record with the blast's total experience added.
pub open spec fn fb_player_awarded(p: Object, total: int) -> Object {
    match p.fighter {
        Option::None => p,
        Option::Some(f) => Object {
            fighter: Some(Fighter { xp: clamp_i32(f.xp + total) as i32, ..f }),
            ..p
        },
    }
}

pub open spec fn fireball_spec(
    s0: Seq<Object>,
    s1: Seq<Object>,
    target: Option<(i32, i32)>,
    l0: Seq<(String, Color)>,
    l1: Seq<(String, Color)>,
    r: UseResult,
) -> bool {
    match target {
        Option::None => {
            &&& r == UseResult::Cancelled
            &&& s1 == s0
            &&& log_extended(l0, l1, seq![(msg_fireball_prompt(), spec_light_cyan())])
        },
        Option::Some((tx, ty)) => {
            &&& r == UseResult::UsedUp
            &&& exists|mid: Seq<Object>|
                {
                    &&& #[trigger] fb_damaged(s0, mid, tx as int, ty as int)
                    &&& s1 == mid.update(
                        0,
                        fb_player_awarded(
                            mid[0],
                            fb_xp_upto(s0, tx as int, ty as int, s0.len() as int),
                        ),
                    )
                }
            &&& log_extended(
                l0,
                l1,
                seq![
                    (msg_fireball_prompt(), spec_light_cyan()),
                    (msg_fireball_explode(), spec_orange()),
                ] + fb_msgs_upto(s0, tx as int, ty as int, s0.len() as int),
            )
        },
    }
}

/// The fireball effect: burns every combat-bearing entity within the blast
/// radius of the selected tile — friendly fire included — and credits the
/// player the experience of every monster it kills.
pub fn cast_fireball(
    objects: &mut Vec<Object>,
    game: &mut Game,
    target: Option<(i32, i32)>,
) -> (r: UseResult)
    requires
        world_wf(old(objects)@),
    ensures
        final(objects)@.len() == old(objects)@.len(),
        fireball_spec(old(objects)@, final(objects)@, target, old(game).log@, final(game).log@, r),
        log_grows(old(game).log@, final(game).log@),
        crate::game::game_same_but_log(*old(game), *final(game)),
        world_wf(final(objects)@),
{
    proof {
        lemma_log_extended_refl(game.log@);
    }
    let p = String::from_str("Left-click a target tile for the fireball, or right-click to cancel.");
    proof {
        lemma_log_extended_push(game.log@, p, spec_light_cyan(), msg_fireball_prompt());
    }
    add_msg(&mut game.log, p, light_cyan());
    let (tx, ty) = match target {
        Some(t) => t,
        None => {
            proof {
                lemma_log_extended_grows(
                    old(game).log@,
                    game.log@,
                    seq![(msg_fireball_prompt(), spec_light_cyan())],
                );
            }
            return UseResult::Cancelled;
        },
    };
    let mut m = String::from_str("The fireball explodes, burning everything within ");
    push_dec_i64(&mut m, FIREBALL_RADIUS as i64);
    m.append(" tiles!");
    proof {
        assert(m@ =~= msg_fireball_explode());
        lemma_log_extended_push(game.log@, m, spec_orange(), msg_fireball_explode());
        lemma_log_extended_trans(
            old(game).log@,
            game.log@,
            game.log@.push((m, spec_orange())),
            seq![(msg_fireball_prompt(), spec_light_cyan())],
            seq![(msg_fireball_explode(), spec_orange())],
        );
    }
    add_msg(&mut game.log, m, orange());

    let ghost s0 = objects@;
    let ghost l_start = game.log@;
    let ghost head_msgs = seq![
        (msg_fireball_prompt(), spec_light_cyan()),
        (msg_fireball_explode(), spec_orange()),
    ];
    proof {
        assert(head_msgs =~= seq![(msg_fireball_prompt(), spec_light_cyan())] + seq![
            (msg_fireball_explode(), spec_orange()),
        ]);
    }
    let n = objects.len();
    let mut xp_acc: i128 = 0;
    let mut i: usize = 0;
    proof {
        lemma_log_extended_refl(game.log@);
    }
    while i < n
        invariant
            n == objects@.len(),
            n == s0.len(),
            i <= n,
            forall|j: int| i <= j < n ==> objects@[j] == s0[j],
            forall|j: int|
                0 <= j < i ==> if fb_hit(s0, j, tx as int, ty as int) {
                    take_damage_post(
                        s0[j],
                        #[trigger] objects@[j],
                        FIREBALL_DAMAGE as int,
                        take_damage_result(s0[j], FIREBALL_DAMAGE as int),
                    )
                } else {
                    objects@[j] == s0[j]
                },
            xp_acc == fb_xp_upto(s0, tx as int, ty as int, i as int),
            -(i as int) * 0x8000_0000 <= xp_acc <= (i as int) * 0x8000_0000,
            log_extended(l_start, game.log@, fb_msgs_upto(s0, tx as int, ty as int, i as int)),
            crate::game::game_same_but_log(*old(game), *game),
        decreases n - i,
    {
        let o = &objects[i];
        let d = dist_sq(o.x, o.y, tx, ty);
        let radius_sq: i128 = (FIREBALL_RADIUS * FIREBALL_RADIUS) as i128;
        if d <= radius_sq && o.fighter.is_some() {
            proof {
                assert(fb_hit(s0, i as int, tx as int, ty as int));
            }
            let mut b = String::from_str("The ");
            b.append(objects[i].name.as_str());
            b.append(" gets burned for ");
            push_dec_i64(&mut b, FIREBALL_DAMAGE as i64);
            b.append(" hit points");
            proof {
                assert(b@ =~= msg_burn(s0[i as int].name@));
                lemma_log_extended_push(game.log@, b, spec_orange(), msg_burn(s0[i as int].name@));
                lemma_log_extended_trans(
                    l_start,
                    game.log@,
                    game.log@.push((b, spec_orange())),
                    fb_msgs_upto(s0, tx as int, ty as int, i as int),
                    seq![(msg_burn(s0[i as int].name@), spec_orange())],
                );
            }
            add_msg(&mut game.log, b, orange());
            let ghost l_mid = game.log@;
            let award = objects[i].take_damage(FIREBALL_DAMAGE, game);
            proof {
                lemma_log_extended_trans(
                    l_start,
                    l_mid,
                    game.log@,
                    fb_msgs_upto(s0, tx as int, ty as int, i as int) + seq![
                        (msg_burn(s0[i as int].name@), spec_orange()),
                    ],
                    take_damage_msgs(s0[i as int], FIREBALL_DAMAGE as int),
                );
                assert(fb_msgs_upto(s0, tx as int, ty as int, i + 1) =~= fb_msgs_upto(
                    s0,
                    tx as int,
                    ty as int,
                    i as int,
                ) + seq![(msg_burn(s0[i as int].name@), spec_orange())] + take_damage_msgs(
                    s0[i as int],
                    FIREBALL_DAMAGE as int,
                ));
            }
            if i != 0 {
                match award {
                    Some(xp) => {
                        xp_acc = xp_acc + xp as i128;
                    },
                    None => {},
                }
            }
        } else {
            proof {
                assert(!fb_hit(s0, i as int, tx as int, ty as int));
                assert(fb_msgs_upto(s0, tx as int, ty as int, i + 1) =~= fb_msgs_upto(
                    s0,
                    tx as int,
                    ty as int,
                    i as int,
                ));
            }
        }
        i += 1;
    }
    let ghost s_mid = objects@;
    let f = objects[0].fighter.unwrap();
    let total: i128 = (f.xp as i128) + xp_acc;
    let new_xp: i32 = if total > i32::MAX as i128 {
        i32::MAX
    } else if total < i32::MIN as i128 {
        i32::MIN
    } else {
        total as i32
    };
    objects[0].set_fighter(Some(Fighter { xp: new_xp, ..f }));
    proof {
        assert(fb_damaged(s0, s_mid, tx as int, ty as int));
        assert(objects@ =~= s_mid.update(
            0,
            fb_player_awarded(s_mid[0], fb_xp_upto(s0, tx as int, ty as int, s0.len() as int)),
        ));
        lemma_wf_pointwise(s0, objects@);
        lemma_log_extended_trans(
            old(game).log@,
            l_start,
            game.log@,
            head_msgs,
            fb_msgs_upto(s0, tx as int, ty as int, n as int),
        );
        assert(head_msgs + fb_msgs_upto(s0, tx as int, ty as int, n as int) =~= seq![
            (msg_fireball_prompt(), spec_light_cyan()),
            (msg_fireball_explode(), spec_orange()),
        ] + fb_msgs_upto(s0, tx as int, ty as int, s0.len() as int));
        lemma_log_extended_grows(
            old(game).log@,
            game.log@,
            head_msgs + fb_msgs_upto(s0, tx as int, ty as int, n as int),
        );
    }
    UseResult::UsedUp
}

/// Full effect of one use of inventory entry `iid`: the effect its item
/// block selects runs against the world, a used-up item leaves the
/// inventory, a cancelled use logs the cancellation, and an entity without
/// an item block is refused.
pub open spec fn use_item_post(
    iid: int,
    target: UseTarget,
    s0: Seq<Object>,
    s1: Seq<Object>,
    g0: Game,
    g1: Game,
    f: Seq<Vec<bool>>,
    r: UseResult,
) -> bool {
    &&& g1.map == g0.map
    &&& g1.dungeon_level == g0.dungeon_level
    &&& ({
        let l0 = g0.log@;
        let l1 = g1.log@;
        let inv0 = g0.inventory@;
        let inv1 = g1.inventory@;
        match inv0[iid].item {
                Option::None => {
                    &&& r == UseResult::Cancelled
                    &&& s1 == s0
                    &&& inv1 == inv0
                    &&& log_extended(
                        l0,
                        l1,
                        seq![
                            (msg_cannot_use(inv0[iid].name@), spec_white()),
                        ],
                    )
                },
                Option::Some(kind) => {
                    let lmid = (match r {
                        UseResult::UsedUp => l1,
                        UseResult::Cancelled => l1.take(l1.len() - 1),
                    });
                    &&& (match kind {
                        Item::Heal => heal_spec(s0, s1, l0, lmid, r),
                        Item::Lightning => lightning_spec(s0, s1, f, l0, lmid, r),
                        Item::Confuse => confuse_spec(
                            s0,
                            s1,
                            match target {
                                UseTarget::Monster(id) => Option::Some(id as int),
                                _ => Option::None,
                            },
                            l0,
                            lmid,
                            r,
                        ),
                        Item::Fireball => fireball_spec(
                            s0,
                            s1,
                            match target {
                                UseTarget::Tile(x, y) => Option::Some((x, y)),
                                _ => Option::None,
                            },
                            l0,
                            lmid,
                            r,
                        ),
                    })
                    &&& (match r {
                        UseResult::UsedUp => inv1 == inv0.remove(iid),
                        UseResult::Cancelled => inv1 == inv0 && log_extended(
                            lmid,
                            l1,
                            seq![(msg_cancelled(), spec_white())],
                        ),
                    })
                },
            }
        })
}

/// Uses the inventory item at `inventory_id`: dispatches the effect its
/// item block selects, removes the item if the effect reports it used up,
/// and logs a cancellation otherwise. An entity without an item block
/// cannot be used.
pub fn use_item(
    inventory_id: usize,
    target: UseTarget,
    objects: &mut Vec<Object>,
    game: &mut Game,
    fov: &Fov,
) -> (r: UseResult)
    requires
        world_wf(old(objects)@),
        fov_wf(fov@),
        inventory_id < old(game).inventory@.len(),
        target matches UseTarget::Monster(id) ==> 0 < id < old(objects)@.len() && old(objects)@[
            id as int
        ].fighter is Some,
    ensures
        final(objects)@.len() == old(objects)@.len(),
        world_wf(final(objects)@),
        log_grows(old(game).log@, final(game).log@),
        use_item_post(
            inventory_id as int,
            target,
            old(objects)@,
            final(objects)@,
            *old(game),
            *final(game),
            fov@,
            r,
        ),
{
    proof {
        lemma_log_extended_refl(game.log@);
    }
    let item = game.inventory[inventory_id].item;
    match item {
        Some(kind) => {
            let res = match kind {
                Item::Heal => cast_heal(objects, game),
                Item::Lightning => cast_lightning(objects, game, fov),
                Item::Confuse => cast_confuse(
                    objects,
                    game,
                    match target {
                        UseTarget::Monster(id) => Some(id),
                        _ => None,
                    },
                ),
                Item::Fireball => cast_fireball(
                    objects,
                    game,
                    match target {
                        UseTarget::Tile(x, y) => Some((x, y)),
                        _ => None,
                    },
                ),
            };
            let ghost lmid = game.log@;
            match res {
                UseResult::UsedUp => {
                    game.inventory.remove(inventory_id);
                },
                UseResult::Cancelled => {
                    let t = String::from_str("Cancelled");
                    proof {
                        lemma_log_extended_push(game.log@, t, spec_white(), msg_cancelled());
                    }
                    add_msg(&mut game.log, t, white());
                    proof {
                        assert(game.log@.take(game.log@.len() - 1) =~= lmid);
                        lemma_log_extended_grows(
                            lmid,
                            game.log@,
                            seq![(msg_cancelled(), spec_white())],
                        );
                        lemma_log_grows_trans(old(game).log@, lmid, game.log@);
                    }
                },
            }
            res
        },
        None => {
            let mut t = String::from_str("The ");
            t.append(game.inventory[inventory_id].name.as_str());
            t.append(" cannot be used.");
            proof {
                assert(t@ =~= msg_cannot_use(old(game).inventory@[inventory_id as int].name@));
                lemma_log_extended_push(
                    game.log@,
                    t,
                    spec_white(),
                    msg_cannot_use(old(game).inventory@[inventory_id as int].name@),
                );
            }
            add_msg(&mut game.log, t, white());
            proof {
                lemma_log_extended_grows(
                    old(game).log@,
                    game.log@,
                    seq![(msg_cannot_use(old(game).inventory@[inventory_id as int].name@), spec_white())],
                );
            }
            UseResult::Cancelled
        },
    }
}

/// Full effect of one pickup attempt on entity `oid`: at capacity the
/// world and inventory stand and the refusal is logged; below capacity the
/// entity moves from the world collection into the inventory.
pub open spec fn pickup_post(
    s0: Seq<Object>,
    s1: Seq<Object>,
    g0: Game,
    g1: Game,
    oid: int,
) -> bool {
    &&& g1.map == g0.map
    &&& g1.dungeon_level == g0.dungeon_level
    &&& if g0.inventory@.len() >= INVENTORY_CAPACITY {
        &&& s1 == s0
        &&& g1.inventory@ == g0.inventory@
        &&& log_extended(
            g0.log@,
            g1.log@,
            seq![(msg_inventory_full(s0[oid].name@), spec_red())],
        )
    } else {
        &&& s1 == s0.update(oid, s0.last()).drop_last()
        &&& g1.inventory@ == g0.inventory@.push(s0[oid])
        &&& log_extended(g0.log@, g1.log@, seq![(msg_picked_up(s0[oid].name@), spec_green())])
    }
}

/// Picks the world entity at `object_id` up into the inventory. A full
/// inventory refuses the pickup and leaves the entity in the world.
pub fn pick_item_up(object_id: usize, objects: &mut Vec<Object>, game: &mut Game)
    requires
        world_wf(old(objects)@),
        0 < object_id < old(objects)@.len(),
    ensures
        log_grows(old(game).log@, final(game).log@),
        pickup_post(
            old(objects)@,
            final(objects)@,
            *old(game),
            *final(game),
            object_id as int,
        ),
        world_wf(final(objects)@),
{
    if game.inventory.len() >= INVENTORY_CAPACITY {
        let mut t = String::from_str("Your inventory is full. Cannot pick up ");
        t.append(objects[object_id].name.as_str());
        t.append(".");
        proof {
            assert(t@ =~= msg_inventory_full(old(objects)@[object_id as int].name@));
            lemma_log_extended_push(
                game.log@,
                t,
                spec_red(),
                msg_inventory_full(old(objects)@[object_id as int].name@),
            );
        }
        add_msg(&mut game.log, t, red());
        proof {
            lemma_log_extended_grows(
                old(game).log@,
                game.log@,
                seq![(msg_inventory_full(old(objects)@[object_id as int].name@), spec_red())],
            );
        }
    } else {
        let item = objects.swap_remove(object_id);
        let mut t = String::from_str("You picked up a ");
        t.append(item.name.as_str());
        t.append("!");
        proof {
            assert(t@ =~= msg_picked_up(old(objects)@[object_id as int].name@));
            lemma_log_extended_push(
                game.log@,
                t,
                spec_green(),
                msg_picked_up(old(objects)@[object_id as int].name@),
            );
        }
        add_msg(&mut game.log, t, green());
        proof {
            lemma_log_extended_grows(
                old(game).log@,
                game.log@,
                seq![(msg_picked_up(old(objects)@[object_id as int].name@), spec_green())],
            );
        }
        game.inventory.push(item);
        proof {
            let pre = old(objects)@;
            let post = objects@;
            assert forall|i: int| 0 <= i < post.len() implies interior(
                (#[trigger] post[i]).x as int,
                post[i].y as int,
            ) && (post[i].ai is Some ==> post[i].fighter is Some) by {
                if i == object_id {
                    assert(post[i] == pre.last());
                    assert(interior(pre[pre.len() - 1].x as int, pre[pre.len() - 1].y as int));
                    assert(pre[pre.len() - 1].ai is Some ==> pre[pre.len() - 1].fighter is Some);
                } else {
                    assert(post[i] == pre[i]);
                    assert(interior(pre[i].x as int, pre[i].y as int));
                    assert(pre[i].ai is Some ==> pre[i].fighter is Some);
                }
            }
        }
    }
}

/// Full effect of dropping inventory entry `i`: it leaves the inventory
/// and lands in the world at the player's position.
pub open spec fn drop_post(s0: Seq<Object>, s1: Seq<Object>, g0: Game, g1: Game, i: int) -> bool {
    &&& g1.map == g0.map
    &&& g1.dungeon_level == g0.dungeon_level
    &&& g1.inventory@ == g0.inventory@.remove(i)
    &&& s1 == s0.push(Object { x: s0[0].x, y: s0[0].y, ..g0.inventory@[i] })
    &&& log_extended(g0.log@, g1.log@, seq![(msg_dropped(g0.inventory@[i].name@), spec_yellow())])
}

/// Drops the inventory item at `inventory_id` at the player's feet: the
/// inverse of pickup.
pub fn drop_item(inventory_id: usize, objects: &mut Vec<Object>, game: &mut Game)
    requires
        world_wf(old(objects)@),
        inventory_id < old(game).inventory@.len(),
        old(game).inventory@[inventory_id as int].ai is None,
    ensures
        log_grows(old(game).log@, final(game).log@),
        drop_post(
            old(objects)@,
            final(objects)@,
            *old(game),
            *final(game),
            inventory_id as int,
        ),
        world_wf(final(objects)@),
{
    let mut item = game.inventory.remove(inventory_id);
    let (px, py) = objects[0].pos();
    item.x = px;
    item.y = py;
    let mut t = String::from_str("You dropped a ");
    t.append(item.name.as_str());
    t.append(".");
    proof {
        assert(t@ =~= msg_dropped(old(game).inventory@[inventory_id as int].name@));
        lemma_log_extended_push(
            game.log@,
            t,
            spec_yellow(),
            msg_dropped(old(game).inventory@[inventory_id as int].name@),
        );
    }
    add_msg(&mut game.log, t, yellow());
    proof {
        lemma_log_extended_grows(
            old(game).log@,
            game.log@,
            seq![(msg_dropped(old(game).inventory@[inventory_id as int].name@), spec_yellow())],
        );
    }
    objects.push(item);
    proof {
        let pre = old(objects)@;
        let post = objects@;
        assert forall|i: int| 0 <= i < post.len() implies interior(
            (#[trigger] post[i]).x as int,
            post[i].y as int,
        ) && (post[i].ai is Some ==> post[i].fighter is Some) by {
            if i < pre.len() {
                assert(post[i] == pre[i]);
                assert(interior(pre[i].x as int, pre[i].y as int));
                assert(pre[i].ai is Some ==> pre[i].fighter is Some);
            } else {
                assert(interior(pre[0].x as int, pre[0].y as int));
            }
        }
    }
}

} // verus!
