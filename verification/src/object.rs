//! The entity model: one polymorphic record for everything placeable, with
//! optional capability blocks for combat stats, AI behavior and item effects,
//! and the combat rules (damage, death transitions, healing).

use vstd::prelude::*;
use vstd::string::*;

use crate::color::Color;
use crate::color::dark_red;
use crate::color::spec_dark_red;
use crate::color::spec_yellow;
use crate::color::yellow;
use crate::game::Game;
use crate::game::add_msg;
use crate::game::game_same_but_log;
use crate::game::lemma_log_extended_push;
use crate::game::lemma_log_extended_refl;
use crate::game::lemma_log_extended_trans;
use crate::game::log_extended;
use crate::num::clamp_i32;
use crate::num::sat_add_i32;
use crate::num::sat_sub_i32;
use crate::text::dec_int;
use crate::text::push_dec_i64;

verus! {

/// Which terminal transition runs when a combatant's hit points reach zero.
#[derive(Clone, Copy, Debug, PartialEq, Eq, Structural)]
pub enum DeathCallback {
    Player,
    Monster,
}

/// The combat capability block.
#[derive(Clone, Copy, Debug, PartialEq, Eq, Structural)]
pub struct Fighter {
    pub max_hp: i32,
    pub hp: i32,
    pub defense: i32,
    pub power: i32,
    pub xp: i32,
    pub on_death: DeathCallback,
}

/// The AI capability block. `Confused` wraps the behavior it replaced so the
/// entity can recover it; the wrapping supports arbitrary nesting.
#[derive(Debug, PartialEq)]
pub enum Ai {
    Basic,
    Confused { previous_ai: Box<Ai>, num_turns: i32 },
}

/// The item capability block: which effect fires on use.
#[derive(Clone, Copy, Debug, PartialEq, Eq, Structural)]
pub enum Item {
    Heal,
    Lightning,
    Confuse,
    Fireball,
}

/// The single polymorphic record for everything placed in the world.
#[derive(Debug, PartialEq)]
pub struct Object {
    pub x: i32,
    pub y: i32,
    pub glyph: char,
    pub color: Color,
    pub name: String,
    pub blocks: bool,
    pub alive: bool,
    pub always_visible: bool,
    pub level: i32,
    pub fighter: Option<Fighter>,
    pub ai: Option<Ai>,
    pub item: Option<Item>,
}

/// Name a dead monster is renamed to.
pub open spec fn remains_name(n: Seq<char>) -> Seq<char> {
    "remains of "@ + n
}

pub open spec fn msg_player_death() -> Seq<char> {
    "You died!"@
}

pub open spec fn msg_monster_death(n: Seq<char>, xp: int) -> Seq<char> {
    n + " is dead! You gain "@ + dec_int(xp) + " xp."@
}

pub open spec fn msg_attack(a: Seq<char>, d: Seq<char>, dmg: int) -> Seq<char> {
    a + " attacks "@ + d + " for "@ + dec_int(dmg) + " hit points."@
}

pub open spec fn msg_no_effect(a: Seq<char>, d: Seq<char>) -> Seq<char> {
    a + " attacks "@ + d + " but it has no effect!"@
}

/// The fighter block after `damage` is applied: positive damage subtracts
/// from hit points (clamped only by the `i32` floor), other damage has no
/// effect.
pub open spec fn damaged_fighter(f: Fighter, damage: int) -> Fighter {
    if damage > 0 {
        Fighter { hp: clamp_i32(f.hp - damage) as i32, ..f }
    } else {
        f
    }
}

/// The player's death leaves the record in place: death marker glyph and
/// color, no longer alive, rendered even out of sight.
pub open spec fn player_dead_form(now: Object, prev: Object, f2: Fighter) -> bool {
    now == (Object {
        glyph: '@',
        color: spec_dark_red(),
        alive: false,
        always_visible: true,
        fighter: Some(f2),
        ..prev
    })
}

/// A monster's death transforms the record: renamed to its remains, combat
/// and AI blocks cleared, no longer blocking.
pub open spec fn monster_dead_form(now: Object, prev: Object) -> bool {
    &&& now.name@ == remains_name(prev.name@)
    &&& now == (Object {
        glyph: '@',
        color: spec_dark_red(),
        alive: false,
        always_visible: true,
        blocks: false,
        fighter: None,
        ai: None,
        name: now.name,
        ..prev
    })
}

/// The experience award `take_damage` returns: the victim's configured xp
/// exactly when the damage (or an already non-positive hp total) kills it.
pub open spec fn take_damage_result(prev: Object, damage: int) -> Option<i32> {
    match prev.fighter {
        None => None,
        Some(f) => if damaged_fighter(f, damage).hp <= 0 {
            Some(f.xp)
        } else {
            None
        },
    }
}

/// Full effect of `take_damage` on the entity itself.
pub open spec fn take_damage_post(prev: Object, now: Object, damage: int, r: Option<i32>) -> bool {
    match prev.fighter {
        None => now == prev && r is None,
        Some(f) => {
            let f2 = damaged_fighter(f, damage);
            if f2.hp > 0 {
                now == (Object { fighter: Some(f2), ..prev }) && r is None
            } else {
                r == Some(f.xp) && match f.on_death {
                    DeathCallback::Player => player_dead_form(now, prev, f2),
                    DeathCallback::Monster => monster_dead_form(now, prev),
                }
            }
        },
    }
}

/// The messages `take_damage` appends to the log.
pub open spec fn take_damage_msgs(prev: Object, damage: int) -> Seq<(Seq<char>, Color)> {
    match prev.fighter {
        None => Seq::empty(),
        Some(f) => {
            if damaged_fighter(f, damage).hp > 0 {
                Seq::empty()
            } else {
                match f.on_death {
                    DeathCallback::Player => seq![(msg_player_death(), spec_dark_red())],
                    DeathCallback::Monster => seq![
                        (msg_monster_death(prev.name@, f.xp as int), spec_dark_red()),
                    ],
                }
            }
        },
    }
}

/// The fighter block after healing: `amount` is added to hit points (clamped
/// at the `i32` ceiling), then capped at `max_hp`.
pub open spec fn healed_fighter(f: Fighter, amount: int) -> Fighter {
    let h = clamp_i32(f.hp + amount);
    Fighter { hp: (if h > f.max_hp { f.max_hp as int } else { h }) as i32, ..f }
}

/// Attack damage: attacker's power minus defender's defense, each read as 0
/// where the combat block is missing.
pub open spec fn attack_damage(att: Object, def: Object) -> int {
    (match att.fighter {
        Some(f) => f.power as int,
        None => 0,
    }) - (match def.fighter {
        Some(f) => f.defense as int,
        None => 0,
    })
}

/// Whether this entity is the player for the purposes of experience awards:
/// the player's own death grants nothing to anyone.
pub open spec fn is_player_kind(o: Object) -> bool {
    o.fighter matches Some(f) && f.on_death == DeathCallback::Player
}

/// Full effect of one attack on the attacker and the defender. Positive net
/// damage is applied to the defender; a kill's experience is credited to the
/// attacker unless the victim is the player.
pub open spec fn attack_post(oa: Object, od: Object, na: Object, nd: Object) -> bool {
    let dmg = attack_damage(oa, od);
    if dmg > 0 {
        let d32 = clamp_i32(dmg);
        let award = take_damage_result(od, d32);
        &&& take_damage_post(od, nd, d32, award)
        &&& (match award {
            Some(xp) => if !is_player_kind(od) {
                oa.fighter matches Some(f) && na == (Object {
                    fighter: Some(Fighter { xp: clamp_i32(f.xp + xp) as i32, ..f }),
                    ..oa
                })
            } else {
                na == oa
            },
            None => na == oa,
        })
    } else {
        na == oa && nd == od
    }
}

/// The messages one attack appends to the log.
pub open spec fn attack_msgs(oa: Object, od: Object) -> Seq<(Seq<char>, Color)> {
    let dmg = attack_damage(oa, od);
    if dmg > 0 {
        let d32 = clamp_i32(dmg);
        seq![(msg_attack(oa.name@, od.name@, d32), spec_yellow())] + take_damage_msgs(od, d32)
    } else {
        seq![(msg_no_effect(oa.name@, od.name@), spec_yellow())]
    }
}

impl Object {
    /// A fresh entity: not alive until a caller says so, level 1, no
    /// capability blocks.
    pub fn new(x: i32, y: i32, glyph: char, name: &str, color: Color, blocks: bool) -> (o: Object)
        ensures
            o.x == x,
            o.y == y,
            o.glyph == glyph,
            o.color == color,
            o.name@ == name@,
            o.blocks == blocks,
            o.alive == false,
            o.always_visible == false,
            o.level == 1,
            o.fighter is None,
            o.ai is None,
            o.item is None,
    {
        Object {
            x,
            y,
            glyph,
            color,
            name: String::from_str(name),
            blocks,
            alive: false,
            always_visible: false,
            level: 1,
            fighter: None,
            ai: None,
            item: None,
        }
    }

    pub fn pos(&self) -> (p: (i32, i32))
        ensures
            p == (self.x, self.y),
    {
        (self.x, self.y)
    }

    pub fn set_pos(&mut self, x: i32, y: i32)
        ensures
            *final(self) == (Object { x, y, ..*old(self) }),
    {
        self.x = x;
        self.y = y;
    }

    pub fn set_fighter(&mut self, fighter: Option<Fighter>)
        ensures
            *final(self) == (Object { fighter, ..*old(self) }),
    {
        self.fighter = fighter;
    }

    pub fn set_ai(&mut self, ai: Option<Ai>)
        ensures
            *final(self) == (Object { ai, ..*old(self) }),
    {
        self.ai = ai;
    }

    /// Removes and returns the AI block, as one step of an AI dispatch.
    pub fn take_ai(&mut self) -> (a: Option<Ai>)
        ensures
            a == old(self).ai,
            *final(self) == (Object { ai: None, ..*old(self) }),
    {
        self.ai.take()
    }

    /// Applies `damage` to this entity's combat block, runs the death
    /// transition if hit points end up at or below zero, and returns the
    /// experience award owed for a kill.
    pub fn take_damage(&mut self, damage: i32, game: &mut Game) -> (r: Option<i32>)
        ensures
            take_damage_post(*old(self), *final(self), damage as int, r),
            r == take_damage_result(*old(self), damage as int),
            log_extended(
                old(game).log@,
                final(game).log@,
                take_damage_msgs(*old(self), damage as int),
            ),
            game_same_but_log(*old(game), *final(game)),
    {
        proof {
            lemma_log_extended_refl(game.log@);
        }
        match self.fighter {
            Some(f) => {
                if damage > 0 {
                    let new_hp = sat_sub_i32(f.hp, damage);
                    self.fighter = Some(Fighter { hp: new_hp, ..f });
                }
                let f2 = self.fighter.unwrap();
                if f2.hp <= 0 {
                    self.alive = false;
                    self.always_visible = true;
                    match f2.on_death {
                        DeathCallback::Player => {
                            self.glyph = '@';
                            self.color = dark_red();
                            let t = String::from_str("You died!");
                            proof {
                                lemma_log_extended_push(
                                    game.log@,
                                    t,
                                    spec_dark_red(),
                                    msg_player_death(),
                                );
                            }
                            add_msg(&mut game.log, t, dark_red());
                        },
                        DeathCallback::Monster => {
                            let mut t = self.name.clone();
                            t.append(" is dead! You gain ");
                            push_dec_i64(&mut t, f2.xp as i64);
                            t.append(" xp.");
                            proof {
                                assert(t@ =~= msg_monster_death(
                                    old(self).name@,
                                    f2.xp as int,
                                ));
                                lemma_log_extended_push(
                                    game.log@,
                                    t,
                                    spec_dark_red(),
                                    msg_monster_death(old(self).name@, f2.xp as int),
                                );
                            }
                            add_msg(&mut game.log, t, dark_red());
                            self.glyph = '@';
                            self.color = dark_red();
                            self.blocks = false;
                            self.fighter = None;
                            self.ai = None;
                            let mut n = String::from_str("remains of ");
                            n.append(self.name.as_str());
                            self.name = n;
                        },
                    }
                    Some(f2.xp)
                } else {
                    None
                }
            },
            None => None,
        }
    }

    /// Adds to hit points, never past `max_hp`; no-op without a combat block.
    pub fn heal(&mut self, amount: i32)
        ensures
            match old(self).fighter {
                None => *final(self) == *old(self),
                Some(f) => *final(self) == (Object {
                    fighter: Some(healed_fighter(f, amount as int)),
                    ..*old(self)
                }),
            },
    {
        match self.fighter {
            Some(f) => {
                let mut h = sat_add_i32(f.hp, amount);
                if h > f.max_hp {
                    h = f.max_hp;
                }
                self.fighter = Some(Fighter { hp: h, ..f });
            },
            None => {},
        }
    }

    /// Resolves one attack: positive net damage is applied to the target
    /// (with any kill's experience credited to this attacker); zero or
    /// negative damage only logs that the blow had no effect.
    pub fn attack(&mut self, target: &mut Object, game: &mut Game)
        requires
            old(self).fighter is Some,
        ensures
            game_same_but_log(*old(game), *final(game)),
            attack_post(*old(self), *old(target), *final(self), *final(target)),
            log_extended(
                old(game).log@,
                final(game).log@,
                attack_msgs(*old(self), *old(target)),
            ),
    {
        let power = self.fighter.unwrap().power;
        let defense = match &target.fighter {
            Some(f) => f.defense,
            None => 0,
        };
        let target_is_player = match &target.fighter {
            Some(f) => matches!(f.on_death, DeathCallback::Player),
            None => false,
        };
        let dmg64: i64 = power as i64 - defense as i64;
        if dmg64 > 0 {
            let d32: i32 = if dmg64 > i32::MAX as i64 {
                i32::MAX
            } else {
                dmg64 as i32
            };
            let mut t = self.name.clone();
            t.append(" attacks ");
            t.append(target.name.as_str());
            t.append(" for ");
            push_dec_i64(&mut t, d32 as i64);
            t.append(" hit points.");
            proof {
                assert(t@ =~= msg_attack(old(self).name@, old(target).name@, d32 as int));
                lemma_log_extended_push(
                    game.log@,
                    t,
                    spec_yellow(),
                    msg_attack(old(self).name@, old(target).name@, d32 as int),
                );
            }
            add_msg(&mut game.log, t, yellow());
            let ghost mid_log = game.log@;
            let award = target.take_damage(d32, game);
            proof {
                lemma_log_extended_trans(
                    old(game).log@,
                    mid_log,
                    game.log@,
                    seq![(msg_attack(old(self).name@, old(target).name@, d32 as int), spec_yellow())],
                    take_damage_msgs(*old(target), d32 as int),
                );
            }
            match award {
                Some(xp) => {
                    if !target_is_player {
                        let f = self.fighter.unwrap();
                        self.fighter = Some(Fighter { xp: sat_add_i32(f.xp, xp), ..f });
                    }
                },
                None => {},
            }
        } else {
            let mut t = self.name.clone();
            t.append(" attacks ");
            t.append(target.name.as_str());
            t.append(" but it has no effect!");
            proof {
                assert(t@ =~= msg_no_effect(old(self).name@, old(target).name@));
                lemma_log_extended_push(
                    game.log@,
                    t,
                    spec_yellow(),
                    msg_no_effect(old(self).name@, old(target).name@),
                );
            }
            add_msg(&mut game.log, t, yellow());
        }
    }
}

} // verus!
