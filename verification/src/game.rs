//! The session state that is threaded through the engine: the grid, the
//! message log, the player's inventory and the dungeon depth.

use vstd::prelude::*;

use crate::color::Color;
use crate::object::Object;
use crate::tile::Grid;

verus! {

/// The append-only message log: (text, color) pairs.
pub type Messages = Vec<(String, Color)>;

/// Everything persisted besides the world collection itself.
pub struct Game {
    pub map: Grid,
    pub log: Messages,
    pub inventory: Vec<Object>,
    pub dungeon_level: u32,
}

/// Appends one message to the log.
pub fn add_msg(log: &mut Messages, text: String, color: Color)
    ensures
        final(log)@ == old(log)@.push((text, color)),
{
    log.push((text, color));
}

/// The new log is the old one with exactly the given messages appended, in
/// order; message texts are compared as character sequences.
pub open spec fn log_extended(
    old_log: Seq<(String, Color)>,
    new_log: Seq<(String, Color)>,
    msgs: Seq<(Seq<char>, Color)>,
) -> bool {
    &&& new_log.len() == old_log.len() + msgs.len()
    &&& new_log.take(old_log.len() as int) == old_log
    &&& forall|i: int|
        0 <= i < msgs.len() ==> (#[trigger] new_log[old_log.len() + i]).0@ == msgs[i].0
            && new_log[old_log.len() + i].1 == msgs[i].1
}

/// Appending message lists composes.
pub proof fn lemma_log_extended_trans(
    a: Seq<(String, Color)>,
    b: Seq<(String, Color)>,
    c: Seq<(String, Color)>,
    m1: Seq<(Seq<char>, Color)>,
    m2: Seq<(Seq<char>, Color)>,
)
    requires
        log_extended(a, b, m1),
        log_extended(b, c, m2),
    ensures
        log_extended(a, c, m1 + m2),
{
    assert forall|i: int| 0 <= i < b.len() implies c[i] == b[i] by {
        assert(b[i] == c.take(b.len() as int)[i]);
    }
    assert forall|i: int| 0 <= i < a.len() implies b[i] == a[i] by {
        assert(a[i] == b.take(a.len() as int)[i]);
    }
    assert(c.take(a.len() as int) =~= a);
    assert forall|i: int| 0 <= i < (m1 + m2).len() implies (#[trigger] c[a.len() + i]).0@ == (m1
        + m2)[i].0 && c[a.len() + i].1 == (m1 + m2)[i].1 by {
        if i < m1.len() {
            assert(b[a.len() + i].0@ == m1[i].0 && b[a.len() + i].1 == m1[i].1);
            assert(c[a.len() + i] == b[a.len() + i]);
        } else {
            assert(c[b.len() + (i - m1.len())].0@ == m2[i - m1.len()].0 && c[b.len() + (i
                - m1.len())].1 == m2[i - m1.len()].1);
            assert(a.len() + i == b.len() + (i - m1.len()));
        }
    }
}

/// An unchanged log extends itself by nothing.
pub proof fn lemma_log_extended_refl(a: Seq<(String, Color)>)
    ensures
        log_extended(a, a, Seq::<(Seq<char>, Color)>::empty()),
{
    assert(a.take(a.len() as int) =~= a);
}

/// A single push extends the log by that one message.
pub proof fn lemma_log_extended_push(
    a: Seq<(String, Color)>,
    text: String,
    color: Color,
    t: Seq<char>,
)
    requires
        text@ == t,
    ensures
        log_extended(a, a.push((text, color)), seq![(t, color)]),
{
    assert(a.push((text, color)).take(a.len() as int) =~= a);
}

/// The log only ever grows: the old log is a prefix of the new one.
pub open spec fn log_grows(a: Seq<(String, Color)>, b: Seq<(String, Color)>) -> bool {
    &&& b.len() >= a.len()
    &&& b.take(a.len() as int) == a
}

pub proof fn lemma_log_extended_grows(
    a: Seq<(String, Color)>,
    b: Seq<(String, Color)>,
    m: Seq<(Seq<char>, Color)>,
)
    requires
        log_extended(a, b, m),
    ensures
        log_grows(a, b),
{
}

pub proof fn lemma_log_grows_refl(a: Seq<(String, Color)>)
    ensures
        log_grows(a, a),
{
    assert(a.take(a.len() as int) =~= a);
}

pub proof fn lemma_log_grows_trans(
    a: Seq<(String, Color)>,
    b: Seq<(String, Color)>,
    c: Seq<(String, Color)>,
)
    requires
        log_grows(a, b),
        log_grows(b, c),
    ensures
        log_grows(a, c),
{
    assert forall|i: int| 0 <= i < b.len() implies c[i] == b[i] by {
        assert(b[i] == c.take(b.len() as int)[i]);
    }
    assert forall|i: int| 0 <= i < a.len() implies b[i] == a[i] by {
        assert(a[i] == b.take(a.len() as int)[i]);
    }
    assert(c.take(a.len() as int) =~= a);
}

/// The parts of the session state that a combat step leaves alone.
pub open spec fn game_same_but_log(g1: Game, g2: Game) -> bool {
    &&& g2.map == g1.map
    &&& g2.inventory == g1.inventory
    &&& g2.dungeon_level == g1.dungeon_level
}

} // verus!
