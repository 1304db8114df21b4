//! Persistence: a self-describing byte format for the full simulation state
//! and its decoder, proved to round-trip exactly. The surrounding program
//! only moves the bytes to and from durable storage.
//!
//! Integers are stored little-endian, offset into a non-negative range;
//! lengths are 8 bytes; characters are their code points; every sum type
//! stores a leading tag byte.

use vstd::prelude::*;
use vstd::string::*;

use crate::color::Color;
use crate::object::Ai;
use crate::object::DeathCallback;
use crate::object::Fighter;
use crate::object::Item;
use crate::object::Object;
use crate::game::Game;
use crate::tile::Grid;
use crate::tile::Tile;

verus! {

/// The little-endian bytes of a non-negative value, `n` bytes long.
pub open spec fn le_bytes(v: int, n: nat) -> Seq<u8>
    decreases n,
{
    if n == 0 {
        Seq::empty()
    } else {
        seq![(v % 256) as u8] + le_bytes(v / 256, (n - 1) as nat)
    }
}

/// The value read back from `n` little-endian bytes.
pub open spec fn le_val(b: Seq<u8>, pos: int, n: nat) -> int
    decreases n,
{
    if n == 0 {
        0
    } else {
        b[pos] + 256 * le_val(b, pos + 1, (n - 1) as nat)
    }
}

pub open spec fn pow256(n: nat) -> int
    decreases n,
{
    if n == 0 {
        1
    } else {
        256 * pow256((n - 1) as nat)
    }
}

proof fn lemma_le_bytes_len(v: int, n: nat)
    ensures
        le_bytes(v, n).len() == n,
    decreases n,
{
    if n > 0 {
        lemma_le_bytes_len(v / 256, (n - 1) as nat);
    }
}

/// Reading back the little-endian bytes of `v` yields `v`.
proof fn lemma_le_roundtrip(b: Seq<u8>, pos: int, v: int, n: nat)
    requires
        0 <= v < pow256(n),
        0 <= pos,
        pos + n <= b.len(),
        b.subrange(pos, pos + n) == le_bytes(v, n),
    ensures
        le_val(b, pos, n) == v,
    decreases n,
{
    lemma_le_bytes_len(v, n);
    if n > 0 {
        let rest = le_bytes(v / 256, (n - 1) as nat);
        lemma_le_bytes_len(v / 256, (n - 1) as nat);
        assert(b.subrange(pos, pos + n)[0] == (v % 256) as u8);
        assert(b[pos] == (v % 256) as u8);
        assert(0 <= v % 256 < 256) by (nonlinear_arith)
            requires
                v >= 0,
        ;
        assert(b[pos] == v % 256);
        assert(b.subrange(pos + 1, pos + n) =~= le_bytes(v / 256, (n - 1) as nat)) by {
            assert(b.subrange(pos + 1, pos + n) =~= b.subrange(pos, pos + n).subrange(
                1,
                n as int,
            ));
            assert((seq![(v % 256) as u8] + rest).subrange(1, n as int) =~= rest);
        }
        assert(0 <= v / 256 < pow256((n - 1) as nat)) by (nonlinear_arith)
            requires
                0 <= v < 256 * pow256((n - 1) as nat),
                pow256((n - 1) as nat) > 0,
        {
        }
        assert(pow256((n - 1) as nat) > 0) by {
            lemma_pow256_pos((n - 1) as nat);
        }
        assert(0 <= v / 256 < pow256((n - 1) as nat)) by (nonlinear_arith)
            requires
                0 <= v < 256 * pow256((n - 1) as nat),
                pow256((n - 1) as nat) > 0,
        ;
        lemma_le_roundtrip(b, pos + 1, v / 256, (n - 1) as nat);
        assert(v == v % 256 + 256 * (v / 256)) by (nonlinear_arith)
            requires
                v >= 0,
        ;
    }
}

proof fn lemma_pow256_pos(n: nat)
    ensures
        pow256(n) > 0,
    decreases n,
{
    if n > 0 {
        lemma_pow256_pos((n - 1) as nat);
    }
}

/// Appends the `n`-byte little-endian form of `v`.
fn push_le(buf: &mut Vec<u8>, v: u64, n: usize)
    requires
        n <= 8,
        (v as int) < pow256(n as nat),
    ensures
        final(buf)@ == old(buf)@ + le_bytes(v as int, n as nat),
{
    let mut v = v;
    let mut i: usize = 0;
    let ghost v0 = v as int;
    while i < n
        invariant
            i <= n,
            v as int == spec_shift_down(v0, i as nat),
            buf@ == old(buf)@ + le_bytes_partial(v0, i as nat),
        decreases n - i,
    {
        proof {
            lemma_le_partial_step(v0, i as nat);
        }
        buf.push((v % 256) as u8);
        proof {
            assert((v % 256) as u8 as int == spec_shift_down(v0, i as nat) % 256);
            assert(buf@ =~= old(buf)@ + le_bytes_partial(v0, (i + 1) as nat));
        }
        v = v / 256;
        i += 1;
    }
    proof {
        lemma_le_partial_full(v0, n as nat);
    }
}

/// `v` with its low `i` bytes shifted away.
pub open spec fn spec_shift_down(v: int, i: nat) -> int
    decreases i,
{
    if i == 0 {
        v
    } else {
        spec_shift_down(v, (i - 1) as nat) / 256
    }
}

/// The first `i` little-endian bytes of `v`.
pub open spec fn le_bytes_partial(v: int, i: nat) -> Seq<u8>
    decreases i,
{
    if i == 0 {
        Seq::empty()
    } else {
        le_bytes_partial(v, (i - 1) as nat).push((spec_shift_down(v, (i - 1) as nat) % 256) as u8)
    }
}

proof fn lemma_le_partial_step(v: int, i: nat)
    ensures
        le_bytes_partial(v, i + 1) == le_bytes_partial(v, i).push(
            (spec_shift_down(v, i) % 256) as u8,
        ),
{
}

/// Once all `n` bytes are emitted, the incremental form equals `le_bytes`.
proof fn lemma_le_partial_full(v: int, n: nat)
    ensures
        le_bytes_partial(v, n) =~= le_bytes(v, n),
    decreases n,
{
    if n > 0 {
        lemma_le_partial_shift(v, n);
    }
}

proof fn lemma_le_partial_shift(v: int, n: nat)
    requires
        n >= 1,
    ensures
        le_bytes_partial(v, n) =~= seq![(v % 256) as u8] + le_bytes_partial(v / 256, (n - 1) as nat),
        le_bytes_partial(v, n) =~= le_bytes(v, n),
    decreases n,
{
    if n == 1 {
        assert(spec_shift_down(v, 0) == v);
        assert(le_bytes_partial(v, 0nat) =~= Seq::<u8>::empty());
        assert(le_bytes_partial(v, 1) == le_bytes_partial(v, 0nat).push((v % 256) as u8));
        assert(le_bytes_partial(v, 1) =~= seq![(v % 256) as u8]);
        assert(le_bytes(v / 256, 0nat) =~= Seq::<u8>::empty());
        assert(le_bytes(v, 1) =~= seq![(v % 256) as u8] + le_bytes(v / 256, 0));
    } else {
        lemma_le_partial_shift(v, (n - 1) as nat);
        lemma_le_partial_shift(v / 256, (n - 1) as nat);
        assert(spec_shift_down(v, (n - 1) as nat) == spec_shift_down(v / 256, (n - 2) as nat))
            by {
            lemma_shift_commute(v, (n - 2) as nat);
        }
        assert(le_bytes_partial(v, n) =~= seq![(v % 256) as u8] + le_bytes_partial(
            v / 256,
            (n - 1) as nat,
        ));
        assert(le_bytes(v, n) =~= seq![(v % 256) as u8] + le_bytes(v / 256, (n - 1) as nat));
    }
}

proof fn lemma_shift_commute(v: int, i: nat)
    ensures
        spec_shift_down(v, i + 1) == spec_shift_down(v / 256, i),
    decreases i,
{
    if i == 0 {
        assert(spec_shift_down(v, 1) == spec_shift_down(v, 0nat) / 256);
        assert(spec_shift_down(v / 256, 0nat) == v / 256);
    } else {
        lemma_shift_commute(v, (i - 1) as nat);
        assert(spec_shift_down(v, i + 1) == spec_shift_down(v, i) / 256);
        assert(spec_shift_down(v / 256, i) == spec_shift_down(v / 256, (i - 1) as nat) / 256);
    }
}

/// Reads `n` little-endian bytes starting at `pos`.
fn read_le(bytes: &Vec<u8>, pos: usize, n: usize) -> (r: Option<(u64, usize)>)
    requires
        n <= 8,
    ensures
        match r {
            Some((v, p2)) => {
                &&& pos + n <= bytes@.len()
                &&& p2 == pos + n
                &&& v as int == le_val(bytes@, pos as int, n as nat)
                &&& (v as int) < pow256(n as nat)
            },
            None => pos + n > bytes@.len(),
        },
{
    if n > bytes.len() || pos > bytes.len() - n {
        return None;
    }
    let mut v: u64 = 0;
    let mut i: usize = n;
    while i > 0
        invariant
            i <= n,
            n <= 8,
            pos + n <= bytes@.len(),
            v as int == le_val(bytes@, pos + i, (n - i) as nat),
            (v as int) < pow256((n - i) as nat),
        decreases i,
    {
        i = i - 1;
        proof {
            assert(bytes@.len() == bytes.len());
        }
        let b = bytes[pos + i];
        proof {
            lemma_pow256_pos((n - i - 1) as nat);
            assert(256 * le_val(bytes@, pos + i + 1, (n - i - 1) as nat) + 256 > 0 ==> true);
            assert((v as int) * 256 + b < pow256((n - i) as nat)) by (nonlinear_arith)
                requires
                    (v as int) < pow256((n - i - 1) as nat),
                    b < 256,
                    pow256((n - i) as nat) == 256 * pow256((n - i - 1) as nat),
            ;
            assert(pow256((n - i) as nat) == 256 * pow256((n - i - 1) as nat));
            lemma_pow256_value();
            lemma_pow256_mono((n - i) as nat, 8);
        }
        v = v * 256 + (b as u64);
    }
    Some((v, pos + n))
}

proof fn lemma_pow256_value()
    ensures
        pow256(1) == 0x100,
        pow256(4) == 0x1_0000_0000,
        pow256(8) == 0x1_0000_0000_0000_0000,
{
    assert(pow256(0) == 1);
    assert(pow256(1) == 256);
    assert(pow256(2) == 0x1_0000);
    assert(pow256(3) == 0x100_0000);
    assert(pow256(4) == 0x1_0000_0000);
    assert(pow256(5) == 0x100_0000_0000);
    assert(pow256(6) == 0x1_0000_0000_0000);
    assert(pow256(7) == 0x100_0000_0000_0000);
}

proof fn lemma_pow256_mono(a: nat, b: nat)
    requires
        a <= b,
    ensures
        pow256(a) <= pow256(b),
    decreases b,
{
    if a < b && b > 0 {
        lemma_pow256_mono(a, (b - 1) as nat);
        lemma_pow256_pos((b - 1) as nat);
    }
}

/// Splitting a byte range that holds a concatenation.
proof fn lemma_split(b: Seq<u8>, pos: int, s1: Seq<u8>, s2: Seq<u8>)
    requires
        0 <= pos,
        pos + s1.len() + s2.len() <= b.len(),
        b.subrange(pos, pos + s1.len() + s2.len()) == s1 + s2,
    ensures
        b.subrange(pos, pos + s1.len()) == s1,
        b.subrange(pos + s1.len(), pos + s1.len() + s2.len()) == s2,
{
    let whole = b.subrange(pos, pos + s1.len() + s2.len());
    assert forall|i: int| 0 <= i < s1.len() implies b.subrange(pos, pos + s1.len())[i]
        == s1[i] by {
        assert(whole[i] == (s1 + s2)[i]);
    }
    assert(b.subrange(pos, pos + s1.len()) =~= s1);
    assert forall|i: int| 0 <= i < s2.len() implies b.subrange(
        pos + s1.len(),
        pos + s1.len() + s2.len(),
    )[i] == s2[i] by {
        assert(whole[s1.len() + i] == (s1 + s2)[s1.len() + i]);
    }
    assert(b.subrange(pos + s1.len(), pos + s1.len() + s2.len()) =~= s2);
}

pub open spec fn enc_u64(v: u64) -> Seq<u8> {
    le_bytes(v as int, 8)
}

pub open spec fn enc_u32(v: u32) -> Seq<u8> {
    le_bytes(v as int, 4)
}

pub open spec fn enc_i32(v: i32) -> Seq<u8> {
    le_bytes(v + 0x8000_0000, 4)
}

pub open spec fn enc_bool(v: bool) -> Seq<u8> {
    seq![if v { 1u8 } else { 0u8 }]
}

pub open spec fn enc_char(c: char) -> Seq<u8> {
    le_bytes(c as int, 4)
}

pub open spec fn dec_u64(b: Seq<u8>, pos: int) -> Option<(u64, int)> {
    if 0 <= pos && pos + 8 <= b.len() && 0 <= le_val(b, pos, 8) < 0x1_0000_0000_0000_0000 {
        Some((le_val(b, pos, 8) as u64, pos + 8))
    } else {
        None
    }
}

pub open spec fn dec_u32(b: Seq<u8>, pos: int) -> Option<(u32, int)> {
    if 0 <= pos && pos + 4 <= b.len() && 0 <= le_val(b, pos, 4) < 0x1_0000_0000 {
        Some((le_val(b, pos, 4) as u32, pos + 4))
    } else {
        None
    }
}

pub open spec fn dec_i32(b: Seq<u8>, pos: int) -> Option<(i32, int)> {
    if 0 <= pos && pos + 4 <= b.len() && 0 <= le_val(b, pos, 4) < 0x1_0000_0000 {
        Some(((le_val(b, pos, 4) - 0x8000_0000) as i32, pos + 4))
    } else {
        None
    }
}

pub open spec fn dec_bool(b: Seq<u8>, pos: int) -> Option<(bool, int)> {
    if 0 <= pos && pos + 1 <= b.len() && (b[pos] == 0 || b[pos] == 1) {
        Some((b[pos] == 1, pos + 1))
    } else {
        None
    }
}

/// Whether a code point is a Unicode scalar value, so a valid `char`.
pub open spec fn valid_scalar(v: int) -> bool {
    (0 <= v < 0xD800) || (0xE000 <= v <= 0x10FFFF)
}

pub open spec fn dec_char(b: Seq<u8>, pos: int) -> Option<(char, int)> {
    if 0 <= pos && pos + 4 <= b.len() && valid_scalar(le_val(b, pos, 4)) {
        Some((le_val(b, pos, 4) as char, pos + 4))
    } else {
        None
    }
}

proof fn lemma_le_val_bound(b: Seq<u8>, pos: int, n: nat)
    requires
        0 <= pos,
        pos + n <= b.len(),
    ensures
        0 <= le_val(b, pos, n) < pow256(n),
    decreases n,
{
    lemma_pow256_pos(n);
    if n > 0 {
        lemma_le_val_bound(b, pos + 1, (n - 1) as nat);
        assert(0 <= b[pos] < 256);
        assert(le_val(b, pos, n) < 256 * pow256((n - 1) as nat)) by (nonlinear_arith)
            requires
                le_val(b, pos, n) == b[pos] + 256 * le_val(b, pos + 1, (n - 1) as nat),
                0 <= b[pos] < 256,
                0 <= le_val(b, pos + 1, (n - 1) as nat) < pow256((n - 1) as nat),
        ;
    }
}

proof fn lemma_dec_enc_u64(b: Seq<u8>, pos: int, v: u64)
    requires
        0 <= pos,
        pos + 8 <= b.len(),
        b.subrange(pos, pos + 8) == enc_u64(v),
    ensures
        dec_u64(b, pos) == Some((v, pos + 8)),
{
    lemma_pow256_value();
    lemma_le_roundtrip(b, pos, v as int, 8);
}

proof fn lemma_dec_enc_u32(b: Seq<u8>, pos: int, v: u32)
    requires
        0 <= pos,
        pos + 4 <= b.len(),
        b.subrange(pos, pos + 4) == enc_u32(v),
    ensures
        dec_u32(b, pos) == Some((v, pos + 4)),
{
    assert(pow256(4) == 0x1_0000_0000) by {
        lemma_pow256_value();
    }
    lemma_le_roundtrip(b, pos, v as int, 4);
}

proof fn lemma_dec_enc_i32(b: Seq<u8>, pos: int, v: i32)
    requires
        0 <= pos,
        pos + 4 <= b.len(),
        b.subrange(pos, pos + 4) == enc_i32(v),
    ensures
        dec_i32(b, pos) == Some((v, pos + 4)),
{
    assert(pow256(4) == 0x1_0000_0000) by {
        lemma_pow256_value();
    }
    lemma_le_roundtrip(b, pos, v + 0x8000_0000, 4);
}

proof fn lemma_dec_enc_bool(b: Seq<u8>, pos: int, v: bool)
    requires
        0 <= pos,
        pos + 1 <= b.len(),
        b.subrange(pos, pos + 1) == enc_bool(v),
    ensures
        dec_bool(b, pos) == Some((v, pos + 1)),
{
    assert(b[pos] == b.subrange(pos, pos + 1)[0]);
}

proof fn lemma_dec_enc_char(b: Seq<u8>, pos: int, c: char)
    requires
        0 <= pos,
        pos + 4 <= b.len(),
        b.subrange(pos, pos + 4) == enc_char(c),
    ensures
        dec_char(b, pos) == Some((c, pos + 4)),
{
    assert(pow256(4) == 0x1_0000_0000) by {
        lemma_pow256_value();
    }
    assert(valid_scalar(c as int));
    lemma_le_roundtrip(b, pos, c as int, 4);
    assert((c as int) as char == c);
}

fn encode_u64(buf: &mut Vec<u8>, v: u64)
    ensures
        final(buf)@ == old(buf)@ + enc_u64(v),
{
    proof {
        lemma_pow256_value();
    }
    push_le(buf, v, 8);
}

fn encode_u32(buf: &mut Vec<u8>, v: u32)
    ensures
        final(buf)@ == old(buf)@ + enc_u32(v),
{
    proof {
        assert(pow256(4) == 0x1_0000_0000) by {
            lemma_pow256_value();
        }
    }
    push_le(buf, v as u64, 4);
}

fn encode_i32(buf: &mut Vec<u8>, v: i32)
    ensures
        final(buf)@ == old(buf)@ + enc_i32(v),
{
    proof {
        assert(pow256(4) == 0x1_0000_0000) by {
            lemma_pow256_value();
        }
    }
    let w: u64 = ((v as i64) + 0x8000_0000i64) as u64;
    push_le(buf, w, 4);
}

fn encode_bool(buf: &mut Vec<u8>, v: bool)
    ensures
        final(buf)@ == old(buf)@ + enc_bool(v),
{
    buf.push(if v {
        1
    } else {
        0
    });
    proof {
        assert(buf@ =~= old(buf)@ + enc_bool(v));
    }
}

fn encode_char(buf: &mut Vec<u8>, c: char)
    ensures
        final(buf)@ == old(buf)@ + enc_char(c),
{
    proof {
        assert(pow256(4) == 0x1_0000_0000) by {
            lemma_pow256_value();
        }
    }
    let w: u64 = (c as u32) as u64;
    push_le(buf, w, 4);
}

fn decode_u64(bytes: &Vec<u8>, pos: usize) -> (r: Option<(u64, usize)>)
    ensures
        match r {
            Some((v, p)) => dec_u64(bytes@, pos as int) == Some((v, p as int)) && p
                <= bytes@.len(),
            None => dec_u64(bytes@, pos as int) is None,
        },
{
    proof {
        if pos + 8 <= bytes@.len() {
            lemma_le_val_bound(bytes@, pos as int, 8);
            lemma_pow256_value();
        }
    }
    match read_le(bytes, pos, 8) {
        Some((v, p)) => Some((v, p)),
        None => None,
    }
}

fn decode_u32(bytes: &Vec<u8>, pos: usize) -> (r: Option<(u32, usize)>)
    ensures
        match r {
            Some((v, p)) => dec_u32(bytes@, pos as int) == Some((v, p as int)) && p
                <= bytes@.len(),
            None => dec_u32(bytes@, pos as int) is None,
        },
{
    proof {
        if pos + 4 <= bytes@.len() {
            lemma_le_val_bound(bytes@, pos as int, 4);
            assert(pow256(4) == 0x1_0000_0000) by {
                lemma_pow256_value();
            }
        }
    }
    match read_le(bytes, pos, 4) {
        Some((v, p)) => Some((v as u32, p)),
        None => None,
    }
}

fn decode_i32(bytes: &Vec<u8>, pos: usize) -> (r: Option<(i32, usize)>)
    ensures
        match r {
            Some((v, p)) => dec_i32(bytes@, pos as int) == Some((v, p as int)) && p
                <= bytes@.len(),
            None => dec_i32(bytes@, pos as int) is None,
        },
{
    proof {
        if pos + 4 <= bytes@.len() {
            lemma_le_val_bound(bytes@, pos as int, 4);
            assert(pow256(4) == 0x1_0000_0000) by {
                lemma_pow256_value();
            }
        }
    }
    match read_le(bytes, pos, 4) {
        Some((v, p)) => Some((((v as i64) - 0x8000_0000i64) as i32, p)),
        None => None,
    }
}

fn decode_bool(bytes: &Vec<u8>, pos: usize) -> (r: Option<(bool, usize)>)
    ensures
        match r {
            Some((v, p)) => dec_bool(bytes@, pos as int) == Some((v, p as int)) && p
                <= bytes@.len(),
            None => dec_bool(bytes@, pos as int) is None,
        },
{
    if pos >= bytes.len() {
        return None;
    }
    let b = bytes[pos];
    if b == 0 {
        Some((false, pos + 1))
    } else if b == 1 {
        Some((true, pos + 1))
    } else {
        None
    }
}

/// Relies on `char::from_u32` of std: `Some` exactly on Unicode scalar
/// values, returning the character with that code point.
#[verifier::external_body]
fn char_from_u32(v: u32) -> (r: Option<char>)
    ensures
        r matches Some(c) ==> c as int == v as int,
        r is Some <==> valid_scalar(v as int),
{
    char::from_u32(v)
}

fn decode_char(bytes: &Vec<u8>, pos: usize) -> (r: Option<(char, usize)>)
    ensures
        match r {
            Some((c, p)) => dec_char(bytes@, pos as int) == Some((c, p as int)) && p
                <= bytes@.len(),
            None => dec_char(bytes@, pos as int) is None,
        },
{
    proof {
        if pos + 4 <= bytes@.len() {
            lemma_le_val_bound(bytes@, pos as int, 4);
            assert(pow256(4) == 0x1_0000_0000) by {
                lemma_pow256_value();
            }
        }
    }
    match read_le(bytes, pos, 4) {
        Some((v, p)) => {
            let v32 = v as u32;
            match char_from_u32(v32) {
                Some(c) => {
                    proof {
                        assert((v as int) < 0x1_0000_0000);
                        assert(v32 as int == v as int);
                        assert(c as int == le_val(bytes@, pos as int, 4));
                        assert(le_val(bytes@, pos as int, 4) as char == c);
                    }
                    Some((c, p))
                },
                None => None,
            }
        },
        None => None,
    }
}

// ---------------------------------------------------------------------------
// Simple composite values
// ---------------------------------------------------------------------------
pub open spec fn enc_color(c: Color) -> Seq<u8> {
    seq![c.r, c.g, c.b]
}

pub open spec fn dec_color(b: Seq<u8>, pos: int) -> Option<(Color, int)> {
    if 0 <= pos && pos + 3 <= b.len() {
        Some((Color { r: b[pos], g: b[pos + 1], b: b[pos + 2] }, pos + 3))
    } else {
        None
    }
}

proof fn lemma_dec_enc_color(b: Seq<u8>, pos: int, c: Color)
    requires
        0 <= pos,
        pos + 3 <= b.len(),
        b.subrange(pos, pos + 3) == enc_color(c),
    ensures
        dec_color(b, pos) == Some((c, pos + 3)),
{
    assert(b[pos] == b.subrange(pos, pos + 3)[0]);
    assert(b[pos + 1] == b.subrange(pos, pos + 3)[1]);
    assert(b[pos + 2] == b.subrange(pos, pos + 3)[2]);
}

pub open spec fn death_tag(d: DeathCallback) -> u8 {
    match d {
        DeathCallback::Player => 0u8,
        DeathCallback::Monster => 1u8,
    }
}

pub open spec fn enc_death(d: DeathCallback) -> Seq<u8> {
    seq![death_tag(d)]
}

pub open spec fn dec_death(b: Seq<u8>, pos: int) -> Option<(DeathCallback, int)> {
    if 0 <= pos && pos + 1 <= b.len() && b[pos] <= 1 {
        Some(
            (
                if b[pos] == 0 {
                    DeathCallback::Player
                } else {
                    DeathCallback::Monster
                },
                pos + 1,
            ),
        )
    } else {
        None
    }
}

proof fn lemma_dec_enc_death(b: Seq<u8>, pos: int, d: DeathCallback)
    requires
        0 <= pos,
        pos + 1 <= b.len(),
        b.subrange(pos, pos + 1) == enc_death(d),
    ensures
        dec_death(b, pos) == Some((d, pos + 1)),
{
    assert(b[pos] == b.subrange(pos, pos + 1)[0]);
}

pub open spec fn item_tag(i: Item) -> u8 {
    match i {
        Item::Heal => 0u8,
        Item::Lightning => 1u8,
        Item::Confuse => 2u8,
        Item::Fireball => 3u8,
    }
}

pub open spec fn enc_item(i: Item) -> Seq<u8> {
    seq![item_tag(i)]
}

pub open spec fn dec_item(b: Seq<u8>, pos: int) -> Option<(Item, int)> {
    if 0 <= pos && pos + 1 <= b.len() && b[pos] <= 3 {
        Some(
            (
                if b[pos] == 0 {
                    Item::Heal
                } else if b[pos] == 1 {
                    Item::Lightning
                } else if b[pos] == 2 {
                    Item::Confuse
                } else {
                    Item::Fireball
                },
                pos + 1,
            ),
        )
    } else {
        None
    }
}

proof fn lemma_dec_enc_item(b: Seq<u8>, pos: int, i: Item)
    requires
        0 <= pos,
        pos + 1 <= b.len(),
        b.subrange(pos, pos + 1) == enc_item(i),
    ensures
        dec_item(b, pos) == Some((i, pos + 1)),
{
    assert(b[pos] == b.subrange(pos, pos + 1)[0]);
}

pub open spec fn enc_fighter(f: Fighter) -> Seq<u8> {
    enc_i32(f.max_hp) + enc_i32(f.hp) + enc_i32(f.defense) + enc_i32(f.power) + enc_i32(f.xp)
        + enc_death(f.on_death)
}

pub open spec fn dec_fighter(b: Seq<u8>, pos: int) -> Option<(Fighter, int)> {
    match dec_i32(b, pos) {
        None => None,
        Some((max_hp, p1)) => match dec_i32(b, p1) {
            None => None,
            Some((hp, p2)) => match dec_i32(b, p2) {
                None => None,
                Some((defense, p3)) => match dec_i32(b, p3) {
                    None => None,
                    Some((power, p4)) => match dec_i32(b, p4) {
                        None => None,
                        Some((xp, p5)) => match dec_death(b, p5) {
                            None => None,
                            Some((on_death, p6)) => Some(
                                (Fighter { max_hp, hp, defense, power, xp, on_death }, p6),
                            ),
                        },
                    },
                },
            },
        },
    }
}

proof fn lemma_le_bytes_len4(v: int)
    ensures
        le_bytes(v, 4).len() == 4,
        le_bytes(v, 8).len() == 8,
{
    lemma_le_bytes_len(v, 4);
    lemma_le_bytes_len(v, 8);
}

/// Peels the first `s1` off a byte range that holds `s1 + rest` and hands
/// back where `rest` stands.
proof fn lemma_peel(b: Seq<u8>, pos: int, s1: Seq<u8>, rest: Seq<u8>)
    requires
        0 <= pos,
        pos + s1.len() + rest.len() <= b.len(),
        b.subrange(pos, pos + s1.len() + rest.len()) == s1 + rest,
    ensures
        b.subrange(pos, pos + s1.len()) == s1,
        b.subrange(pos + s1.len(), pos + s1.len() + rest.len()) == rest,
{
    lemma_split(b, pos, s1, rest);
}

proof fn lemma_dec_enc_fighter(b: Seq<u8>, pos: int, f: Fighter)
    requires
        0 <= pos,
        pos + enc_fighter(f).len() <= b.len(),
        b.subrange(pos, pos + enc_fighter(f).len()) == enc_fighter(f),
    ensures
        dec_fighter(b, pos) == Some((f, pos + enc_fighter(f).len())),
        enc_fighter(f).len() == 21,
{
    lemma_le_bytes_len4(f.max_hp + 0x8000_0000);
    lemma_le_bytes_len4(f.hp + 0x8000_0000);
    lemma_le_bytes_len4(f.defense + 0x8000_0000);
    lemma_le_bytes_len4(f.power + 0x8000_0000);
    lemma_le_bytes_len4(f.xp + 0x8000_0000);
    let e1 = enc_i32(f.max_hp);
    let e2 = enc_i32(f.hp);
    let e3 = enc_i32(f.defense);
    let e4 = enc_i32(f.power);
    let e5 = enc_i32(f.xp);
    let e6 = enc_death(f.on_death);
    assert(enc_fighter(f) =~= e1 + (e2 + (e3 + (e4 + (e5 + e6)))));
    lemma_peel(b, pos, e1, e2 + (e3 + (e4 + (e5 + e6))));
    lemma_dec_enc_i32(b, pos, f.max_hp);
    lemma_peel(b, pos + 4, e2, e3 + (e4 + (e5 + e6)));
    lemma_dec_enc_i32(b, pos + 4, f.hp);
    lemma_peel(b, pos + 8, e3, e4 + (e5 + e6));
    lemma_dec_enc_i32(b, pos + 8, f.defense);
    lemma_peel(b, pos + 12, e4, e5 + e6);
    lemma_dec_enc_i32(b, pos + 12, f.power);
    lemma_peel(b, pos + 16, e5, e6);
    lemma_dec_enc_i32(b, pos + 16, f.xp);
    lemma_dec_enc_death(b, pos + 20, f.on_death);
}

pub open spec fn enc_opt_fighter(o: Option<Fighter>) -> Seq<u8> {
    match o {
        Option::None => seq![0u8],
        Option::Some(f) => seq![1u8] + enc_fighter(f),
    }
}

pub open spec fn dec_opt_fighter(b: Seq<u8>, pos: int) -> Option<(Option<Fighter>, int)> {
    if 0 <= pos && pos + 1 <= b.len() && b[pos] <= 1 {
        if b[pos] == 0 {
            Some((Option::None, pos + 1))
        } else {
            match dec_fighter(b, pos + 1) {
                None => None,
                Some((f, p2)) => Some((Option::Some(f), p2)),
            }
        }
    } else {
        None
    }
}

proof fn lemma_dec_enc_opt_fighter(b: Seq<u8>, pos: int, o: Option<Fighter>)
    requires
        0 <= pos,
        pos + enc_opt_fighter(o).len() <= b.len(),
        b.subrange(pos, pos + enc_opt_fighter(o).len()) == enc_opt_fighter(o),
    ensures
        dec_opt_fighter(b, pos) == Some((o, pos + enc_opt_fighter(o).len())),
{
    match o {
        Option::None => {
            assert(b[pos] == b.subrange(pos, pos + 1)[0]);
        },
        Option::Some(f) => {
            assert(enc_opt_fighter(o) =~= seq![1u8] + enc_fighter(f));
            lemma_peel(b, pos, seq![1u8], enc_fighter(f));
            assert(b[pos] == b.subrange(pos, pos + 1)[0]);
            lemma_dec_enc_fighter(b, pos + 1, f);
        },
    }
}

pub open spec fn enc_opt_item(o: Option<Item>) -> Seq<u8> {
    match o {
        Option::None => seq![0u8],
        Option::Some(i) => seq![1u8] + enc_item(i),
    }
}

pub open spec fn dec_opt_item(b: Seq<u8>, pos: int) -> Option<(Option<Item>, int)> {
    if 0 <= pos && pos + 1 <= b.len() && b[pos] <= 1 {
        if b[pos] == 0 {
            Some((Option::None, pos + 1))
        } else {
            match dec_item(b, pos + 1) {
                None => None,
                Some((i, p2)) => Some((Option::Some(i), p2)),
            }
        }
    } else {
        None
    }
}

proof fn lemma_dec_enc_opt_item(b: Seq<u8>, pos: int, o: Option<Item>)
    requires
        0 <= pos,
        pos + enc_opt_item(o).len() <= b.len(),
        b.subrange(pos, pos + enc_opt_item(o).len()) == enc_opt_item(o),
    ensures
        dec_opt_item(b, pos) == Some((o, pos + enc_opt_item(o).len())),
{
    match o {
        Option::None => {
            assert(b[pos] == b.subrange(pos, pos + 1)[0]);
        },
        Option::Some(i) => {
            assert(enc_opt_item(o) =~= seq![1u8] + enc_item(i));
            lemma_peel(b, pos, seq![1u8], enc_item(i));
            assert(b[pos] == b.subrange(pos, pos + 1)[0]);
            lemma_dec_enc_item(b, pos + 1, i);
        },
    }
}

/// The recursive AI block: a tag byte, then for a confusion wrapper the
/// saved behavior followed by the turn counter.
pub open spec fn enc_ai(a: Ai) -> Seq<u8>
    decreases a,
{
    match a {
        Ai::Basic => seq![0u8],
        Ai::Confused { previous_ai, num_turns } => seq![1u8] + enc_ai(*previous_ai) + enc_i32(
            num_turns,
        ),
    }
}

pub open spec fn dec_ai(b: Seq<u8>, pos: int) -> Option<(Ai, int)>
    decreases b.len() - pos,
{
    if 0 <= pos && pos + 1 <= b.len() && b[pos] <= 1 {
        if b[pos] == 0 {
            Some((Ai::Basic, pos + 1))
        } else {
            match dec_ai(b, pos + 1) {
                None => None,
                Some((prev, p2)) => match dec_i32(b, p2) {
                    None => None,
                    Some((t, p3)) => Some(
                        (Ai::Confused { previous_ai: Box::new(prev), num_turns: t }, p3),
                    ),
                },
            }
        }
    } else {
        None
    }
}

/// A successful parse always advances within the buffer.
proof fn lemma_dec_ai_range(b: Seq<u8>, pos: int)
    ensures
        dec_ai(b, pos) matches Some((a, p2)) ==> pos < p2 <= b.len(),
    decreases b.len() - pos,
{
    if 0 <= pos && pos + 1 <= b.len() && b[pos] == 1 {
        lemma_dec_ai_range(b, pos + 1);
    }
}

proof fn lemma_dec_enc_ai(b: Seq<u8>, pos: int, a: Ai)
    requires
        0 <= pos,
        pos + enc_ai(a).len() <= b.len(),
        b.subrange(pos, pos + enc_ai(a).len()) == enc_ai(a),
    ensures
        dec_ai(b, pos) == Some((a, pos + enc_ai(a).len())),
    decreases a,
{
    match a {
        Ai::Basic => {
            assert(b[pos] == b.subrange(pos, pos + 1)[0]);
        },
        Ai::Confused { previous_ai, num_turns } => {
            let ep = enc_ai(*previous_ai);
            let et = enc_i32(num_turns);
            lemma_le_bytes_len4(num_turns + 0x8000_0000);
            assert(enc_ai(a) =~= seq![1u8] + (ep + et));
            lemma_peel(b, pos, seq![1u8], ep + et);
            assert(b[pos] == b.subrange(pos, pos + 1)[0]);
            lemma_peel(b, pos + 1, ep, et);
            lemma_dec_enc_ai(b, pos + 1, *previous_ai);
            lemma_dec_enc_i32(b, pos + 1 + ep.len(), num_turns);
            assert(a == (Ai::Confused {
                previous_ai: Box::new(*previous_ai),
                num_turns,
            }));
        },
    }
}

pub open spec fn enc_opt_ai(o: Option<Ai>) -> Seq<u8> {
    match o {
        Option::None => seq![0u8],
        Option::Some(a) => seq![1u8] + enc_ai(a),
    }
}

pub open spec fn dec_opt_ai(b: Seq<u8>, pos: int) -> Option<(Option<Ai>, int)> {
    if 0 <= pos && pos + 1 <= b.len() && b[pos] <= 1 {
        if b[pos] == 0 {
            Some((Option::None, pos + 1))
        } else {
            match dec_ai(b, pos + 1) {
                None => None,
                Some((a, p2)) => Some((Option::Some(a), p2)),
            }
        }
    } else {
        None
    }
}

proof fn lemma_dec_enc_opt_ai(b: Seq<u8>, pos: int, o: Option<Ai>)
    requires
        0 <= pos,
        pos + enc_opt_ai(o).len() <= b.len(),
        b.subrange(pos, pos + enc_opt_ai(o).len()) == enc_opt_ai(o),
    ensures
        dec_opt_ai(b, pos) == Some((o, pos + enc_opt_ai(o).len())),
{
    match o {
        Option::None => {
            assert(b[pos] == b.subrange(pos, pos + 1)[0]);
        },
        Option::Some(a) => {
            assert(enc_opt_ai(o) =~= seq![1u8] + enc_ai(a));
            lemma_peel(b, pos, seq![1u8], enc_ai(a));
            assert(b[pos] == b.subrange(pos, pos + 1)[0]);
            lemma_dec_enc_ai(b, pos + 1, a);
        },
    }
}

pub open spec fn enc_tile(t: Tile) -> Seq<u8> {
    enc_bool(t.blocked) + enc_bool(t.block_sight) + enc_bool(t.explored)
}

pub open spec fn dec_tile(b: Seq<u8>, pos: int) -> Option<(Tile, int)> {
    match dec_bool(b, pos) {
        None => None,
        Some((blocked, p1)) => match dec_bool(b, p1) {
            None => None,
            Some((block_sight, p2)) => match dec_bool(b, p2) {
                None => None,
                Some((explored, p3)) => Some((Tile { blocked, block_sight, explored }, p3)),
            },
        },
    }
}

proof fn lemma_dec_enc_tile(b: Seq<u8>, pos: int, t: Tile)
    requires
        0 <= pos,
        pos + 3 <= b.len(),
        b.subrange(pos, pos + 3) == enc_tile(t),
    ensures
        dec_tile(b, pos) == Some((t, pos + 3)),
{
    let e1 = enc_bool(t.blocked);
    let e2 = enc_bool(t.block_sight);
    let e3 = enc_bool(t.explored);
    assert(enc_tile(t) =~= e1 + (e2 + e3));
    lemma_peel(b, pos, e1, e2 + e3);
    lemma_dec_enc_bool(b, pos, t.blocked);
    lemma_peel(b, pos + 1, e2, e3);
    lemma_dec_enc_bool(b, pos + 1, t.block_sight);
    lemma_dec_enc_bool(b, pos + 2, t.explored);
}

// ---------------------------------------------------------------------------
// Lists and strings
// ---------------------------------------------------------------------------
/// An 8-byte length prefix.
pub open spec fn enc_len(n: int) -> Seq<u8> {
    le_bytes(n, 8)
}

proof fn lemma_dec_enc_len(b: Seq<u8>, pos: int, n: int)
    requires
        0 <= pos,
        0 <= n < 0x1_0000_0000_0000_0000,
        pos + 8 <= b.len(),
        b.subrange(pos, pos + 8) == enc_len(n),
    ensures
        dec_u64(b, pos) == Some((n as u64, pos + 8)),
{
    lemma_pow256_value();
    lemma_le_roundtrip(b, pos, n, 8);
}

pub open spec fn enc_chars(s: Seq<char>) -> Seq<u8>
    decreases s.len(),
{
    if s.len() == 0 {
        Seq::empty()
    } else {
        enc_char(s[0]) + enc_chars(s.skip(1))
    }
}

pub open spec fn dec_chars(b: Seq<u8>, pos: int, n: nat) -> Option<(Seq<char>, int)>
    decreases n,
{
    if n == 0 {
        Some((Seq::empty(), pos))
    } else {
        match dec_char(b, pos) {
            None => None,
            Some((c, p1)) => match dec_chars(b, p1, (n - 1) as nat) {
                None => None,
                Some((rest, p2)) => Some((seq![c] + rest, p2)),
            },
        }
    }
}

proof fn lemma_enc_chars_len(s: Seq<char>)
    ensures
        enc_chars(s).len() == 4 * s.len(),
    decreases s.len(),
{
    if s.len() > 0 {
        lemma_le_bytes_len(s[0] as int, 4);
        lemma_enc_chars_len(s.skip(1));
    }
}

proof fn lemma_dec_enc_chars(b: Seq<u8>, pos: int, s: Seq<char>)
    requires
        0 <= pos,
        pos + enc_chars(s).len() <= b.len(),
        b.subrange(pos, pos + enc_chars(s).len()) == enc_chars(s),
    ensures
        dec_chars(b, pos, s.len()) == Some((s, pos + enc_chars(s).len())),
    decreases s.len(),
{
    if s.len() > 0 {
        lemma_le_bytes_len(s[0] as int, 4);
        lemma_enc_chars_len(s.skip(1));
        assert(enc_chars(s) =~= enc_char(s[0]) + enc_chars(s.skip(1)));
        lemma_peel(b, pos, enc_char(s[0]), enc_chars(s.skip(1)));
        lemma_dec_enc_char(b, pos, s[0]);
        lemma_dec_enc_chars(b, pos + 4, s.skip(1));
        assert(seq![s[0]] + s.skip(1) =~= s);
    }
}

/// A string: its character count, then each character.
pub open spec fn enc_string(s: Seq<char>) -> Seq<u8> {
    enc_len(s.len() as int) + enc_chars(s)
}

pub open spec fn dec_string(b: Seq<u8>, pos: int) -> Option<(Seq<char>, int)> {
    match dec_u64(b, pos) {
        None => None,
        Some((n, p1)) => dec_chars(b, p1, n as nat),
    }
}

proof fn lemma_dec_enc_string(b: Seq<u8>, pos: int, s: Seq<char>)
    requires
        0 <= pos,
        s.len() < 0x1_0000_0000_0000_0000,
        pos + enc_string(s).len() <= b.len(),
        b.subrange(pos, pos + enc_string(s).len()) == enc_string(s),
    ensures
        dec_string(b, pos) == Some((s, pos + enc_string(s).len())),
{
    lemma_le_bytes_len(s.len() as int, 8);
    lemma_enc_chars_len(s);
    assert(enc_string(s) =~= enc_len(s.len() as int) + enc_chars(s));
    lemma_peel(b, pos, enc_len(s.len() as int), enc_chars(s));
    lemma_dec_enc_len(b, pos, s.len() as int);
    lemma_dec_enc_chars(b, pos + 8, s);
}

pub open spec fn enc_tiles(s: Seq<Tile>) -> Seq<u8>
    decreases s.len(),
{
    if s.len() == 0 {
        Seq::empty()
    } else {
        enc_tile(s[0]) + enc_tiles(s.skip(1))
    }
}

pub open spec fn dec_tiles(b: Seq<u8>, pos: int, n: nat) -> Option<(Seq<Tile>, int)>
    decreases n,
{
    if n == 0 {
        Some((Seq::empty(), pos))
    } else {
        match dec_tile(b, pos) {
            None => None,
            Some((t, p1)) => match dec_tiles(b, p1, (n - 1) as nat) {
                None => None,
                Some((rest, p2)) => Some((seq![t] + rest, p2)),
            },
        }
    }
}

proof fn lemma_enc_tiles_len(s: Seq<Tile>)
    ensures
        enc_tiles(s).len() == 3 * s.len(),
    decreases s.len(),
{
    if s.len() > 0 {
        lemma_enc_tiles_len(s.skip(1));
    }
}

proof fn lemma_dec_enc_tiles(b: Seq<u8>, pos: int, s: Seq<Tile>)
    requires
        0 <= pos,
        pos + enc_tiles(s).len() <= b.len(),
        b.subrange(pos, pos + enc_tiles(s).len()) == enc_tiles(s),
    ensures
        dec_tiles(b, pos, s.len()) == Some((s, pos + enc_tiles(s).len())),
    decreases s.len(),
{
    if s.len() > 0 {
        lemma_enc_tiles_len(s.skip(1));
        assert(enc_tiles(s) =~= enc_tile(s[0]) + enc_tiles(s.skip(1)));
        lemma_peel(b, pos, enc_tile(s[0]), enc_tiles(s.skip(1)));
        lemma_dec_enc_tile(b, pos, s[0]);
        lemma_dec_enc_tiles(b, pos + 3, s.skip(1));
        assert(seq![s[0]] + s.skip(1) =~= s);
    }
}

/// One grid column: its cell count, then each cell.
pub open spec fn enc_col(c: Seq<Tile>) -> Seq<u8> {
    enc_len(c.len() as int) + enc_tiles(c)
}

pub open spec fn dec_col(b: Seq<u8>, pos: int) -> Option<(Seq<Tile>, int)> {
    match dec_u64(b, pos) {
        None => None,
        Some((n, p1)) => dec_tiles(b, p1, n as nat),
    }
}

proof fn lemma_dec_enc_col(b: Seq<u8>, pos: int, c: Seq<Tile>)
    requires
        0 <= pos,
        c.len() < 0x1_0000_0000_0000_0000,
        pos + enc_col(c).len() <= b.len(),
        b.subrange(pos, pos + enc_col(c).len()) == enc_col(c),
    ensures
        dec_col(b, pos) == Some((c, pos + enc_col(c).len())),
{
    lemma_le_bytes_len(c.len() as int, 8);
    lemma_enc_tiles_len(c);
    assert(enc_col(c) =~= enc_len(c.len() as int) + enc_tiles(c));
    lemma_peel(b, pos, enc_len(c.len() as int), enc_tiles(c));
    lemma_dec_enc_len(b, pos, c.len() as int);
    lemma_dec_enc_tiles(b, pos + 8, c);
}

pub open spec fn enc_cols(g: Seq<Seq<Tile>>) -> Seq<u8>
    decreases g.len(),
{
    if g.len() == 0 {
        Seq::empty()
    } else {
        enc_col(g[0]) + enc_cols(g.skip(1))
    }
}

pub open spec fn dec_cols(b: Seq<u8>, pos: int, n: nat) -> Option<(Seq<Seq<Tile>>, int)>
    decreases n,
{
    if n == 0 {
        Some((Seq::empty(), pos))
    } else {
        match dec_col(b, pos) {
            None => None,
            Some((c, p1)) => match dec_cols(b, p1, (n - 1) as nat) {
                None => None,
                Some((rest, p2)) => Some((seq![c] + rest, p2)),
            },
        }
    }
}

pub open spec fn grid_bounded(g: Seq<Seq<Tile>>) -> bool {
    &&& g.len() < 0x1_0000_0000_0000_0000
    &&& forall|i: int| 0 <= i < g.len() ==> (#[trigger] g[i]).len() < 0x1_0000_0000_0000_0000
}

proof fn lemma_dec_enc_cols(b: Seq<u8>, pos: int, g: Seq<Seq<Tile>>)
    requires
        0 <= pos,
        forall|i: int| 0 <= i < g.len() ==> (#[trigger] g[i]).len() < 0x1_0000_0000_0000_0000,
        pos + enc_cols(g).len() <= b.len(),
        b.subrange(pos, pos + enc_cols(g).len()) == enc_cols(g),
    ensures
        dec_cols(b, pos, g.len()) == Some((g, pos + enc_cols(g).len())),
    decreases g.len(),
{
    if g.len() > 0 {
        assert(enc_cols(g) =~= enc_col(g[0]) + enc_cols(g.skip(1)));
        lemma_peel(b, pos, enc_col(g[0]), enc_cols(g.skip(1)));
        lemma_dec_enc_col(b, pos, g[0]);
        assert(forall|i: int|
            0 <= i < g.skip(1).len() ==> (#[trigger] g.skip(1)[i]).len()
                < 0x1_0000_0000_0000_0000);
        lemma_dec_enc_cols(b, pos + enc_col(g[0]).len(), g.skip(1));
        assert(seq![g[0]] + g.skip(1) =~= g);
    }
}

/// The whole grid: its column count, then each column.
pub open spec fn enc_grid(g: Seq<Seq<Tile>>) -> Seq<u8> {
    enc_len(g.len() as int) + enc_cols(g)
}

pub open spec fn dec_grid(b: Seq<u8>, pos: int) -> Option<(Seq<Seq<Tile>>, int)> {
    match dec_u64(b, pos) {
        None => None,
        Some((n, p1)) => dec_cols(b, p1, n as nat),
    }
}

proof fn lemma_dec_enc_grid(b: Seq<u8>, pos: int, g: Seq<Seq<Tile>>)
    requires
        0 <= pos,
        grid_bounded(g),
        pos + enc_grid(g).len() <= b.len(),
        b.subrange(pos, pos + enc_grid(g).len()) == enc_grid(g),
    ensures
        dec_grid(b, pos) == Some((g, pos + enc_grid(g).len())),
{
    lemma_le_bytes_len(g.len() as int, 8);
    assert(enc_grid(g) =~= enc_len(g.len() as int) + enc_cols(g));
    lemma_peel(b, pos, enc_len(g.len() as int), enc_cols(g));
    lemma_dec_enc_len(b, pos, g.len() as int);
    lemma_dec_enc_cols(b, pos + 8, g);
}

/// One log entry: the text, then the color.
pub open spec fn enc_entry(e: (Seq<char>, Color)) -> Seq<u8> {
    enc_string(e.0) + enc_color(e.1)
}

pub open spec fn dec_entry(b: Seq<u8>, pos: int) -> Option<((Seq<char>, Color), int)> {
    match dec_string(b, pos) {
        None => None,
        Some((t, p1)) => match dec_color(b, p1) {
            None => None,
            Some((c, p2)) => Some(((t, c), p2)),
        },
    }
}

proof fn lemma_dec_enc_entry(b: Seq<u8>, pos: int, e: (Seq<char>, Color))
    requires
        0 <= pos,
        e.0.len() < 0x1_0000_0000_0000_0000,
        pos + enc_entry(e).len() <= b.len(),
        b.subrange(pos, pos + enc_entry(e).len()) == enc_entry(e),
    ensures
        dec_entry(b, pos) == Some((e, pos + enc_entry(e).len())),
{
    assert(enc_entry(e) =~= enc_string(e.0) + enc_color(e.1));
    lemma_peel(b, pos, enc_string(e.0), enc_color(e.1));
    lemma_dec_enc_string(b, pos, e.0);
    lemma_dec_enc_color(b, pos + enc_string(e.0).len(), e.1);
}

pub open spec fn enc_entries(s: Seq<(Seq<char>, Color)>) -> Seq<u8>
    decreases s.len(),
{
    if s.len() == 0 {
        Seq::empty()
    } else {
        enc_entry(s[0]) + enc_entries(s.skip(1))
    }
}

pub open spec fn dec_entries(b: Seq<u8>, pos: int, n: nat) -> Option<
    (Seq<(Seq<char>, Color)>, int),
>
    decreases n,
{
    if n == 0 {
        Some((Seq::empty(), pos))
    } else {
        match dec_entry(b, pos) {
            None => None,
            Some((e, p1)) => match dec_entries(b, p1, (n - 1) as nat) {
                None => None,
                Some((rest, p2)) => Some((seq![e] + rest, p2)),
            },
        }
    }
}

pub open spec fn log_bounded(s: Seq<(Seq<char>, Color)>) -> bool {
    &&& s.len() < 0x1_0000_0000_0000_0000
    &&& forall|i: int| 0 <= i < s.len() ==> (#[trigger] s[i]).0.len() < 0x1_0000_0000_0000_0000
}

proof fn lemma_dec_enc_entries(b: Seq<u8>, pos: int, s: Seq<(Seq<char>, Color)>)
    requires
        0 <= pos,
        forall|i: int| 0 <= i < s.len() ==> (#[trigger] s[i]).0.len() < 0x1_0000_0000_0000_0000,
        pos + enc_entries(s).len() <= b.len(),
        b.subrange(pos, pos + enc_entries(s).len()) == enc_entries(s),
    ensures
        dec_entries(b, pos, s.len()) == Some((s, pos + enc_entries(s).len())),
    decreases s.len(),
{
    if s.len() > 0 {
        assert(enc_entries(s) =~= enc_entry(s[0]) + enc_entries(s.skip(1)));
        lemma_peel(b, pos, enc_entry(s[0]), enc_entries(s.skip(1)));
        lemma_dec_enc_entry(b, pos, s[0]);
        assert(forall|i: int|
            0 <= i < s.skip(1).len() ==> (#[trigger] s.skip(1)[i]).0.len()
                < 0x1_0000_0000_0000_0000);
        lemma_dec_enc_entries(b, pos + enc_entry(s[0]).len(), s.skip(1));
        assert(seq![s[0]] + s.skip(1) =~= s);
    }
}

/// The message log: its entry count, then each entry.
pub open spec fn enc_log(s: Seq<(Seq<char>, Color)>) -> Seq<u8> {
    enc_len(s.len() as int) + enc_entries(s)
}

pub open spec fn dec_log(b: Seq<u8>, pos: int) -> Option<(Seq<(Seq<char>, Color)>, int)> {
    match dec_u64(b, pos) {
        None => None,
        Some((n, p1)) => dec_entries(b, p1, n as nat),
    }
}

proof fn lemma_dec_enc_log(b: Seq<u8>, pos: int, s: Seq<(Seq<char>, Color)>)
    requires
        0 <= pos,
        log_bounded(s),
        pos + enc_log(s).len() <= b.len(),
        b.subrange(pos, pos + enc_log(s).len()) == enc_log(s),
    ensures
        dec_log(b, pos) == Some((s, pos + enc_log(s).len())),
{
    lemma_le_bytes_len(s.len() as int, 8);
    assert(enc_log(s) =~= enc_len(s.len() as int) + enc_entries(s));
    lemma_peel(b, pos, enc_len(s.len() as int), enc_entries(s));
    lemma_dec_enc_len(b, pos, s.len() as int);
    lemma_dec_enc_entries(b, pos + 8, s);
}

// ---------------------------------------------------------------------------
// Entities, the session state, and the round trip
// ---------------------------------------------------------------------------
/// The mathematical shadow of an `Object`: every field as a plain value,
/// the display name as its character sequence.
pub struct ObjectModel {
    pub x: i32,
    pub y: i32,
    pub glyph: char,
    pub color: Color,
    pub name: Seq<char>,
    pub blocks: bool,
    pub alive: bool,
    pub always_visible: bool,
    pub level: i32,
    pub fighter: Option<Fighter>,
    pub ai: Option<Ai>,
    pub item: Option<Item>,
}

pub open spec fn obj_model(o: Object) -> ObjectModel {
    ObjectModel {
        x: o.x,
        y: o.y,
        glyph: o.glyph,
        color: o.color,
        name: o.name@,
        blocks: o.blocks,
        alive: o.alive,
        always_visible: o.always_visible,
        level: o.level,
        fighter: o.fighter,
        ai: o.ai,
        item: o.item,
    }
}

pub open spec fn obj_bounded(m: ObjectModel) -> bool {
    m.name.len() < 0x1_0000_0000_0000_0000
}

pub open spec fn enc_obj(m: ObjectModel) -> Seq<u8> {
    enc_i32(m.x) + enc_i32(m.y) + enc_char(m.glyph) + enc_color(m.color) + enc_string(m.name)
        + enc_bool(m.blocks) + enc_bool(m.alive) + enc_bool(m.always_visible) + enc_i32(m.level)
        + enc_opt_fighter(m.fighter) + enc_opt_ai(m.ai) + enc_opt_item(m.item)
}

pub open spec fn dec_obj(b: Seq<u8>, pos: int) -> Option<(ObjectModel, int)> {
    match dec_i32(b, pos) {
        None => None,
        Some((x, p1)) => match dec_i32(b, p1) {
            None => None,
            Some((y, p2)) => match dec_char(b, p2) {
                None => None,
                Some((glyph, p3)) => match dec_color(b, p3) {
                    None => None,
                    Some((color, p4)) => match dec_string(b, p4) {
                        None => None,
                        Some((name, p5)) => match dec_bool(b, p5) {
                            None => None,
                            Some((blocks, p6)) => match dec_bool(b, p6) {
                                None => None,
                                Some((alive, p7)) => match dec_bool(b, p7) {
                                    None => None,
                                    Some((always_visible, p8)) => match dec_i32(b, p8) {
                                        None => None,
                                        Some((level, p9)) => match dec_opt_fighter(b, p9) {
                                            None => None,
                                            Some((fighter, p10)) => match dec_opt_ai(b, p10) {
                                                None => None,
                                                Some((ai, p11)) => match dec_opt_item(b, p11) {
                                                    None => None,
                                                    Some((item, p12)) => Some(
                                                        (
                                                            ObjectModel {
                                                                x,
                                                                y,
                                                                glyph,
                                                                color,
                                                                name,
                                                                blocks,
                                                                alive,
                                                                always_visible,
                                                                level,
                                                                fighter,
                                                                ai,
                                                                item,
                                                            },
                                                            p12,
                                                        ),
                                                    ),
                                                },
                                            },
                                        },
                                    },
                                },
                            },
                        },
                    },
                },
            },
        },
    }
}

proof fn lemma_dec_enc_obj_head(b: Seq<u8>, pos: int, m: ObjectModel)
    requires
        0 <= pos,
        obj_bounded(m),
        pos + (enc_i32(m.x) + (enc_i32(m.y) + (enc_char(m.glyph) + (enc_color(m.color) + (
        enc_string(m.name) + enc_bool(m.blocks)))))).len() <= b.len(),
        b.subrange(
            pos,
            pos + (enc_i32(m.x) + (enc_i32(m.y) + (enc_char(m.glyph) + (enc_color(m.color) + (
            enc_string(m.name) + enc_bool(m.blocks)))))).len(),
        ) == enc_i32(m.x) + (enc_i32(m.y) + (enc_char(m.glyph) + (enc_color(m.color) + (
        enc_string(m.name) + enc_bool(m.blocks))))),
    ensures
        dec_i32(b, pos) == Some((m.x, pos + 4)),
        dec_i32(b, pos + 4) == Some((m.y, pos + 8)),
        dec_char(b, pos + 8) == Some((m.glyph, pos + 12)),
        dec_color(b, pos + 12) == Some((m.color, pos + 15)),
        dec_string(b, pos + 15) == Some((m.name, pos + 15 + enc_string(m.name).len())),
        dec_bool(b, pos + 15 + enc_string(m.name).len()) == Some(
            (m.blocks, pos + 16 + enc_string(m.name).len()),
        ),
        (enc_i32(m.x) + (enc_i32(m.y) + (enc_char(m.glyph) + (enc_color(m.color) + (enc_string(
            m.name,
        ) + enc_bool(m.blocks)))))).len() == 16 + enc_string(m.name).len(),
{
    let e1 = enc_i32(m.x);
    let e2 = enc_i32(m.y);
    let e3 = enc_char(m.glyph);
    let e4 = enc_color(m.color);
    let e5 = enc_string(m.name);
    let e6 = enc_bool(m.blocks);
    lemma_le_bytes_len4(m.x + 0x8000_0000);
    lemma_le_bytes_len4(m.y + 0x8000_0000);
    lemma_le_bytes_len4(m.glyph as int);
    lemma_le_bytes_len(m.name.len() as int, 8);
    lemma_enc_chars_len(m.name);
    let p1 = pos + e1.len();
    lemma_peel(b, pos, e1, e2 + (e3 + (e4 + (e5 + e6))));
    lemma_dec_enc_i32(b, pos, m.x);
    let p2 = p1 + e2.len();
    lemma_peel(b, p1, e2, e3 + (e4 + (e5 + e6)));
    lemma_dec_enc_i32(b, p1, m.y);
    let p3 = p2 + e3.len();
    lemma_peel(b, p2, e3, e4 + (e5 + e6));
    lemma_dec_enc_char(b, p2, m.glyph);
    let p4 = p3 + e4.len();
    lemma_peel(b, p3, e4, e5 + e6);
    lemma_dec_enc_color(b, p3, m.color);
    let p5 = p4 + e5.len();
    lemma_peel(b, p4, e5, e6);
    lemma_dec_enc_string(b, p4, m.name);
    lemma_dec_enc_bool(b, p5, m.blocks);
}

proof fn lemma_dec_enc_obj_tail(b: Seq<u8>, q0: int, m: ObjectModel)
    requires
        0 <= q0,
        q0 + (enc_bool(m.alive) + (enc_bool(m.always_visible) + (enc_i32(m.level) + (
        enc_opt_fighter(m.fighter) + (enc_opt_ai(m.ai) + enc_opt_item(m.item)))))).len()
            <= b.len(),
        b.subrange(
            q0,
            q0 + (enc_bool(m.alive) + (enc_bool(m.always_visible) + (enc_i32(m.level) + (
            enc_opt_fighter(m.fighter) + (enc_opt_ai(m.ai) + enc_opt_item(m.item)))))).len(),
        ) == enc_bool(m.alive) + (enc_bool(m.always_visible) + (enc_i32(m.level) + (
        enc_opt_fighter(m.fighter) + (enc_opt_ai(m.ai) + enc_opt_item(m.item))))),
    ensures
        dec_bool(b, q0) == Some((m.alive, q0 + 1)),
        dec_bool(b, q0 + 1) == Some((m.always_visible, q0 + 2)),
        dec_i32(b, q0 + 2) == Some((m.level, q0 + 6)),
        dec_opt_fighter(b, q0 + 6) == Some(
            (m.fighter, q0 + 6 + enc_opt_fighter(m.fighter).len()),
        ),
        dec_opt_ai(b, q0 + 6 + enc_opt_fighter(m.fighter).len()) == Some(
            (m.ai, q0 + 6 + enc_opt_fighter(m.fighter).len() + enc_opt_ai(m.ai).len()),
        ),
        dec_opt_item(
            b,
            q0 + 6 + enc_opt_fighter(m.fighter).len() + enc_opt_ai(m.ai).len(),
        ) == Some(
            (
                m.item,
                q0 + 6 + enc_opt_fighter(m.fighter).len() + enc_opt_ai(m.ai).len() + enc_opt_item(
                    m.item,
                ).len(),
            ),
        ),
        (enc_bool(m.alive) + (enc_bool(m.always_visible) + (enc_i32(m.level) + (enc_opt_fighter(
            m.fighter,
        ) + (enc_opt_ai(m.ai) + enc_opt_item(m.item)))))).len() == 6 + enc_opt_fighter(
            m.fighter,
        ).len() + enc_opt_ai(m.ai).len() + enc_opt_item(m.item).len(),
{
    let e7 = enc_bool(m.alive);
    let e8 = enc_bool(m.always_visible);
    let e9 = enc_i32(m.level);
    let e10 = enc_opt_fighter(m.fighter);
    let e11 = enc_opt_ai(m.ai);
    let e12 = enc_opt_item(m.item);
    lemma_le_bytes_len4(m.level + 0x8000_0000);
    let q1 = q0 + e7.len();
    lemma_peel(b, q0, e7, e8 + (e9 + (e10 + (e11 + e12))));
    lemma_dec_enc_bool(b, q0, m.alive);
    let q2 = q1 + e8.len();
    lemma_peel(b, q1, e8, e9 + (e10 + (e11 + e12)));
    lemma_dec_enc_bool(b, q1, m.always_visible);
    let q3 = q2 + e9.len();
    lemma_peel(b, q2, e9, e10 + (e11 + e12));
    lemma_dec_enc_i32(b, q2, m.level);
    let q4 = q3 + e10.len();
    lemma_peel(b, q3, e10, e11 + e12);
    lemma_dec_enc_opt_fighter(b, q3, m.fighter);
    let q5 = q4 + e11.len();
    lemma_peel(b, q4, e11, e12);
    lemma_dec_enc_opt_ai(b, q4, m.ai);
    lemma_dec_enc_opt_item(b, q5, m.item);
}

#[verifier::rlimit(100)]
proof fn lemma_dec_enc_obj(b: Seq<u8>, pos: int, m: ObjectModel)
    requires
        0 <= pos,
        obj_bounded(m),
        pos + enc_obj(m).len() <= b.len(),
        b.subrange(pos, pos + enc_obj(m).len()) == enc_obj(m),
    ensures
        dec_obj(b, pos) == Some((m, pos + enc_obj(m).len())),
{
    let hh = enc_i32(m.x) + (enc_i32(m.y) + (enc_char(m.glyph) + (enc_color(m.color) + (
    enc_string(m.name) + enc_bool(m.blocks)))));
    let tt = enc_bool(m.alive) + (enc_bool(m.always_visible) + (enc_i32(m.level) + (
    enc_opt_fighter(m.fighter) + (enc_opt_ai(m.ai) + enc_opt_item(m.item)))));
    assert(enc_obj(m) =~= hh + tt);
    lemma_peel(b, pos, hh, tt);
    lemma_dec_enc_obj_head(b, pos, m);
    lemma_dec_enc_obj_tail(b, pos + hh.len(), m);
}

pub open spec fn enc_objs(s: Seq<ObjectModel>) -> Seq<u8>
    decreases s.len(),
{
    if s.len() == 0 {
        Seq::empty()
    } else {
        enc_obj(s[0]) + enc_objs(s.skip(1))
    }
}

pub open spec fn dec_objs(b: Seq<u8>, pos: int, n: nat) -> Option<(Seq<ObjectModel>, int)>
    decreases n,
{
    if n == 0 {
        Some((Seq::empty(), pos))
    } else {
        match dec_obj(b, pos) {
            None => None,
            Some((m, p1)) => match dec_objs(b, p1, (n - 1) as nat) {
                None => None,
                Some((rest, p2)) => Some((seq![m] + rest, p2)),
            },
        }
    }
}

pub open spec fn objs_bounded(s: Seq<ObjectModel>) -> bool {
    &&& s.len() < 0x1_0000_0000_0000_0000
    &&& forall|i: int| 0 <= i < s.len() ==> obj_bounded(#[trigger] s[i])
}

proof fn lemma_dec_enc_objs(b: Seq<u8>, pos: int, s: Seq<ObjectModel>)
    requires
        0 <= pos,
        forall|i: int| 0 <= i < s.len() ==> obj_bounded(#[trigger] s[i]),
        pos + enc_objs(s).len() <= b.len(),
        b.subrange(pos, pos + enc_objs(s).len()) == enc_objs(s),
    ensures
        dec_objs(b, pos, s.len()) == Some((s, pos + enc_objs(s).len())),
    decreases s.len(),
{
    if s.len() > 0 {
        assert(enc_objs(s) =~= enc_obj(s[0]) + enc_objs(s.skip(1)));
        lemma_peel(b, pos, enc_obj(s[0]), enc_objs(s.skip(1)));
        lemma_dec_enc_obj(b, pos, s[0]);
        assert(forall|i: int| 0 <= i < s.skip(1).len() ==> obj_bounded(#[trigger] s.skip(1)[i]));
        lemma_dec_enc_objs(b, pos + enc_obj(s[0]).len(), s.skip(1));
        assert(seq![s[0]] + s.skip(1) =~= s);
    }
}

/// The mathematical shadow of the session state.
pub struct GameModel {
    pub map: Seq<Seq<Tile>>,
    pub log: Seq<(Seq<char>, Color)>,
    pub inventory: Seq<ObjectModel>,
    pub dungeon_level: u32,
}

pub open spec fn game_model(g: Game) -> GameModel {
    GameModel {
        map: g.map@.map_values(|c: Vec<Tile>| c@),
        log: g.log@.map_values(|e: (String, Color)| (e.0@, e.1)),
        inventory: g.inventory@.map_values(|o: Object| obj_model(o)),
        dungeon_level: g.dungeon_level,
    }
}

pub open spec fn game_bounded(m: GameModel) -> bool {
    &&& grid_bounded(m.map)
    &&& log_bounded(m.log)
    &&& objs_bounded(m.inventory)
}

pub open spec fn enc_game(m: GameModel) -> Seq<u8> {
    enc_grid(m.map) + enc_log(m.log) + enc_len(m.inventory.len() as int) + enc_objs(m.inventory)
        + enc_u32(m.dungeon_level)
}

pub open spec fn dec_game(b: Seq<u8>, pos: int) -> Option<(GameModel, int)> {
    match dec_grid(b, pos) {
        None => None,
        Some((map, p1)) => match dec_log(b, p1) {
            None => None,
            Some((log, p2)) => match dec_u64(b, p2) {
                None => None,
                Some((n, p3)) => match dec_objs(b, p3, n as nat) {
                    None => None,
                    Some((inventory, p4)) => match dec_u32(b, p4) {
                        None => None,
                        Some((dungeon_level, p5)) => Some(
                            (GameModel { map, log, inventory, dungeon_level }, p5),
                        ),
                    },
                },
            },
        },
    }
}

proof fn lemma_dec_enc_game(b: Seq<u8>, pos: int, m: GameModel)
    requires
        0 <= pos,
        game_bounded(m),
        pos + enc_game(m).len() <= b.len(),
        b.subrange(pos, pos + enc_game(m).len()) == enc_game(m),
    ensures
        dec_game(b, pos) == Some((m, pos + enc_game(m).len())),
{
    let e1 = enc_grid(m.map);
    let e2 = enc_log(m.log);
    let e3 = enc_len(m.inventory.len() as int);
    let e4 = enc_objs(m.inventory);
    let e5 = enc_u32(m.dungeon_level);
    lemma_le_bytes_len(m.inventory.len() as int, 8);
    lemma_le_bytes_len4(m.dungeon_level as int);
    assert(enc_game(m) =~= e1 + (e2 + (e3 + (e4 + e5))));
    let p1 = pos + e1.len();
    lemma_peel(b, pos, e1, e2 + (e3 + (e4 + e5)));
    lemma_dec_enc_grid(b, pos, m.map);
    let p2 = p1 + e2.len();
    lemma_peel(b, p1, e2, e3 + (e4 + e5));
    lemma_dec_enc_log(b, p1, m.log);
    let p3 = p2 + e3.len();
    lemma_peel(b, p2, e3, e4 + e5);
    lemma_dec_enc_len(b, p2, m.inventory.len() as int);
    let p4 = p3 + e4.len();
    lemma_peel(b, p3, e4, e5);
    lemma_dec_enc_objs(b, p3, m.inventory);
    lemma_dec_enc_u32(b, p4, m.dungeon_level);
}

/// The whole persisted document: the world collection, then the session.
pub struct StateModel {
    pub objects: Seq<ObjectModel>,
    pub game: GameModel,
}

pub open spec fn state_model(objects: Seq<Object>, game: Game) -> StateModel {
    StateModel {
        objects: objects.map_values(|o: Object| obj_model(o)),
        game: game_model(game),
    }
}

pub open spec fn state_bounded(m: StateModel) -> bool {
    &&& objs_bounded(m.objects)
    &&& game_bounded(m.game)
}

pub open spec fn enc_state(m: StateModel) -> Seq<u8> {
    enc_len(m.objects.len() as int) + enc_objs(m.objects) + enc_game(m.game)
}

pub open spec fn dec_state(b: Seq<u8>, pos: int) -> Option<(StateModel, int)> {
    match dec_u64(b, pos) {
        None => None,
        Some((n, p1)) => match dec_objs(b, p1, n as nat) {
            None => None,
            Some((objects, p2)) => match dec_game(b, p2) {
                None => None,
                Some((game, p3)) => Some((StateModel { objects, game }, p3)),
            },
        },
    }
}

/// The save format round-trips: decoding an encoded state yields exactly
/// that state, for every state the engine can hold.
pub proof fn lemma_save_roundtrip(m: StateModel)
    requires
        state_bounded(m),
    ensures
        dec_state(enc_state(m), 0) == Some((m, enc_state(m).len() as int)),
{
    let b = enc_state(m);
    let e1 = enc_len(m.objects.len() as int);
    let e2 = enc_objs(m.objects);
    let e3 = enc_game(m.game);
    lemma_le_bytes_len(m.objects.len() as int, 8);
    assert(b =~= e1 + (e2 + e3));
    assert(b.subrange(0, b.len() as int) =~= b);
    lemma_peel(b, 0, e1, e2 + e3);
    lemma_dec_enc_len(b, 0, m.objects.len() as int);
    lemma_peel(b, e1.len() as int, e2, e3);
    lemma_dec_enc_objs(b, 8, m.objects);
    lemma_dec_enc_game(b, 8 + e2.len() as int, m.game);
}

// ---------------------------------------------------------------------------
// Executable encoders
// ---------------------------------------------------------------------------
proof fn lemma_enc_chars_push(u: Seq<char>, c: char)
    ensures
        enc_chars(u.push(c)) == enc_chars(u) + enc_char(c),
    decreases u.len(),
{
    if u.len() == 0 {
        assert(u.push(c) =~= seq![c]);
        assert(enc_chars(u.push(c)) == enc_char(u.push(c)[0]) + enc_chars(
            u.push(c).skip(1),
        ));
        assert(u.push(c)[0] == c);
        assert(u.push(c).skip(1) =~= Seq::<char>::empty());
        assert(enc_chars(Seq::<char>::empty()) == Seq::<u8>::empty());
        assert(enc_chars(u) == Seq::<u8>::empty());
        assert(enc_chars(u.push(c)) =~= enc_chars(u) + enc_char(c));
    } else {
        assert(enc_chars(u.push(c)) == enc_char(u.push(c)[0]) + enc_chars(
            u.push(c).skip(1),
        ));
        assert(u.push(c)[0] == u[0]);
        assert(u.push(c).skip(1) =~= u.skip(1).push(c));
        lemma_enc_chars_push(u.skip(1), c);
        assert(enc_chars(u) == enc_char(u[0]) + enc_chars(u.skip(1)));
        assert(enc_chars(u.push(c)) =~= enc_chars(u) + enc_char(c));
    }
}

proof fn lemma_enc_tiles_push(u: Seq<Tile>, t: Tile)
    ensures
        enc_tiles(u.push(t)) == enc_tiles(u) + enc_tile(t),
    decreases u.len(),
{
    if u.len() == 0 {
        assert(u.push(t) =~= seq![t]);
        assert(enc_tiles(u.push(t)) == enc_tile(u.push(t)[0]) + enc_tiles(
            u.push(t).skip(1),
        ));
        assert(u.push(t)[0] == t);
        assert(u.push(t).skip(1) =~= Seq::<Tile>::empty());
        assert(enc_tiles(Seq::<Tile>::empty()) == Seq::<u8>::empty());
        assert(enc_tiles(u) == Seq::<u8>::empty());
        assert(enc_tiles(u.push(t)) =~= enc_tiles(u) + enc_tile(t));
    } else {
        assert(enc_tiles(u.push(t)) == enc_tile(u.push(t)[0]) + enc_tiles(
            u.push(t).skip(1),
        ));
        assert(u.push(t)[0] == u[0]);
        assert(u.push(t).skip(1) =~= u.skip(1).push(t));
        lemma_enc_tiles_push(u.skip(1), t);
        assert(enc_tiles(u) == enc_tile(u[0]) + enc_tiles(u.skip(1)));
        assert(enc_tiles(u.push(t)) =~= enc_tiles(u) + enc_tile(t));
    }
}

proof fn lemma_enc_cols_push(u: Seq<Seq<Tile>>, c: Seq<Tile>)
    ensures
        enc_cols(u.push(c)) == enc_cols(u) + enc_col(c),
    decreases u.len(),
{
    if u.len() == 0 {
        assert(u.push(c) =~= seq![c]);
        assert(enc_cols(u.push(c)) == enc_col(u.push(c)[0]) + enc_cols(
            u.push(c).skip(1),
        ));
        assert(u.push(c)[0] == c);
        assert(u.push(c).skip(1) =~= Seq::<Seq<Tile>>::empty());
        assert(enc_cols(Seq::<Seq<Tile>>::empty()) == Seq::<u8>::empty());
        assert(enc_cols(u) == Seq::<u8>::empty());
        assert(enc_cols(u.push(c)) =~= enc_cols(u) + enc_col(c));
    } else {
        assert(enc_cols(u.push(c)) == enc_col(u.push(c)[0]) + enc_cols(
            u.push(c).skip(1),
        ));
        assert(u.push(c)[0] == u[0]);
        assert(u.push(c).skip(1) =~= u.skip(1).push(c));
        lemma_enc_cols_push(u.skip(1), c);
        assert(enc_cols(u) == enc_col(u[0]) + enc_cols(u.skip(1)));
        assert(enc_cols(u.push(c)) =~= enc_cols(u) + enc_col(c));
    }
}

proof fn lemma_enc_entries_push(u: Seq<(Seq<char>, Color)>, e: (Seq<char>, Color))
    ensures
        enc_entries(u.push(e)) == enc_entries(u) + enc_entry(e),
    decreases u.len(),
{
    if u.len() == 0 {
        assert(u.push(e) =~= seq![e]);
        assert(enc_entries(u.push(e)) == enc_entry(u.push(e)[0]) + enc_entries(
            u.push(e).skip(1),
        ));
        assert(u.push(e)[0] == e);
        assert(u.push(e).skip(1) =~= Seq::<(Seq<char>, Color)>::empty());
        assert(enc_entries(Seq::<(Seq<char>, Color)>::empty()) == Seq::<u8>::empty());
        assert(enc_entries(u) == Seq::<u8>::empty());
        assert(enc_entries(u.push(e)) =~= enc_entries(u) + enc_entry(e));
    } else {
        assert(enc_entries(u.push(e)) == enc_entry(u.push(e)[0]) + enc_entries(
            u.push(e).skip(1),
        ));
        assert(u.push(e)[0] == u[0]);
        assert(u.push(e).skip(1) =~= u.skip(1).push(e));
        lemma_enc_entries_push(u.skip(1), e);
        assert(enc_entries(u) == enc_entry(u[0]) + enc_entries(u.skip(1)));
        assert(enc_entries(u.push(e)) =~= enc_entries(u) + enc_entry(e));
    }
}

proof fn lemma_enc_objs_push(u: Seq<ObjectModel>, m: ObjectModel)
    ensures
        enc_objs(u.push(m)) == enc_objs(u) + enc_obj(m),
    decreases u.len(),
{
    if u.len() == 0 {
        assert(u.push(m) =~= seq![m]);
        assert(enc_objs(u.push(m)) == enc_obj(u.push(m)[0]) + enc_objs(
            u.push(m).skip(1),
        ));
        assert(u.push(m)[0] == m);
        assert(u.push(m).skip(1) =~= Seq::<ObjectModel>::empty());
        assert(enc_objs(Seq::<ObjectModel>::empty()) == Seq::<u8>::empty());
        assert(enc_objs(u) == Seq::<u8>::empty());
        assert(enc_objs(u.push(m)) =~= enc_objs(u) + enc_obj(m));
    } else {
        assert(enc_objs(u.push(m)) == enc_obj(u.push(m)[0]) + enc_objs(
            u.push(m).skip(1),
        ));
        assert(u.push(m)[0] == u[0]);
        assert(u.push(m).skip(1) =~= u.skip(1).push(m));
        lemma_enc_objs_push(u.skip(1), m);
        assert(enc_objs(u) == enc_obj(u[0]) + enc_objs(u.skip(1)));
        assert(enc_objs(u.push(m)) =~= enc_objs(u) + enc_obj(m));
    }
}

fn encode_color(buf: &mut Vec<u8>, c: Color)
    ensures
        final(buf)@ == old(buf)@ + enc_color(c),
{
    buf.push(c.r);
    buf.push(c.g);
    buf.push(c.b);
    proof {
        assert(buf@ =~= old(buf)@ + enc_color(c));
    }
}

fn encode_death(buf: &mut Vec<u8>, d: DeathCallback)
    ensures
        final(buf)@ == old(buf)@ + enc_death(d),
{
    buf.push(
        match d {
            DeathCallback::Player => 0,
            DeathCallback::Monster => 1,
        },
    );
    proof {
        assert(buf@ =~= old(buf)@ + enc_death(d));
    }
}

fn encode_item(buf: &mut Vec<u8>, i: Item)
    ensures
        final(buf)@ == old(buf)@ + enc_item(i),
{
    buf.push(
        match i {
            Item::Heal => 0,
            Item::Lightning => 1,
            Item::Confuse => 2,
            Item::Fireball => 3,
        },
    );
    proof {
        assert(buf@ =~= old(buf)@ + enc_item(i));
    }
}

fn encode_fighter(buf: &mut Vec<u8>, f: Fighter)
    ensures
        final(buf)@ == old(buf)@ + enc_fighter(f),
{
    encode_i32(buf, f.max_hp);
    encode_i32(buf, f.hp);
    encode_i32(buf, f.defense);
    encode_i32(buf, f.power);
    encode_i32(buf, f.xp);
    encode_death(buf, f.on_death);
    proof {
        assert(buf@ =~= old(buf)@ + enc_fighter(f));
    }
}

fn encode_opt_fighter(buf: &mut Vec<u8>, o: Option<Fighter>)
    ensures
        final(buf)@ == old(buf)@ + enc_opt_fighter(o),
{
    match o {
        None => {
            buf.push(0);
            proof {
                assert(buf@ =~= old(buf)@ + enc_opt_fighter(o));
            }
        },
        Some(f) => {
            buf.push(1);
            encode_fighter(buf, f);
            proof {
                assert(buf@ =~= old(buf)@ + enc_opt_fighter(o));
            }
        },
    }
}

fn encode_ai(buf: &mut Vec<u8>, a: &Ai)
    ensures
        final(buf)@ == old(buf)@ + enc_ai(*a),
    decreases *a,
{
    match a {
        Ai::Basic => {
            buf.push(0);
            proof {
                assert(buf@ =~= old(buf)@ + enc_ai(*a));
            }
        },
        Ai::Confused { previous_ai, num_turns } => {
            buf.push(1);
            encode_ai(buf, previous_ai);
            encode_i32(buf, *num_turns);
            proof {
                assert(buf@ =~= old(buf)@ + enc_ai(*a));
            }
        },
    }
}

fn encode_opt_ai(buf: &mut Vec<u8>, o: &Option<Ai>)
    ensures
        final(buf)@ == old(buf)@ + enc_opt_ai(*o),
{
    match o {
        None => {
            buf.push(0);
            proof {
                assert(buf@ =~= old(buf)@ + enc_opt_ai(*o));
            }
        },
        Some(a) => {
            buf.push(1);
            encode_ai(buf, a);
            proof {
                assert(buf@ =~= old(buf)@ + enc_opt_ai(*o));
            }
        },
    }
}

fn encode_opt_item(buf: &mut Vec<u8>, o: Option<Item>)
    ensures
        final(buf)@ == old(buf)@ + enc_opt_item(o),
{
    match o {
        None => {
            buf.push(0);
            proof {
                assert(buf@ =~= old(buf)@ + enc_opt_item(o));
            }
        },
        Some(i) => {
            buf.push(1);
            encode_item(buf, i);
            proof {
                assert(buf@ =~= old(buf)@ + enc_opt_item(o));
            }
        },
    }
}

fn encode_string(buf: &mut Vec<u8>, s: &String)
    ensures
        final(buf)@ == old(buf)@ + enc_string(s@),
{
    let n = s.as_str().unicode_len();
    encode_u64(buf, n as u64);
    let mut i: usize = 0;
    while i < n
        invariant
            n == s@.len(),
            i <= n,
            buf@ == old(buf)@ + enc_len(s@.len() as int) + enc_chars(s@.take(i as int)),
        decreases n - i,
    {
        let c = s.as_str().get_char(i);
        proof {
            lemma_enc_chars_push(s@.take(i as int), s@[i as int]);
            assert(s@.take(i as int).push(s@[i as int]) =~= s@.take(i + 1));
        }
        encode_char(buf, c);
        i += 1;
    }
    proof {
        assert(s@.take(n as int) =~= s@);
        assert(buf@ =~= old(buf)@ + enc_string(s@));
    }
}

fn encode_tile(buf: &mut Vec<u8>, t: Tile)
    ensures
        final(buf)@ == old(buf)@ + enc_tile(t),
{
    encode_bool(buf, t.blocked);
    encode_bool(buf, t.block_sight);
    encode_bool(buf, t.explored);
    proof {
        assert(buf@ =~= old(buf)@ + enc_tile(t));
    }
}

fn encode_col(buf: &mut Vec<u8>, c: &Vec<Tile>)
    ensures
        final(buf)@ == old(buf)@ + enc_col(c@),
{
    let n = c.len();
    encode_u64(buf, n as u64);
    let mut i: usize = 0;
    while i < n
        invariant
            n == c@.len(),
            i <= n,
            buf@ == old(buf)@ + enc_len(c@.len() as int) + enc_tiles(c@.take(i as int)),
        decreases n - i,
    {
        proof {
            lemma_enc_tiles_push(c@.take(i as int), c@[i as int]);
            assert(c@.take(i as int).push(c@[i as int]) =~= c@.take(i + 1));
        }
        encode_tile(buf, c[i]);
        i += 1;
    }
    proof {
        assert(c@.take(n as int) =~= c@);
        assert(buf@ =~= old(buf)@ + enc_col(c@));
    }
}

fn encode_grid(buf: &mut Vec<u8>, g: &Grid)
    ensures
        final(buf)@ == old(buf)@ + enc_grid(g@.map_values(|c: Vec<Tile>| c@)),
{
    let ghost gm = g@.map_values(|c: Vec<Tile>| c@);
    let n = g.len();
    encode_u64(buf, n as u64);
    let mut i: usize = 0;
    while i < n
        invariant
            n == g@.len(),
            gm == g@.map_values(|c: Vec<Tile>| c@),
            i <= n,
            buf@ == old(buf)@ + enc_len(gm.len() as int) + enc_cols(gm.take(i as int)),
        decreases n - i,
    {
        proof {
            lemma_enc_cols_push(gm.take(i as int), gm[i as int]);
            assert(gm.take(i as int).push(gm[i as int]) =~= gm.take(i + 1));
            assert(gm[i as int] == g@[i as int]@);
        }
        encode_col(buf, &g[i]);
        i += 1;
    }
    proof {
        assert(gm.take(n as int) =~= gm);
        assert(buf@ =~= old(buf)@ + enc_grid(gm));
    }
}

fn encode_entry(buf: &mut Vec<u8>, e: &(String, Color))
    ensures
        final(buf)@ == old(buf)@ + enc_entry((e.0@, e.1)),
{
    encode_string(buf, &e.0);
    encode_color(buf, e.1);
    proof {
        assert(buf@ =~= old(buf)@ + enc_entry((e.0@, e.1)));
    }
}

fn encode_log(buf: &mut Vec<u8>, log: &Vec<(String, Color)>)
    ensures
        final(buf)@ == old(buf)@ + enc_log(log@.map_values(|e: (String, Color)| (e.0@, e.1))),
{
    let ghost lm = log@.map_values(|e: (String, Color)| (e.0@, e.1));
    let n = log.len();
    encode_u64(buf, n as u64);
    let mut i: usize = 0;
    while i < n
        invariant
            n == log@.len(),
            lm == log@.map_values(|e: (String, Color)| (e.0@, e.1)),
            i <= n,
            buf@ == old(buf)@ + enc_len(lm.len() as int) + enc_entries(lm.take(i as int)),
        decreases n - i,
    {
        proof {
            lemma_enc_entries_push(lm.take(i as int), lm[i as int]);
            assert(lm.take(i as int).push(lm[i as int]) =~= lm.take(i + 1));
            assert(lm[i as int] == (log@[i as int].0@, log@[i as int].1));
        }
        encode_entry(buf, &log[i]);
        i += 1;
    }
    proof {
        assert(lm.take(n as int) =~= lm);
        assert(buf@ =~= old(buf)@ + enc_log(lm));
    }
}

#[verifier::rlimit(100)]
fn encode_obj(buf: &mut Vec<u8>, o: &Object)
    ensures
        final(buf)@ == old(buf)@ + enc_obj(obj_model(*o)),
{
    encode_i32(buf, o.x);
    encode_i32(buf, o.y);
    encode_char(buf, o.glyph);
    encode_color(buf, o.color);
    encode_string(buf, &o.name);
    encode_bool(buf, o.blocks);
    encode_bool(buf, o.alive);
    encode_bool(buf, o.always_visible);
    encode_i32(buf, o.level);
    encode_opt_fighter(buf, o.fighter);
    encode_opt_ai(buf, &o.ai);
    encode_opt_item(buf, o.item);
    proof {
        assert(buf@ =~= old(buf)@ + enc_obj(obj_model(*o)));
    }
}

fn encode_objs(buf: &mut Vec<u8>, objs: &Vec<Object>)
    ensures
        final(buf)@ == old(buf)@ + enc_objs(objs@.map_values(|o: Object| obj_model(o))),
{
    let ghost om = objs@.map_values(|o: Object| obj_model(o));
    let n = objs.len();
    let mut i: usize = 0;
    while i < n
        invariant
            n == objs@.len(),
            om == objs@.map_values(|o: Object| obj_model(o)),
            i <= n,
            buf@ == old(buf)@ + enc_objs(om.take(i as int)),
        decreases n - i,
    {
        proof {
            lemma_enc_objs_push(om.take(i as int), om[i as int]);
            assert(om.take(i as int).push(om[i as int]) =~= om.take(i + 1));
            assert(om[i as int] == obj_model(objs@[i as int]));
            assert(om.take(0int) =~= Seq::<ObjectModel>::empty());
        }
        encode_obj(buf, &objs[i]);
        i += 1;
    }
    proof {
        assert(om.take(n as int) =~= om);
    }
}

fn encode_game(buf: &mut Vec<u8>, game: &Game)
    ensures
        final(buf)@ == old(buf)@ + enc_game(game_model(*game)),
{
    encode_grid(buf, &game.map);
    encode_log(buf, &game.log);
    encode_u64(buf, game.inventory.len() as u64);
    encode_objs(buf, &game.inventory);
    encode_u32(buf, game.dungeon_level);
    proof {
        assert(buf@ =~= old(buf)@ + enc_game(game_model(*game)));
    }
}

/// Serializes the full simulation state. The result is exactly the abstract
/// encoding of the state's model, so `lemma_save_roundtrip` applies to it.
pub fn encode_state(objects: &Vec<Object>, game: &Game) -> (r: Vec<u8>)
    ensures
        r@ == enc_state(state_model(objects@, *game)),
{
    let mut buf: Vec<u8> = Vec::new();
    encode_u64(&mut buf, objects.len() as u64);
    encode_objs(&mut buf, objects);
    encode_game(&mut buf, game);
    proof {
        assert(buf@ =~= enc_state(state_model(objects@, *game)));
    }
    buf
}

// ---------------------------------------------------------------------------
// Executable decoders
// ---------------------------------------------------------------------------
fn decode_color(bytes: &Vec<u8>, pos: usize) -> (r: Option<(Color, usize)>)
    ensures
        match r {
            Some((c, p)) => dec_color(bytes@, pos as int) == Some((c, p as int)) && p
                <= bytes@.len(),
            None => dec_color(bytes@, pos as int) is None,
        },
{
    if bytes.len() < 3 || pos > bytes.len() - 3 {
        return None;
    }
    Some((Color { r: bytes[pos], g: bytes[pos + 1], b: bytes[pos + 2] }, pos + 3))
}

fn decode_death(bytes: &Vec<u8>, pos: usize) -> (r: Option<(DeathCallback, usize)>)
    ensures
        match r {
            Some((d, p)) => dec_death(bytes@, pos as int) == Some((d, p as int)) && p
                <= bytes@.len(),
            None => dec_death(bytes@, pos as int) is None,
        },
{
    if pos >= bytes.len() {
        return None;
    }
    let t = bytes[pos];
    if t == 0 {
        Some((DeathCallback::Player, pos + 1))
    } else if t == 1 {
        Some((DeathCallback::Monster, pos + 1))
    } else {
        None
    }
}

fn decode_item(bytes: &Vec<u8>, pos: usize) -> (r: Option<(Item, usize)>)
    ensures
        match r {
            Some((i, p)) => dec_item(bytes@, pos as int) == Some((i, p as int)) && p
                <= bytes@.len(),
            None => dec_item(bytes@, pos as int) is None,
        },
{
    if pos >= bytes.len() {
        return None;
    }
    let t = bytes[pos];
    if t == 0 {
        Some((Item::Heal, pos + 1))
    } else if t == 1 {
        Some((Item::Lightning, pos + 1))
    } else if t == 2 {
        Some((Item::Confuse, pos + 1))
    } else if t == 3 {
        Some((Item::Fireball, pos + 1))
    } else {
        None
    }
}

fn decode_fighter(bytes: &Vec<u8>, pos: usize) -> (r: Option<(Fighter, usize)>)
    ensures
        match r {
            Some((f, p)) => dec_fighter(bytes@, pos as int) == Some((f, p as int)) && p
                <= bytes@.len(),
            None => dec_fighter(bytes@, pos as int) is None,
        },
{
    let (max_hp, p1) = match decode_i32(bytes, pos) {
        Some(v) => v,
        None => {
            return None;
        },
    };
    let (hp, p2) = match decode_i32(bytes, p1) {
        Some(v) => v,
        None => {
            return None;
        },
    };
    let (defense, p3) = match decode_i32(bytes, p2) {
        Some(v) => v,
        None => {
            return None;
        },
    };
    let (power, p4) = match decode_i32(bytes, p3) {
        Some(v) => v,
        None => {
            return None;
        },
    };
    let (xp, p5) = match decode_i32(bytes, p4) {
        Some(v) => v,
        None => {
            return None;
        },
    };
    let (on_death, p6) = match decode_death(bytes, p5) {
        Some(v) => v,
        None => {
            return None;
        },
    };
    Some((Fighter { max_hp, hp, defense, power, xp, on_death }, p6))
}

fn decode_opt_fighter(bytes: &Vec<u8>, pos: usize) -> (r: Option<(Option<Fighter>, usize)>)
    ensures
        match r {
            Some((o, p)) => dec_opt_fighter(bytes@, pos as int) == Some((o, p as int)) && p
                <= bytes@.len(),
            None => dec_opt_fighter(bytes@, pos as int) is None,
        },
{
    if pos >= bytes.len() {
        return None;
    }
    let t = bytes[pos];
    if t == 0 {
        Some((None, pos + 1))
    } else if t == 1 {
        match decode_fighter(bytes, pos + 1) {
            Some((f, p)) => Some((Some(f), p)),
            None => None,
        }
    } else {
        None
    }
}

fn decode_ai(bytes: &Vec<u8>, pos: usize) -> (r: Option<(Ai, usize)>)
    ensures
        match r {
            Some((a, p)) => dec_ai(bytes@, pos as int) == Some((a, p as int)) && p
                <= bytes@.len(),
            None => dec_ai(bytes@, pos as int) is None,
        },
    decreases bytes@.len() - pos,
{
    if pos >= bytes.len() {
        return None;
    }
    let t = bytes[pos];
    if t == 0 {
        Some((Ai::Basic, pos + 1))
    } else if t == 1 {
        let (prev, p2) = match decode_ai(bytes, pos + 1) {
            Some(v) => v,
            None => {
                return None;
            },
        };
        let (nt, p3) = match decode_i32(bytes, p2) {
            Some(v) => v,
            None => {
                return None;
            },
        };
        Some((Ai::Confused { previous_ai: Box::new(prev), num_turns: nt }, p3))
    } else {
        None
    }
}

fn decode_opt_ai(bytes: &Vec<u8>, pos: usize) -> (r: Option<(Option<Ai>, usize)>)
    ensures
        match r {
            Some((o, p)) => dec_opt_ai(bytes@, pos as int) == Some((o, p as int)) && p
                <= bytes@.len(),
            None => dec_opt_ai(bytes@, pos as int) is None,
        },
{
    if pos >= bytes.len() {
        return None;
    }
    let t = bytes[pos];
    if t == 0 {
        Some((None, pos + 1))
    } else if t == 1 {
        match decode_ai(bytes, pos + 1) {
            Some((a, p)) => Some((Some(a), p)),
            None => None,
        }
    } else {
        None
    }
}

fn decode_opt_item(bytes: &Vec<u8>, pos: usize) -> (r: Option<(Option<Item>, usize)>)
    ensures
        match r {
            Some((o, p)) => dec_opt_item(bytes@, pos as int) == Some((o, p as int)) && p
                <= bytes@.len(),
            None => dec_opt_item(bytes@, pos as int) is None,
        },
{
    if pos >= bytes.len() {
        return None;
    }
    let t = bytes[pos];
    if t == 0 {
        Some((None, pos + 1))
    } else if t == 1 {
        match decode_item(bytes, pos + 1) {
            Some((i, p)) => Some((Some(i), p)),
            None => None,
        }
    } else {
        None
    }
}

fn decode_string(bytes: &Vec<u8>, pos: usize) -> (r: Option<(String, usize)>)
    ensures
        match r {
            Some((s, p)) => dec_string(bytes@, pos as int) == Some((s@, p as int)) && p
                <= bytes@.len(),
            None => dec_string(bytes@, pos as int) is None,
        },
{
    let (n, p0) = match decode_u64(bytes, pos) {
        Some(v) => v,
        None => {
            return None;
        },
    };
    let mut acc = String::new();
    let mut p = p0;
    let mut k: u64 = 0;
    proof {
        let ghost first = dec_chars(bytes@, p0 as int, n as nat);
        match first {
            Option::None => {},
            Option::Some((rest, q)) => {
                assert(acc@ + rest =~= rest);
            },
        }
    }
    while k < n
        invariant
            k <= n,
            p <= bytes@.len(),
            dec_u64(bytes@, pos as int) == Some((n, p0 as int)),
            dec_chars(bytes@, p0 as int, n as nat) == (match dec_chars(
                bytes@,
                p as int,
                (n - k) as nat,
            ) {
                Option::None => Option::<(Seq<char>, int)>::None,
                Option::Some((rest, q)) => Option::Some((acc@ + rest, q)),
            }),
        decreases n - k,
    {
        match decode_char(bytes, p) {
            Some((c, p2)) => {
                proof {
                    let ghost next = dec_chars(bytes@, p2 as int, (n - k - 1) as nat);
                    match next {
                        Option::None => {},
                        Option::Some((rest, q)) => {
                            assert((acc@.push(c)) + rest =~= acc@ + (seq![c] + rest));
                        },
                    }
                }
                crate::text::push_char(&mut acc, c);
                p = p2;
            },
            None => {
                proof {
                    assert(dec_char(bytes@, p as int) is None);
                    assert(dec_chars(bytes@, p as int, (n - k) as nat) is None);
                    assert(dec_chars(bytes@, p0 as int, n as nat) is None);
                    assert(dec_string(bytes@, pos as int) is None);
                }
                return None;
            },
        }
        k = k + 1;
    }
    proof {
        assert(dec_chars(bytes@, p as int, 0) == Option::Some((Seq::<char>::empty(), p as int)));
        assert(acc@ + Seq::<char>::empty() =~= acc@);
    }
    Some((acc, p))
}

fn decode_tile(bytes: &Vec<u8>, pos: usize) -> (r: Option<(Tile, usize)>)
    ensures
        match r {
            Some((t, p)) => dec_tile(bytes@, pos as int) == Some((t, p as int)) && p
                <= bytes@.len(),
            None => dec_tile(bytes@, pos as int) is None,
        },
{
    let (blocked, p1) = match decode_bool(bytes, pos) {
        Some(v) => v,
        None => {
            return None;
        },
    };
    let (block_sight, p2) = match decode_bool(bytes, p1) {
        Some(v) => v,
        None => {
            return None;
        },
    };
    let (explored, p3) = match decode_bool(bytes, p2) {
        Some(v) => v,
        None => {
            return None;
        },
    };
    Some((Tile { blocked, block_sight, explored }, p3))
}

fn decode_col(bytes: &Vec<u8>, pos: usize) -> (r: Option<(Vec<Tile>, usize)>)
    ensures
        match r {
            Some((c, p)) => dec_col(bytes@, pos as int) == Some((c@, p as int)) && p
                <= bytes@.len(),
            None => dec_col(bytes@, pos as int) is None,
        },
{
    let (n, p0) = match decode_u64(bytes, pos) {
        Some(v) => v,
        None => {
            return None;
        },
    };
    let mut acc: Vec<Tile> = Vec::new();
    let mut p = p0;
    let mut k: u64 = 0;
    proof {
        let ghost first = dec_tiles(bytes@, p0 as int, n as nat);
        match first {
            Option::None => {},
            Option::Some((rest, q)) => {
                assert(acc@ + rest =~= rest);
            },
        }
    }
    while k < n
        invariant
            k <= n,
            p <= bytes@.len(),
            dec_u64(bytes@, pos as int) == Some((n, p0 as int)),
            dec_tiles(bytes@, p0 as int, n as nat) == (match dec_tiles(
                bytes@,
                p as int,
                (n - k) as nat,
            ) {
                Option::None => Option::<(Seq<Tile>, int)>::None,
                Option::Some((rest, q)) => Option::Some((acc@ + rest, q)),
            }),
        decreases n - k,
    {
        match decode_tile(bytes, p) {
            Some((t, p2)) => {
                proof {
                    let ghost next = dec_tiles(bytes@, p2 as int, (n - k - 1) as nat);
                    match next {
                        Option::None => {},
                        Option::Some((rest, q)) => {
                            assert((acc@.push(t)) + rest =~= acc@ + (seq![t] + rest));
                        },
                    }
                }
                acc.push(t);
                p = p2;
            },
            None => {
                proof {
                    assert(dec_tile(bytes@, p as int) is None);
                    assert(dec_tiles(bytes@, p as int, (n - k) as nat) is None);
                    assert(dec_tiles(bytes@, p0 as int, n as nat) is None);
                    assert(dec_col(bytes@, pos as int) is None);
                }
                return None;
            },
        }
        k = k + 1;
    }
    proof {
        assert(dec_tiles(bytes@, p as int, 0) == Option::Some((Seq::<Tile>::empty(), p as int)));
        assert(acc@ + Seq::<Tile>::empty() =~= acc@);
    }
    Some((acc, p))
}

fn decode_grid(bytes: &Vec<u8>, pos: usize) -> (r: Option<(Grid, usize)>)
    ensures
        match r {
            Some((g, p)) => dec_grid(bytes@, pos as int) == Some(
                (g@.map_values(|c: Vec<Tile>| c@), p as int),
            ) && p <= bytes@.len(),
            None => dec_grid(bytes@, pos as int) is None,
        },
{
    let (n, p0) = match decode_u64(bytes, pos) {
        Some(v) => v,
        None => {
            return None;
        },
    };
    let mut acc: Grid = Vec::new();
    let mut p = p0;
    let mut k: u64 = 0;
    proof {
        assert(acc@.map_values(|c: Vec<Tile>| c@) =~= Seq::<Seq<Tile>>::empty());
        let ghost first = dec_cols(bytes@, p0 as int, n as nat);
        match first {
            Option::None => {},
            Option::Some((rest, q)) => {
                assert(acc@.map_values(|c: Vec<Tile>| c@) + rest =~= rest);
            },
        }
    }
    while k < n
        invariant
            k <= n,
            p <= bytes@.len(),
            dec_u64(bytes@, pos as int) == Some((n, p0 as int)),
            dec_cols(bytes@, p0 as int, n as nat) == (match dec_cols(
                bytes@,
                p as int,
                (n - k) as nat,
            ) {
                Option::None => Option::<(Seq<Seq<Tile>>, int)>::None,
                Option::Some((rest, q)) => Option::Some(
                    (acc@.map_values(|c: Vec<Tile>| c@) + rest, q),
                ),
            }),
        decreases n - k,
    {
        match decode_col(bytes, p) {
            Some((c, p2)) => {
                proof {
                    let ghost next = dec_cols(bytes@, p2 as int, (n - k - 1) as nat);
                    let ghost am = acc@.map_values(|cc: Vec<Tile>| cc@);
                    match next {
                        Option::None => {},
                        Option::Some((rest, q)) => {
                            assert(acc@.push(c).map_values(|cc: Vec<Tile>| cc@) =~= am.push(c@));
                            assert(am.push(c@) + rest =~= am + (seq![c@] + rest));
                        },
                    }
                    assert(acc@.push(c).map_values(|cc: Vec<Tile>| cc@) =~= am.push(c@));
                }
                acc.push(c);
                p = p2;
            },
            None => {
                proof {
                    assert(dec_col(bytes@, p as int) is None);
                    assert(dec_cols(bytes@, p as int, (n - k) as nat) is None);
                    assert(dec_cols(bytes@, p0 as int, n as nat) is None);
                    assert(dec_grid(bytes@, pos as int) is None);
                }
                return None;
            },
        }
        k = k + 1;
    }
    proof {
        assert(dec_cols(bytes@, p as int, 0) == Option::Some(
            (Seq::<Seq<Tile>>::empty(), p as int),
        ));
        assert(acc@.map_values(|c: Vec<Tile>| c@) + Seq::<Seq<Tile>>::empty()
            =~= acc@.map_values(|c: Vec<Tile>| c@));
    }
    Some((acc, p))
}

fn decode_entry(bytes: &Vec<u8>, pos: usize) -> (r: Option<((String, Color), usize)>)
    ensures
        match r {
            Some((e, p)) => dec_entry(bytes@, pos as int) == Some(((e.0@, e.1), p as int)) && p
                <= bytes@.len(),
            None => dec_entry(bytes@, pos as int) is None,
        },
{
    let (t, p1) = match decode_string(bytes, pos) {
        Some(v) => v,
        None => {
            return None;
        },
    };
    let (c, p2) = match decode_color(bytes, p1) {
        Some(v) => v,
        None => {
            return None;
        },
    };
    Some(((t, c), p2))
}

fn decode_log(bytes: &Vec<u8>, pos: usize) -> (r: Option<(Vec<(String, Color)>, usize)>)
    ensures
        match r {
            Some((l, p)) => dec_log(bytes@, pos as int) == Some(
                (l@.map_values(|e: (String, Color)| (e.0@, e.1)), p as int),
            ) && p <= bytes@.len(),
            None => dec_log(bytes@, pos as int) is None,
        },
{
    let (n, p0) = match decode_u64(bytes, pos) {
        Some(v) => v,
        None => {
            return None;
        },
    };
    let mut acc: Vec<(String, Color)> = Vec::new();
    let mut p = p0;
    let mut k: u64 = 0;
    proof {
        assert(acc@.map_values(|e: (String, Color)| (e.0@, e.1)) =~= Seq::<
            (Seq<char>, Color),
        >::empty());
        let ghost first = dec_entries(bytes@, p0 as int, n as nat);
        match first {
            Option::None => {},
            Option::Some((rest, q)) => {
                assert(acc@.map_values(|e: (String, Color)| (e.0@, e.1)) + rest =~= rest);
            },
        }
    }
    while k < n
        invariant
            k <= n,
            p <= bytes@.len(),
            dec_u64(bytes@, pos as int) == Some((n, p0 as int)),
            dec_entries(bytes@, p0 as int, n as nat) == (match dec_entries(
                bytes@,
                p as int,
                (n - k) as nat,
            ) {
                Option::None => Option::<(Seq<(Seq<char>, Color)>, int)>::None,
                Option::Some((rest, q)) => Option::Some(
                    (acc@.map_values(|e: (String, Color)| (e.0@, e.1)) + rest, q),
                ),
            }),
        decreases n - k,
    {
        match decode_entry(bytes, p) {
            Some((e, p2)) => {
                proof {
                    let ghost next = dec_entries(bytes@, p2 as int, (n - k - 1) as nat);
                    let ghost am = acc@.map_values(|ee: (String, Color)| (ee.0@, ee.1));
                    match next {
                        Option::None => {},
                        Option::Some((rest, q)) => {
                            assert(acc@.push(e).map_values(|ee: (String, Color)| (ee.0@, ee.1))
                                =~= am.push((e.0@, e.1)));
                            assert(am.push((e.0@, e.1)) + rest =~= am + (seq![(e.0@, e.1)]
                                + rest));
                        },
                    }
                    assert(acc@.push(e).map_values(|ee: (String, Color)| (ee.0@, ee.1))
                        =~= am.push((e.0@, e.1)));
                }
                acc.push(e);
                p = p2;
            },
            None => {
                proof {
                    assert(dec_entry(bytes@, p as int) is None);
                    assert(dec_entries(bytes@, p as int, (n - k) as nat) is None);
                    assert(dec_entries(bytes@, p0 as int, n as nat) is None);
                    assert(dec_log(bytes@, pos as int) is None);
                }
                return None;
            },
        }
        k = k + 1;
    }
    proof {
        assert(dec_entries(bytes@, p as int, 0) == Option::Some(
            (Seq::<(Seq<char>, Color)>::empty(), p as int),
        ));
        assert(acc@.map_values(|e: (String, Color)| (e.0@, e.1)) + Seq::<
            (Seq<char>, Color),
        >::empty() =~= acc@.map_values(|e: (String, Color)| (e.0@, e.1)));
    }
    Some((acc, p))
}

fn decode_obj(bytes: &Vec<u8>, pos: usize) -> (r: Option<(Object, usize)>)
    ensures
        match r {
            Some((o, p)) => dec_obj(bytes@, pos as int) == Some((obj_model(o), p as int)) && p
                <= bytes@.len(),
            None => dec_obj(bytes@, pos as int) is None,
        },
{
    let (x, p1) = match decode_i32(bytes, pos) {
        Some(v) => v,
        None => {
            return None;
        },
    };
    let (y, p2) = match decode_i32(bytes, p1) {
        Some(v) => v,
        None => {
            return None;
        },
    };
    let (glyph, p3) = match decode_char(bytes, p2) {
        Some(v) => v,
        None => {
            return None;
        },
    };
    let (color, p4) = match decode_color(bytes, p3) {
        Some(v) => v,
        None => {
            return None;
        },
    };
    let (name, p5) = match decode_string(bytes, p4) {
        Some(v) => v,
        None => {
            return None;
        },
    };
    let (blocks, p6) = match decode_bool(bytes, p5) {
        Some(v) => v,
        None => {
            return None;
        },
    };
    let (alive, p7) = match decode_bool(bytes, p6) {
        Some(v) => v,
        None => {
            return None;
        },
    };
    let (always_visible, p8) = match decode_bool(bytes, p7) {
        Some(v) => v,
        None => {
            return None;
        },
    };
    let (level, p9) = match decode_i32(bytes, p8) {
        Some(v) => v,
        None => {
            return None;
        },
    };
    let (fighter, p10) = match decode_opt_fighter(bytes, p9) {
        Some(v) => v,
        None => {
            return None;
        },
    };
    let (ai, p11) = match decode_opt_ai(bytes, p10) {
        Some(v) => v,
        None => {
            return None;
        },
    };
    let (item, p12) = match decode_opt_item(bytes, p11) {
        Some(v) => v,
        None => {
            return None;
        },
    };
    Some(
        (
            Object {
                x,
                y,
                glyph,
                color,
                name,
                blocks,
                alive,
                always_visible,
                level,
                fighter,
                ai,
                item,
            },
            p12,
        ),
    )
}

fn decode_objs(bytes: &Vec<u8>, pos: usize, n: u64) -> (r: Option<(Vec<Object>, usize)>)
    ensures
        match r {
            Some((s, p)) => dec_objs(bytes@, pos as int, n as nat) == Some(
                (s@.map_values(|o: Object| obj_model(o)), p as int),
            ),
            None => dec_objs(bytes@, pos as int, n as nat) is None,
        },
{
    let mut acc: Vec<Object> = Vec::new();
    let mut p = pos;
    let mut k: u64 = 0;
    proof {
        assert(acc@.map_values(|o: Object| obj_model(o)) =~= Seq::<ObjectModel>::empty());
        let ghost first = dec_objs(bytes@, pos as int, n as nat);
        match first {
            Option::None => {},
            Option::Some((rest, q)) => {
                assert(acc@.map_values(|o: Object| obj_model(o)) + rest =~= rest);
            },
        }
    }
    while k < n
        invariant
            k <= n,
            dec_objs(bytes@, pos as int, n as nat) == (match dec_objs(
                bytes@,
                p as int,
                (n - k) as nat,
            ) {
                Option::None => Option::<(Seq<ObjectModel>, int)>::None,
                Option::Some((rest, q)) => Option::Some(
                    (acc@.map_values(|o: Object| obj_model(o)) + rest, q),
                ),
            }),
        decreases n - k,
    {
        match decode_obj(bytes, p) {
            Some((o, p2)) => {
                proof {
                    let ghost next = dec_objs(bytes@, p2 as int, (n - k - 1) as nat);
                    let ghost am = acc@.map_values(|oo: Object| obj_model(oo));
                    match next {
                        Option::None => {},
                        Option::Some((rest, q)) => {
                            assert(acc@.push(o).map_values(|oo: Object| obj_model(oo))
                                =~= am.push(obj_model(o)));
                            assert(am.push(obj_model(o)) + rest =~= am + (seq![obj_model(o)]
                                + rest));
                        },
                    }
                    assert(acc@.push(o).map_values(|oo: Object| obj_model(oo)) =~= am.push(
                        obj_model(o),
                    ));
                }
                acc.push(o);
                p = p2;
            },
            None => {
                proof {
                    assert(dec_obj(bytes@, p as int) is None);
                    assert(dec_objs(bytes@, p as int, (n - k) as nat) is None);
                    assert(dec_objs(bytes@, pos as int, n as nat) is None);
                }
                return None;
            },
        }
        k = k + 1;
    }
    proof {
        assert(dec_objs(bytes@, p as int, 0) == Option::Some(
            (Seq::<ObjectModel>::empty(), p as int),
        ));
        assert(acc@.map_values(|o: Object| obj_model(o)) + Seq::<ObjectModel>::empty()
            =~= acc@.map_values(|o: Object| obj_model(o)));
    }
    Some((acc, p))
}

fn decode_game(bytes: &Vec<u8>, pos: usize) -> (r: Option<(Game, usize)>)
    ensures
        match r {
            Some((g, p)) => dec_game(bytes@, pos as int) == Some((game_model(g), p as int)) && p
                <= bytes@.len(),
            None => dec_game(bytes@, pos as int) is None,
        },
{
    let (map, p1) = match decode_grid(bytes, pos) {
        Some(v) => v,
        None => {
            return None;
        },
    };
    let (log, p2) = match decode_log(bytes, p1) {
        Some(v) => v,
        None => {
            return None;
        },
    };
    let (n, p3) = match decode_u64(bytes, p2) {
        Some(v) => v,
        None => {
            return None;
        },
    };
    let (inventory, p4) = match decode_objs(bytes, p3, n) {
        Some(v) => v,
        None => {
            return None;
        },
    };
    let (dungeon_level, p5) = match decode_u32(bytes, p4) {
        Some(v) => v,
        None => {
            return None;
        },
    };
    Some((Game { map, log, inventory, dungeon_level }, p5))
}

/// Deserializes a full simulation state. `None` on any malformed input;
/// a successful parse is exactly what the abstract decoder reads, so a
/// state written by `encode_state` always comes back identical.
pub fn decode_state(bytes: &Vec<u8>) -> (r: Option<(Vec<Object>, Game)>)
    ensures
        match r {
            Some((objects, game)) => dec_state(bytes@, 0) matches Some((m, p)) && m == state_model(
                objects@,
                game,
            ),
            None => dec_state(bytes@, 0) is None,
        },
{
    let (n, p1) = match decode_u64(bytes, 0) {
        Some(v) => v,
        None => {
            return None;
        },
    };
    let (objects, p2) = match decode_objs(bytes, p1, n) {
        Some(v) => v,
        None => {
            return None;
        },
    };
    let (game, p3) = match decode_game(bytes, p2) {
        Some(v) => v,
        None => {
            return None;
        },
    };
    Some((objects, game))
}

} // verus!
