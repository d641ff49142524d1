//! The serialization collaborator: a byte codec for the fixed set of wire
//! messages. Every message kind encodes to a tagged byte string and decodes
//! back to an equal value; malformed input decodes to nothing.
//!
//! Layout: all integers little-endian; strings as a length prefix followed
//! by one 32-bit scalar value per character; lists as a length prefix
//! followed by the elements; every message under a one-byte kind tag.
use vstd::prelude::*;
use vstd::string::*;
use crate::Art;
use crate::msg::{Chat, EntEvent, Heartbeat, Message, Move, Pos, WorldJoin};

verus! {

/// The little-endian bytes of a 32-bit value.
pub open spec fn spec_u32_le(v: u32) -> Seq<u8> {
    seq![
        (v & 0xff) as u8,
        ((v >> 8) & 0xff) as u8,
        ((v >> 16) & 0xff) as u8,
        ((v >> 24) & 0xff) as u8,
    ]
}

/// The 32-bit value read back from four little-endian bytes.
pub open spec fn spec_u32_from_le(b0: u8, b1: u8, b2: u8, b3: u8) -> u32 {
    (b0 as u32) | ((b1 as u32) << 8) | ((b2 as u32) << 16) | ((b3 as u32) << 24)
}

/// The little-endian bytes of a 64-bit value.
pub open spec fn spec_u64_le(v: u64) -> Seq<u8> {
    seq![
        (v & 0xff) as u8,
        ((v >> 8) & 0xff) as u8,
        ((v >> 16) & 0xff) as u8,
        ((v >> 24) & 0xff) as u8,
        ((v >> 32) & 0xff) as u8,
        ((v >> 40) & 0xff) as u8,
        ((v >> 48) & 0xff) as u8,
        ((v >> 56) & 0xff) as u8,
    ]
}

/// The 64-bit value read back from eight little-endian bytes.
pub open spec fn spec_u64_from_le(
    b0: u8,
    b1: u8,
    b2: u8,
    b3: u8,
    b4: u8,
    b5: u8,
    b6: u8,
    b7: u8,
) -> u64 {
    (b0 as u64) | ((b1 as u64) << 8) | ((b2 as u64) << 16) | ((b3 as u64) << 24) | ((b4
        as u64) << 32) | ((b5 as u64) << 40) | ((b6 as u64) << 48) | ((b7 as u64) << 56)
}

/// Reading back the four little-endian bytes of a value restores it.
pub proof fn lemma_u32_le_roundtrip(v: u32)
    ensures
        spec_u32_from_le(
            (v & 0xff) as u8,
            ((v >> 8) & 0xff) as u8,
            ((v >> 16) & 0xff) as u8,
            ((v >> 24) & 0xff) as u8,
        ) == v,
{
    assert((((v & 0xff) as u8) as u32) | ((((v >> 8) & 0xff) as u8) as u32) << 8 | ((((v >> 16)
        & 0xff) as u8) as u32) << 16 | ((((v >> 24) & 0xff) as u8) as u32) << 24 == v)
        by (bit_vector);
}

/// Reading back the eight little-endian bytes of a value restores it.
pub proof fn lemma_u64_le_roundtrip(v: u64)
    ensures
        spec_u64_from_le(
            (v & 0xff) as u8,
            ((v >> 8) & 0xff) as u8,
            ((v >> 16) & 0xff) as u8,
            ((v >> 24) & 0xff) as u8,
            ((v >> 32) & 0xff) as u8,
            ((v >> 40) & 0xff) as u8,
            ((v >> 48) & 0xff) as u8,
            ((v >> 56) & 0xff) as u8,
        ) == v,
{
    assert((((v & 0xff) as u8) as u64) | ((((v >> 8) & 0xff) as u8) as u64) << 8 | ((((v >> 16)
        & 0xff) as u8) as u64) << 16 | ((((v >> 24) & 0xff) as u8) as u64) << 24 | ((((v >> 32)
        & 0xff) as u8) as u64) << 32 | ((((v >> 40) & 0xff) as u8) as u64) << 40 | ((((v >> 48)
        & 0xff) as u8) as u64) << 48 | ((((v >> 56) & 0xff) as u8) as u64) << 56 == v)
        by (bit_vector);
}

/// Appends the little-endian bytes of `v`.
fn put_u32(out: &mut Vec<u8>, v: u32)
    ensures
        final(out)@ == old(out)@ + spec_u32_le(v),
{
    out.push((v & 0xff) as u8);
    out.push(((v >> 8) & 0xff) as u8);
    out.push(((v >> 16) & 0xff) as u8);
    out.push(((v >> 24) & 0xff) as u8);
    assert(out@ =~= old(out)@ + spec_u32_le(v));
}

/// Appends the little-endian bytes of `v`.
fn put_u64(out: &mut Vec<u8>, v: u64)
    ensures
        final(out)@ == old(out)@ + spec_u64_le(v),
{
    out.push((v & 0xff) as u8);
    out.push(((v >> 8) & 0xff) as u8);
    out.push(((v >> 16) & 0xff) as u8);
    out.push(((v >> 24) & 0xff) as u8);
    out.push(((v >> 32) & 0xff) as u8);
    out.push(((v >> 40) & 0xff) as u8);
    out.push(((v >> 48) & 0xff) as u8);
    out.push(((v >> 56) & 0xff) as u8);
    assert(out@ =~= old(out)@ + spec_u64_le(v));
}

/// Consumes a 32-bit value from the front of `b`.
pub open spec fn spec_take_u32(b: Seq<u8>) -> Option<(u32, Seq<u8>)> {
    if b.len() >= 4 {
        Some((spec_u32_from_le(b[0], b[1], b[2], b[3]), b.skip(4)))
    } else {
        None
    }
}

/// Consumes a 64-bit value from the front of `b`.
pub open spec fn spec_take_u64(b: Seq<u8>) -> Option<(u64, Seq<u8>)> {
    if b.len() >= 8 {
        Some((spec_u64_from_le(b[0], b[1], b[2], b[3], b[4], b[5], b[6], b[7]), b.skip(8)))
    } else {
        None
    }
}

/// A 32-bit value encoded in front of anything is consumed back intact.
pub proof fn lemma_take_u32(v: u32, rest: Seq<u8>)
    ensures
        spec_take_u32(spec_u32_le(v) + rest) == Some((v, rest)),
{
    lemma_u32_le_roundtrip(v);
    assert((spec_u32_le(v) + rest).skip(4) =~= rest);
}

/// A 64-bit value encoded in front of anything is consumed back intact.
pub proof fn lemma_take_u64(v: u64, rest: Seq<u8>)
    ensures
        spec_take_u64(spec_u64_le(v) + rest) == Some((v, rest)),
{
    lemma_u64_le_roundtrip(v);
    assert((spec_u64_le(v) + rest).skip(8) =~= rest);
}

/// Reads a 32-bit value at byte offset `i`, advancing the cursor.
fn get_u32(b: &[u8], i: usize) -> (r: Option<(u32, usize)>)
    requires
        i <= b@.len(),
    ensures
        match r {
            Some((v, j)) => {
                &&& spec_take_u32(b@.skip(i as int)) == Some((v, b@.skip(j as int)))
                &&& i < j <= b@.len()
                &&& j == i + 4
            },
            None => spec_take_u32(b@.skip(i as int)) is None,
        },
{
    if b.len() - i >= 4 {
        let v = (b[i] as u32) | ((b[i + 1] as u32) << 8) | ((b[i + 2] as u32) << 16) | ((b[i
            + 3] as u32) << 24);
        assert(b@.skip(i as int).skip(4) =~= b@.skip(i + 4));
        Some((v, i + 4))
    } else {
        None
    }
}

/// Reads a 64-bit value at byte offset `i`, advancing the cursor.
fn get_u64(b: &[u8], i: usize) -> (r: Option<(u64, usize)>)
    requires
        i <= b@.len(),
    ensures
        match r {
            Some((v, j)) => {
                &&& spec_take_u64(b@.skip(i as int)) == Some((v, b@.skip(j as int)))
                &&& i < j <= b@.len()
                &&& j == i + 8
            },
            None => spec_take_u64(b@.skip(i as int)) is None,
        },
{
    if b.len() - i >= 8 {
        let v = (b[i] as u64) | ((b[i + 1] as u64) << 8) | ((b[i + 2] as u64) << 16) | ((b[i
            + 3] as u64) << 24) | ((b[i + 4] as u64) << 32) | ((b[i + 5] as u64) << 40) | ((b[i
            + 6] as u64) << 48) | ((b[i + 7] as u64) << 56);
        assert(b@.skip(i as int).skip(8) =~= b@.skip(i + 8));
        Some((v, i + 8))
    } else {
        None
    }
}

/// The values `char::from_u32` accepts: every code point but the surrogates.
pub open spec fn valid_scalar(v: u32) -> bool {
    v < 0xD800 || (0xE000 <= v && v <= 0x10FFFF)
}

/// Relies on `char::from_u32`: it returns the character with code point `v`
/// exactly when `v` is a Unicode scalar value, and nothing otherwise.
#[verifier::external_body]
fn char_from_u32(v: u32) -> (r: Option<char>)
    ensures
        r is Some <==> valid_scalar(v),
        valid_scalar(v) ==> r == Some(v as char),
{
    char::from_u32(v)
}

/// Relies on `String::push`: it appends the given character at the end.
#[verifier::external_body]
pub(crate) fn push_char(s: &mut String, c: char)
    ensures
        final(s)@ == old(s)@.push(c),
{
    s.push(c);
}

/// The bytes of a character sequence: one 32-bit scalar value each.
pub open spec fn spec_chars(s: Seq<char>) -> Seq<u8>
    decreases s.len(),
{
    if s.len() == 0 {
        Seq::empty()
    } else {
        spec_u32_le(s[0] as u32) + spec_chars(s.skip(1))
    }
}

/// The bytes of a string: its character count, then its characters.
pub open spec fn spec_string(s: Seq<char>) -> Seq<u8> {
    spec_u32_le(s.len() as u32) + spec_chars(s)
}

/// Consumes exactly `n` characters from the front of `b`.
pub open spec fn spec_take_chars(n: nat, b: Seq<u8>) -> Option<(Seq<char>, Seq<u8>)>
    decreases n,
{
    if n == 0 {
        Some((Seq::empty(), b))
    } else {
        match spec_take_u32(b) {
            Some((v, rest)) => if valid_scalar(v) {
                match spec_take_chars((n - 1) as nat, rest) {
                    Some((cs, rest2)) => Some((seq![v as char] + cs, rest2)),
                    None => None,
                }
            } else {
                None
            },
            None => None,
        }
    }
}

/// Consumes a length-prefixed string from the front of `b`.
pub open spec fn spec_take_string(b: Seq<u8>) -> Option<(Seq<char>, Seq<u8>)> {
    match spec_take_u32(b) {
        Some((n, rest)) => spec_take_chars(n as nat, rest),
        None => None,
    }
}

/// Characters encoded in front of anything are consumed back intact.
#[verifier::rlimit(50)]
pub proof fn lemma_take_chars(s: Seq<char>, rest: Seq<u8>)
    ensures
        spec_take_chars(s.len(), spec_chars(s) + rest) == Some((s, rest)),
    decreases s.len(),
{
    if s.len() == 0 {
        assert(spec_chars(s) + rest =~= rest);
        assert(spec_take_chars(0, rest) == Some((Seq::<char>::empty(), rest)));
        assert(s =~= Seq::<char>::empty());
    } else {
        let v = s[0] as u32;
        vstd::utf8::char_is_scalar(s[0]);
        vstd::utf8::char_u32_cast(s[0], v);
        lemma_take_chars(s.skip(1), rest);
        assert(spec_chars(s) + rest =~= spec_u32_le(v) + (spec_chars(s.skip(1)) + rest));
        lemma_take_u32(v, spec_chars(s.skip(1)) + rest);
        assert(v as char == s[0]);
        assert(seq![s[0]] + s.skip(1) =~= s);
    }
}

/// A string encoded in front of anything is consumed back intact.
pub proof fn lemma_take_string(s: Seq<char>, rest: Seq<u8>)
    requires
        s.len() <= u32::MAX,
    ensures
        spec_take_string(spec_string(s) + rest) == Some((s, rest)),
{
    assert(spec_string(s) + rest =~= spec_u32_le(s.len() as u32) + (spec_chars(s) + rest));
    lemma_take_u32(s.len() as u32, spec_chars(s) + rest);
    lemma_take_chars(s, rest);
    assert((s.len() as u32) as nat == s.len());
}

/// Appends the encoding of a string.
fn put_string(out: &mut Vec<u8>, s: &String)
    requires
        s@.len() <= u32::MAX,
    ensures
        final(out)@ == old(out)@ + spec_string(s@),
{
    let n = s.as_str().unicode_len();
    put_u32(out, n as u32);
    let mut k: usize = 0;
    while k < n
        invariant
            n == s@.len(),
            n <= u32::MAX,
            k <= n,
            out@ == old(out)@ + spec_u32_le(n as u32) + spec_chars(s@.take(k as int)),
        decreases n - k,
    {
        let c = s.as_str().get_char(k);
        put_u32(out, c as u32);
        proof {
            lemma_chars_snoc(s@.take(k as int), s@[k as int]);
            assert(s@.take(k as int).push(s@[k as int]) =~= s@.take(k + 1 as int));
        }
        k = k + 1;
    }
    proof {
        assert(s@.take(n as int) =~= s@);
    }
}

/// Encoding one more character appends its four bytes.
#[verifier::rlimit(50)]
proof fn lemma_chars_snoc(s: Seq<char>, c: char)
    ensures
        spec_chars(s.push(c)) == spec_chars(s) + spec_u32_le(c as u32),
    decreases s.len(),
{
    if s.len() == 0 {
        assert(s.push(c)[0] == c);
        assert(s.push(c).skip(1) =~= Seq::<char>::empty());
        assert(spec_chars(s.push(c)) == spec_u32_le(s.push(c)[0] as u32) + spec_chars(
            s.push(c).skip(1),
        ));
        assert(spec_chars(s.push(c).skip(1)) == Seq::<u8>::empty());
        assert(spec_chars(s) == Seq::<u8>::empty());
        assert(spec_chars(s.push(c)) =~= spec_chars(s) + spec_u32_le(c as u32));
    } else {
        assert(s.push(c)[0] == s[0]);
        assert(s.push(c).skip(1) =~= s.skip(1).push(c));
        lemma_chars_snoc(s.skip(1), c);
        assert(s.push(c).len() != 0);
        assert(spec_chars(s.push(c)) == spec_u32_le(s.push(c)[0] as u32) + spec_chars(
            s.push(c).skip(1),
        ));
        assert(spec_chars(s.push(c).skip(1)) == spec_chars(s.skip(1).push(c)));
        assert(spec_chars(s.push(c)) =~= spec_chars(s) + spec_u32_le(c as u32));
    }
}

/// Reads a length-prefixed string at byte offset `i`, advancing the cursor.
fn get_string(b: &[u8], i: usize) -> (r: Option<(String, usize)>)
    requires
        i <= b@.len(),
    ensures
        match r {
            Some((s, j)) => {
                &&& spec_take_string(b@.skip(i as int)) == Some((s@, b@.skip(j as int)))
                &&& i < j <= b@.len()
                &&& s@.len() <= u32::MAX
            },
            None => spec_take_string(b@.skip(i as int)) is None,
        },
{
    let (n, mut j) = match get_u32(b, i) {
        Some(p) => p,
        None => { return None; },
    };
    let mut s = String::new();
    let mut k: u32 = 0;
    while k < n
        invariant
            i + 4 <= j <= b@.len(),
            k <= n,
            s@.len() == k,
            spec_take_u32(b@.skip(i as int)) == Some((n, b@.skip(i + 4))),
            match spec_take_chars((n - k) as nat, b@.skip(j as int)) {
                Some(p) => spec_take_chars(n as nat, b@.skip(i + 4)) == Some(
                    (s@ + p.0, p.1),
                ),
                None => spec_take_chars(n as nat, b@.skip(i + 4)) is None,
            },
        decreases n - k,
    {
        let (v, j2) = match get_u32(b, j) {
            Some(p) => p,
            None => { return None; },
        };
        let c = match char_from_u32(v) {
            Some(c) => c,
            None => { return None; },
        };
        proof {
            let m = (n - k) as nat;
            let cur = b@.skip(j as int);
            assert(spec_take_u32(cur) == Some((v, b@.skip(j2 as int))));
            match spec_take_chars((m - 1) as nat, b@.skip(j2 as int)) {
                Some(p) => {
                    assert(spec_take_chars(m, cur) == Some((seq![v as char] + p.0, p.1)));
                    assert(s@.push(c) + p.0 =~= s@ + (seq![v as char] + p.0));
                },
                None => {
                    assert(spec_take_chars(m, cur) is None);
                },
            }
        }
        push_char(&mut s, c);
        j = j2;
        k = k + 1;
    }
    proof {
        assert(spec_take_chars(0, b@.skip(j as int)) == Some(
            (Seq::<char>::empty(), b@.skip(j as int)),
        ));
        assert(s@ + Seq::<char>::empty() =~= s@);
    }
    Some((s, j))
}

/// The byte tag of a visual kind.
pub open spec fn spec_art(a: Art) -> u8 {
    match a {
        Art::Island => 0u8,
        Art::Vase => 1u8,
    }
}

/// Consumes a visual kind from the front of `b`.
pub open spec fn spec_take_art(b: Seq<u8>) -> Option<(Art, Seq<u8>)> {
    if b.len() >= 1 {
        if b[0] == 0u8 {
            Some((Art::Island, b.skip(1)))
        } else if b[0] == 1u8 {
            Some((Art::Vase, b.skip(1)))
        } else {
            None
        }
    } else {
        None
    }
}

/// A visual kind encoded in front of anything is consumed back intact.
pub proof fn lemma_take_art(a: Art, rest: Seq<u8>)
    ensures
        spec_take_art(seq![spec_art(a)] + rest) == Some((a, rest)),
{
    assert((seq![spec_art(a)] + rest).skip(1) =~= rest);
}

/// The bytes of a position: both raw coordinates, x first.
pub open spec fn spec_pos(p: Pos) -> Seq<u8> {
    spec_u32_le(p.x) + spec_u32_le(p.y)
}

/// Consumes a position from the front of `b`.
pub open spec fn spec_take_pos(b: Seq<u8>) -> Option<(Pos, Seq<u8>)> {
    match spec_take_u32(b) {
        Some((x, r1)) => match spec_take_u32(r1) {
            Some((y, r2)) => Some((Pos { x, y }, r2)),
            None => None,
        },
        None => None,
    }
}

/// A position encoded in front of anything is consumed back intact.
pub proof fn lemma_take_pos(p: Pos, rest: Seq<u8>)
    ensures
        spec_take_pos(spec_pos(p) + rest) == Some((p, rest)),
{
    assert(spec_pos(p) + rest =~= spec_u32_le(p.x) + (spec_u32_le(p.y) + rest));
    lemma_take_u32(p.x, spec_u32_le(p.y) + rest);
    lemma_take_u32(p.y, rest);
}

/// Appends the encoding of a position.
fn put_pos(out: &mut Vec<u8>, p: Pos)
    ensures
        final(out)@ == old(out)@ + spec_pos(p),
{
    put_u32(out, p.x);
    put_u32(out, p.y);
    assert(out@ =~= old(out)@ + spec_pos(p));
}

/// Reads a position at byte offset `i`, advancing the cursor.
fn get_pos(b: &[u8], i: usize) -> (r: Option<(Pos, usize)>)
    requires
        i <= b@.len(),
    ensures
        match r {
            Some((p, j)) => {
                &&& spec_take_pos(b@.skip(i as int)) == Some((p, b@.skip(j as int)))
                &&& i < j <= b@.len()
            },
            None => spec_take_pos(b@.skip(i as int)) is None,
        },
{
    let (x, j1) = match get_u32(b, i) {
        Some(p) => p,
        None => { return None; },
    };
    let (y, j2) = match get_u32(b, j1) {
        Some(p) => p,
        None => { return None; },
    };
    Some((Pos { x, y }, j2))
}

/// The bytes of one snapshot entry: entity id, position, visual kind.
pub open spec fn spec_island(e: (u64, Pos, Art)) -> Seq<u8> {
    spec_u64_le(e.0) + spec_pos(e.1) + seq![spec_art(e.2)]
}

/// The bytes of the entries of a snapshot list, in order.
pub open spec fn spec_island_elems(s: Seq<(u64, Pos, Art)>) -> Seq<u8>
    decreases s.len(),
{
    if s.len() == 0 {
        Seq::empty()
    } else {
        spec_island(s[0]) + spec_island_elems(s.skip(1))
    }
}

/// The bytes of a snapshot list: its entry count, then its entries.
pub open spec fn spec_islands(s: Seq<(u64, Pos, Art)>) -> Seq<u8> {
    spec_u32_le(s.len() as u32) + spec_island_elems(s)
}

/// Consumes one snapshot entry from the front of `b`.
pub open spec fn spec_take_island(b: Seq<u8>) -> Option<((u64, Pos, Art), Seq<u8>)> {
    match spec_take_u64(b) {
        Some((id, r1)) => match spec_take_pos(r1) {
            Some((p, r2)) => match spec_take_art(r2) {
                Some((a, r3)) => Some(((id, p, a), r3)),
                None => None,
            },
            None => None,
        },
        None => None,
    }
}

/// Consumes exactly `n` snapshot entries from the front of `b`.
pub open spec fn spec_take_island_elems(n: nat, b: Seq<u8>) -> Option<
    (Seq<(u64, Pos, Art)>, Seq<u8>),
>
    decreases n,
{
    if n == 0 {
        Some((Seq::empty(), b))
    } else {
        match spec_take_island(b) {
            Some((e, rest)) => match spec_take_island_elems((n - 1) as nat, rest) {
                Some((es, rest2)) => Some((seq![e] + es, rest2)),
                None => None,
            },
            None => None,
        }
    }
}

/// Consumes a length-prefixed snapshot list from the front of `b`.
pub open spec fn spec_take_islands(b: Seq<u8>) -> Option<(Seq<(u64, Pos, Art)>, Seq<u8>)> {
    match spec_take_u32(b) {
        Some((n, rest)) => spec_take_island_elems(n as nat, rest),
        None => None,
    }
}

/// One snapshot entry encoded in front of anything is consumed back intact.
pub proof fn lemma_take_island(e: (u64, Pos, Art), rest: Seq<u8>)
    ensures
        spec_take_island(spec_island(e) + rest) == Some((e, rest)),
{
    assert(spec_island(e) + rest =~= spec_u64_le(e.0) + (spec_pos(e.1) + (seq![spec_art(e.2)]
        + rest)));
    lemma_take_u64(e.0, spec_pos(e.1) + (seq![spec_art(e.2)] + rest));
    lemma_take_pos(e.1, seq![spec_art(e.2)] + rest);
    lemma_take_art(e.2, rest);
}

/// Snapshot entries encoded in front of anything are consumed back intact.
#[verifier::rlimit(50)]
pub proof fn lemma_take_island_elems(s: Seq<(u64, Pos, Art)>, rest: Seq<u8>)
    ensures
        spec_take_island_elems(s.len(), spec_island_elems(s) + rest) == Some((s, rest)),
    decreases s.len(),
{
    if s.len() == 0 {
        assert(spec_island_elems(s) + rest =~= rest);
        assert(s =~= Seq::<(u64, Pos, Art)>::empty());
    } else {
        lemma_take_island_elems(s.skip(1), rest);
        assert(spec_island_elems(s) + rest =~= spec_island(s[0]) + (spec_island_elems(s.skip(1))
            + rest));
        lemma_take_island(s[0], spec_island_elems(s.skip(1)) + rest);
        assert(seq![s[0]] + s.skip(1) =~= s);
    }
}

/// A snapshot list encoded in front of anything is consumed back intact.
pub proof fn lemma_take_islands(s: Seq<(u64, Pos, Art)>, rest: Seq<u8>)
    requires
        s.len() <= u32::MAX,
    ensures
        spec_take_islands(spec_islands(s) + rest) == Some((s, rest)),
{
    assert(spec_islands(s) + rest =~= spec_u32_le(s.len() as u32) + (spec_island_elems(s)
        + rest));
    lemma_take_u32(s.len() as u32, spec_island_elems(s) + rest);
    lemma_take_island_elems(s, rest);
    assert((s.len() as u32) as nat == s.len());
}

/// Encoding one more snapshot entry appends its bytes.
#[verifier::rlimit(50)]
proof fn lemma_island_snoc(s: Seq<(u64, Pos, Art)>, e: (u64, Pos, Art))
    ensures
        spec_island_elems(s.push(e)) == spec_island_elems(s) + spec_island(e),
    decreases s.len(),
{
    if s.len() == 0 {
        assert(s.push(e)[0] == e);
        assert(s.push(e).skip(1) =~= Seq::<(u64, Pos, Art)>::empty());
        assert(spec_island_elems(s.push(e)) == spec_island(s.push(e)[0]) + spec_island_elems(
            s.push(e).skip(1),
        ));
        assert(spec_island_elems(s.push(e).skip(1)) == Seq::<u8>::empty());
        assert(spec_island_elems(s) == Seq::<u8>::empty());
        assert(spec_island_elems(s.push(e)) =~= spec_island_elems(s) + spec_island(e));
    } else {
        assert(s.push(e)[0] == s[0]);
        assert(s.push(e).skip(1) =~= s.skip(1).push(e));
        lemma_island_snoc(s.skip(1), e);
        assert(spec_island_elems(s.push(e)) == spec_island(s.push(e)[0]) + spec_island_elems(
            s.push(e).skip(1),
        ));
        assert(spec_island_elems(s.push(e).skip(1)) == spec_island_elems(s.skip(1).push(e)));
        assert(spec_island_elems(s.push(e)) =~= spec_island_elems(s) + spec_island(e));
    }
}

/// Appends the byte tag of a visual kind.
fn put_art(out: &mut Vec<u8>, a: Art)
    ensures
        final(out)@ == old(out)@ + seq![spec_art(a)],
{
    match a {
        Art::Island => out.push(0u8),
        Art::Vase => out.push(1u8),
    }
    assert(out@ =~= old(out)@ + seq![spec_art(a)]);
}

/// Reads a visual kind at byte offset `i`, advancing the cursor.
fn get_art(b: &[u8], i: usize) -> (r: Option<(Art, usize)>)
    requires
        i <= b@.len(),
    ensures
        match r {
            Some((a, j)) => {
                &&& spec_take_art(b@.skip(i as int)) == Some((a, b@.skip(j as int)))
                &&& i < j <= b@.len()
            },
            None => spec_take_art(b@.skip(i as int)) is None,
        },
{
    if i < b.len() {
        proof {
            assert(b@.skip(i as int).skip(1) =~= b@.skip(i + 1));
        }
        if b[i] == 0 {
            Some((Art::Island, i + 1))
        } else if b[i] == 1 {
            Some((Art::Vase, i + 1))
        } else {
            None
        }
    } else {
        None
    }
}

/// Appends the encoding of a snapshot list.
fn put_islands(out: &mut Vec<u8>, s: &Vec<(u64, Pos, Art)>)
    requires
        s@.len() <= u32::MAX,
    ensures
        final(out)@ == old(out)@ + spec_islands(s@),
{
    let n = s.len();
    put_u32(out, n as u32);
    let mut k: usize = 0;
    while k < n
        invariant
            n == s@.len(),
            n <= u32::MAX,
            k <= n,
            out@ == old(out)@ + spec_u32_le(n as u32) + spec_island_elems(s@.take(k as int)),
        decreases n - k,
    {
        let (id, p, a) = s[k];
        put_u64(out, id);
        put_pos(out, p);
        put_art(out, a);
        proof {
            lemma_island_snoc(s@.take(k as int), s@[k as int]);
            assert(s@.take(k as int).push(s@[k as int]) =~= s@.take(k + 1 as int));
        }
        k = k + 1;
    }
    proof {
        assert(s@.take(n as int) =~= s@);
    }
}

/// Reads a length-prefixed snapshot list at byte offset `i`, advancing the
/// cursor.
fn get_islands(b: &[u8], i: usize) -> (r: Option<(Vec<(u64, Pos, Art)>, usize)>)
    requires
        i <= b@.len(),
    ensures
        match r {
            Some((s, j)) => {
                &&& spec_take_islands(b@.skip(i as int)) == Some((s@, b@.skip(j as int)))
                &&& i < j <= b@.len()
                &&& s@.len() <= u32::MAX
            },
            None => spec_take_islands(b@.skip(i as int)) is None,
        },
{
    let (n, mut j) = match get_u32(b, i) {
        Some(p) => p,
        None => { return None; },
    };
    let mut s: Vec<(u64, Pos, Art)> = Vec::new();
    let mut k: u32 = 0;
    while k < n
        invariant
            i + 4 <= j <= b@.len(),
            k <= n,
            s@.len() == k,
            spec_take_u32(b@.skip(i as int)) == Some((n, b@.skip(i + 4))),
            match spec_take_island_elems((n - k) as nat, b@.skip(j as int)) {
                Some(p) => spec_take_island_elems(n as nat, b@.skip(i + 4)) == Some(
                    (s@ + p.0, p.1),
                ),
                None => spec_take_island_elems(n as nat, b@.skip(i + 4)) is None,
            },
        decreases n - k,
    {
        let ghost cur = b@.skip(j as int);
        let (id, j1) = match get_u64(b, j) {
            Some(p) => p,
            None => {
                proof {
                    assert(spec_take_island(cur) is None);
                }
                return None;
            },
        };
        let (p, j2) = match get_pos(b, j1) {
            Some(p) => p,
            None => {
                proof {
                    assert(spec_take_island(cur) is None);
                }
                return None;
            },
        };
        let (a, j3) = match get_art(b, j2) {
            Some(p) => p,
            None => {
                proof {
                    assert(spec_take_island(cur) is None);
                }
                return None;
            },
        };
        proof {
            let m = (n - k) as nat;
            assert(spec_take_island(cur) == Some(((id, p, a), b@.skip(j3 as int))));
            match spec_take_island_elems((m - 1) as nat, b@.skip(j3 as int)) {
                Some(q) => {
                    assert(spec_take_island_elems(m, cur) == Some(
                        (seq![(id, p, a)] + q.0, q.1),
                    ));
                    assert(s@.push((id, p, a)) + q.0 =~= s@ + (seq![(id, p, a)] + q.0));
                },
                None => {
                    assert(spec_take_island_elems(m, cur) is None);
                },
            }
        }
        s.push((id, p, a));
        j = j3;
        k = k + 1;
    }
    proof {
        assert(spec_take_island_elems(0, b@.skip(j as int)) == Some(
            (Seq::<(u64, Pos, Art)>::empty(), b@.skip(j as int)),
        ));
        assert(s@ + Seq::<(u64, Pos, Art)>::empty() =~= s@);
    }
    Some((s, j))
}

/// Whether a message value fits the wire format's length prefixes.
pub open spec fn msg_view_wf(v: crate::msg::MsgView) -> bool {
    match v {
        crate::msg::MsgView::Chat(s) => s.len() <= u32::MAX,
        crate::msg::MsgView::WorldJoin(isl, _your, name, _tick) => isl.len() <= u32::MAX
            && name.len() <= u32::MAX,
        _ => true,
    }
}

/// Whether this message fits the wire format's length prefixes.
pub fn fits_wire(m: &Message) -> (r: bool)
    ensures
        r == msg_view_wf(m@),
{
    match m {
        Message::Chat(c) => c.0.as_str().unicode_len() <= 0xFFFF_FFFFusize,
        Message::WorldJoin(w) => w.islands.len() <= 0xFFFF_FFFFusize
            && w.world_name.as_str().unicode_len() <= 0xFFFF_FFFFusize,
        _ => true,
    }
}

/// The full encoding of a message value: its kind tag, then its fields.
pub open spec fn spec_encode(v: crate::msg::MsgView) -> Seq<u8> {
    match v {
        crate::msg::MsgView::Heartbeat => seq![0u8],
        crate::msg::MsgView::Chat(s) => seq![1u8] + spec_string(s),
        crate::msg::MsgView::Move(m) => seq![2u8] + spec_u64_le(m.id) + spec_u32_le(m.tick)
            + spec_pos(m.pos),
        crate::msg::MsgView::EntEvent(EntEvent::Spawn(id, pos, art)) => seq![3u8, 0u8]
            + spec_u64_le(id) + spec_pos(pos) + seq![spec_art(art)],
        crate::msg::MsgView::EntEvent(EntEvent::Despawn(id)) => seq![3u8, 1u8] + spec_u64_le(
            id,
        ),
        crate::msg::MsgView::WorldJoin(isl, your, name, tick) => seq![4u8] + spec_islands(isl)
            + spec_u64_le(your) + spec_string(name) + spec_u32_le(tick),
    }
}

/// Consumes one message from the front of `b`.
pub open spec fn spec_take_message(b: Seq<u8>) -> Option<(crate::msg::MsgView, Seq<u8>)> {
    if b.len() < 1 {
        None
    } else {
        let tag = b[0];
        let r = b.skip(1);
        if tag == 0u8 {
            Some((crate::msg::MsgView::Heartbeat, r))
        } else if tag == 1u8 {
            match spec_take_string(r) {
                Some((s, r2)) => Some((crate::msg::MsgView::Chat(s), r2)),
                None => None,
            }
        } else if tag == 2u8 {
            match spec_take_u64(r) {
                Some((id, r2)) => match spec_take_u32(r2) {
                    Some((tick, r3)) => match spec_take_pos(r3) {
                        Some((pos, r4)) => Some(
                            (crate::msg::MsgView::Move(Move { id, tick, pos }), r4),
                        ),
                        None => None,
                    },
                    None => None,
                },
                None => None,
            }
        } else if tag == 3u8 {
            if r.len() < 1 {
                None
            } else if r[0] == 0u8 {
                match spec_take_u64(r.skip(1)) {
                    Some((id, r2)) => match spec_take_pos(r2) {
                        Some((pos, r3)) => match spec_take_art(r3) {
                            Some((art, r4)) => Some(
                                (
                                    crate::msg::MsgView::EntEvent(
                                        EntEvent::Spawn(id, pos, art),
                                    ),
                                    r4,
                                ),
                            ),
                            None => None,
                        },
                        None => None,
                    },
                    None => None,
                }
            } else if r[0] == 1u8 {
                match spec_take_u64(r.skip(1)) {
                    Some((id, r2)) => Some(
                        (crate::msg::MsgView::EntEvent(EntEvent::Despawn(id)), r2),
                    ),
                    None => None,
                }
            } else {
                None
            }
        } else if tag == 4u8 {
            match spec_take_islands(r) {
                Some((isl, r2)) => match spec_take_u64(r2) {
                    Some((your, r3)) => match spec_take_string(r3) {
                        Some((name, r4)) => match spec_take_u32(r4) {
                            Some((tick, r5)) => Some(
                                (crate::msg::MsgView::WorldJoin(isl, your, name, tick), r5),
                            ),
                            None => None,
                        },
                        None => None,
                    },
                    None => None,
                },
                None => None,
            }
        } else {
            None
        }
    }
}

/// The decoding of a whole datagram payload: one message, nothing left over.
pub open spec fn spec_decode(b: Seq<u8>) -> Option<crate::msg::MsgView> {
    match spec_take_message(b) {
        Some((v, rest)) => if rest.len() == 0 {
            Some(v)
        } else {
            None
        },
        None => None,
    }
}

/// One message arm: a heartbeat encoding is consumed back intact.
proof fn lemma_take_message_heartbeat(rest: Seq<u8>)
    ensures
        spec_take_message(spec_encode(crate::msg::MsgView::Heartbeat) + rest) == Some(
            (crate::msg::MsgView::Heartbeat, rest),
        ),
{
    let b = spec_encode(crate::msg::MsgView::Heartbeat) + rest;
    assert(b[0] == 0u8);
    assert(b.skip(1) =~= rest);
}

/// One message arm: a chat encoding is consumed back intact.
proof fn lemma_take_message_chat(s: Seq<char>, rest: Seq<u8>)
    requires
        s.len() <= u32::MAX,
    ensures
        spec_take_message(spec_encode(crate::msg::MsgView::Chat(s)) + rest) == Some(
            (crate::msg::MsgView::Chat(s), rest),
        ),
{
    let b = spec_encode(crate::msg::MsgView::Chat(s)) + rest;
    assert(b[0] == 1u8);
    assert(b.skip(1) =~= spec_string(s) + rest);
    lemma_take_string(s, rest);
}

/// One message arm: a move encoding is consumed back intact.
proof fn lemma_take_message_move(m: Move, rest: Seq<u8>)
    ensures
        spec_take_message(spec_encode(crate::msg::MsgView::Move(m)) + rest) == Some(
            (crate::msg::MsgView::Move(m), rest),
        ),
{
    let b = spec_encode(crate::msg::MsgView::Move(m)) + rest;
    assert(b[0] == 2u8);
    assert(b.skip(1) =~= spec_u64_le(m.id) + (spec_u32_le(m.tick) + (spec_pos(m.pos) + rest)));
    lemma_take_u64(m.id, spec_u32_le(m.tick) + (spec_pos(m.pos) + rest));
    lemma_take_u32(m.tick, spec_pos(m.pos) + rest);
    lemma_take_pos(m.pos, rest);
}

/// One message arm: an entity event encoding is consumed back intact.
#[verifier::rlimit(50)]
proof fn lemma_take_message_ent(e: EntEvent, rest: Seq<u8>)
    ensures
        spec_take_message(spec_encode(crate::msg::MsgView::EntEvent(e)) + rest) == Some(
            (crate::msg::MsgView::EntEvent(e), rest),
        ),
{
    let b = spec_encode(crate::msg::MsgView::EntEvent(e)) + rest;
    match e {
        EntEvent::Spawn(id, pos, art) => {
            assert(b[0] == 3u8);
            assert(b.skip(1)[0] == 0u8);
            assert(b.skip(1).skip(1) =~= spec_u64_le(id) + (spec_pos(pos) + (seq![
                spec_art(art)] + rest)));
            lemma_take_u64(id, spec_pos(pos) + (seq![spec_art(art)] + rest));
            lemma_take_pos(pos, seq![spec_art(art)] + rest);
            lemma_take_art(art, rest);
        },
        EntEvent::Despawn(id) => {
            assert(b[0] == 3u8);
            assert(b.skip(1)[0] == 1u8);
            assert(b.skip(1).skip(1) =~= spec_u64_le(id) + rest);
            lemma_take_u64(id, rest);
        },
    }
}

/// One message arm: a join snapshot encoding is consumed back intact.
#[verifier::rlimit(50)]
proof fn lemma_take_message_join(
    isl: Seq<(u64, Pos, Art)>,
    your: u64,
    name: Seq<char>,
    tick: u32,
    rest: Seq<u8>,
)
    requires
        isl.len() <= u32::MAX,
        name.len() <= u32::MAX,
    ensures
        spec_take_message(spec_encode(crate::msg::MsgView::WorldJoin(isl, your, name, tick))
            + rest) == Some((crate::msg::MsgView::WorldJoin(isl, your, name, tick), rest)),
{
    let b = spec_encode(crate::msg::MsgView::WorldJoin(isl, your, name, tick)) + rest;
    assert(b[0] == 4u8);
    assert(b.skip(1) =~= spec_islands(isl) + (spec_u64_le(your) + (spec_string(name)
        + (spec_u32_le(tick) + rest))));
    lemma_take_islands(isl, spec_u64_le(your) + (spec_string(name) + (spec_u32_le(tick)
        + rest)));
    lemma_take_u64(your, spec_string(name) + (spec_u32_le(tick) + rest));
    lemma_take_string(name, spec_u32_le(tick) + rest);
    lemma_take_u32(tick, rest);
}

/// A message encoded in front of anything is consumed back intact.
pub proof fn lemma_take_message(v: crate::msg::MsgView, rest: Seq<u8>)
    requires
        msg_view_wf(v),
    ensures
        spec_take_message(spec_encode(v) + rest) == Some((v, rest)),
{
    match v {
        crate::msg::MsgView::Heartbeat => lemma_take_message_heartbeat(rest),
        crate::msg::MsgView::Chat(s) => lemma_take_message_chat(s, rest),
        crate::msg::MsgView::Move(m) => lemma_take_message_move(m, rest),
        crate::msg::MsgView::EntEvent(e) => lemma_take_message_ent(e, rest),
        crate::msg::MsgView::WorldJoin(isl, your, name, tick) => lemma_take_message_join(
            isl,
            your,
            name,
            tick,
            rest,
        ),
    }
}

/// Encoding a message and decoding the bytes yields the message back: the
/// codec never confuses kinds, drops a field, or alters a value.
pub proof fn lemma_round_trip(v: crate::msg::MsgView)
    requires
        msg_view_wf(v),
    ensures
        spec_decode(spec_encode(v)) == Some(v),
{
    lemma_take_message(v, Seq::empty());
    assert(spec_encode(v) + Seq::<u8>::empty() =~= spec_encode(v));
}

/// Encodes a message into a fresh byte vector.
pub fn encode(m: &Message) -> (r: Vec<u8>)
    requires
        msg_view_wf(m@),
    ensures
        r@ == spec_encode(m@),
{
    let mut out: Vec<u8> = Vec::new();
    match m {
        Message::Heartbeat(_) => {
            out.push(0u8);
            assert(out@ =~= spec_encode(m@));
        },
        Message::Chat(c) => {
            out.push(1u8);
            put_string(&mut out, &c.0);
            assert(out@ =~= spec_encode(m@));
        },
        Message::Move(mv) => {
            out.push(2u8);
            put_u64(&mut out, mv.id);
            put_u32(&mut out, mv.tick);
            put_pos(&mut out, mv.pos);
            assert(out@ =~= spec_encode(m@));
        },
        Message::EntEvent(e) => match e {
            EntEvent::Spawn(id, pos, art) => {
                out.push(3u8);
                out.push(0u8);
                put_u64(&mut out, *id);
                put_pos(&mut out, *pos);
                put_art(&mut out, *art);
                assert(out@ =~= spec_encode(m@));
            },
            EntEvent::Despawn(id) => {
                out.push(3u8);
                out.push(1u8);
                put_u64(&mut out, *id);
                assert(out@ =~= spec_encode(m@));
            },
        },
        Message::WorldJoin(w) => {
            out.push(4u8);
            put_islands(&mut out, &w.islands);
            put_u64(&mut out, w.your_island);
            put_string(&mut out, &w.world_name);
            put_u32(&mut out, w.tick);
            assert(out@ =~= spec_encode(m@));
        },
    }
    out
}

/// Decodes one whole datagram payload; malformed or oversized input, an
/// unknown tag, or trailing bytes yield nothing.
#[verifier::rlimit(80)]
pub fn decode(b: &[u8]) -> (r: Option<Message>)
    ensures
        match r {
            Some(m) => spec_decode(b@) == Some(m@) && msg_view_wf(m@),
            None => spec_decode(b@) is None,
        },
{
    if b.len() < 1 {
        return None;
    }
    proof {
        assert(b@.skip(0) =~= b@);
        assert(b@.skip(0).skip(1) =~= b@.skip(1));
    }
    let tag = b[0];
    if tag == 0 {
        if b.len() == 1 {
            Some(Message::Heartbeat(Heartbeat))
        } else {
            None
        }
    } else if tag == 1 {
        let (s, j) = match get_string(b, 1) {
            Some(p) => p,
            None => { return None; },
        };
        if j == b.len() {
            proof {
                assert(b@.skip(j as int).len() == 0);
            }
            Some(Message::Chat(Chat(s)))
        } else {
            None
        }
    } else if tag == 2 {
        let (id, j1) = match get_u64(b, 1) {
            Some(p) => p,
            None => { return None; },
        };
        let (tick, j2) = match get_u32(b, j1) {
            Some(p) => p,
            None => { return None; },
        };
        let (pos, j3) = match get_pos(b, j2) {
            Some(p) => p,
            None => { return None; },
        };
        if j3 == b.len() {
            proof {
                assert(b@.skip(j3 as int).len() == 0);
            }
            Some(Message::Move(Move { id, tick, pos }))
        } else {
            None
        }
    } else if tag == 3 {
        if b.len() < 2 {
            return None;
        }
        proof {
            assert(b@.skip(1)[0] == b@[1]);
            assert(b@.skip(1).skip(1) =~= b@.skip(2));
        }
        let sub = b[1];
        if sub == 0 {
            let (id, j1) = match get_u64(b, 2) {
                Some(p) => p,
                None => { return None; },
            };
            let (pos, j2) = match get_pos(b, j1) {
                Some(p) => p,
                None => { return None; },
            };
            let (art, j3) = match get_art(b, j2) {
                Some(p) => p,
                None => { return None; },
            };
            if j3 == b.len() {
                proof {
                    assert(b@.skip(j3 as int).len() == 0);
                }
                Some(Message::EntEvent(EntEvent::Spawn(id, pos, art)))
            } else {
                None
            }
        } else if sub == 1 {
            let (id, j1) = match get_u64(b, 2) {
                Some(p) => p,
                None => { return None; },
            };
            if j1 == b.len() {
                proof {
                    assert(b@.skip(j1 as int).len() == 0);
                }
                Some(Message::EntEvent(EntEvent::Despawn(id)))
            } else {
                None
            }
        } else {
            None
        }
    } else if tag == 4 {
        let (islands, j1) = match get_islands(b, 1) {
            Some(p) => p,
            None => { return None; },
        };
        let (your_island, j2) = match get_u64(b, j1) {
            Some(p) => p,
            None => { return None; },
        };
        let (world_name, j3) = match get_string(b, j2) {
            Some(p) => p,
            None => { return None; },
        };
        let (tick, j4) = match get_u32(b, j3) {
            Some(p) => p,
            None => { return None; },
        };
        if j4 == b.len() {
            proof {
                assert(b@.skip(j4 as int).len() == 0);
            }
            Some(Message::WorldJoin(WorldJoin { islands, your_island, world_name, tick }))
        } else {
            None
        }
    } else {
        None
    }
}

} // verus!


