//! Pairing codes, device tokens and command ids, derived from clock entropy.

use vstd::prelude::*;
use crate::text::push_char;

verus! {

/// Relies on `SystemTime::now` and `duration_since(UNIX_EPOCH)`: nanoseconds
/// since the epoch, or 0 when the clock reads earlier than the epoch. Nothing
/// is known of the value.
#[verifier::external_body]
pub(crate) fn clock_nanos() -> (r: u128) {
    std::time::SystemTime::now().duration_since(std::time::UNIX_EPOCH).map(|d| d.as_nanos()).unwrap_or(0)
}

/// Whole seconds in `n` nanoseconds, capped at `i64::MAX`.
pub fn secs_of_nanos(n: u128) -> (r: i64)
    ensures
        r as int == if n / 1_000_000_000 > 0x7fff_ffff_ffff_ffff {
            0x7fff_ffff_ffff_ffff
        } else {
            (n / 1_000_000_000) as int
        },
{
    let secs = n / 1_000_000_000;
    if secs > 0x7fff_ffff_ffff_ffff {
        0x7fff_ffff_ffff_ffff
    } else {
        secs as i64
    }
}

/// Whole seconds since the epoch: the clock reading in nanoseconds, read
/// as seconds by `secs_of_nanos`.
pub fn now_unix() -> (r: i64)
    ensures
        r >= 0,
{
    secs_of_nanos(clock_nanos())
}

/// Sixteen bits folded from clock nanoseconds.
pub fn rand_u16(t: u128) -> (r: u16)
    ensures
        r == (((t >> 16u128) ^ t) % 0x10000) as u16,
{
    (((t >> 16u128) ^ t) % 0x10000) as u16
}

pub const CODE_LEN: usize = 6;

/// The 32 symbols of a pairing code: `A`..`Z` without `I` and `O`, then
/// `2`..`9`; no two are easily confused when read aloud or copied.
pub open spec fn code_symbol(k: int) -> char {
    if k < 8 {
        (('A' as u32) + k) as char
    } else if k < 13 {
        (('J' as u32) + (k - 8)) as char
    } else if k < 24 {
        (('P' as u32) + (k - 13)) as char
    } else {
        (('2' as u32) + (k - 24)) as char
    }
}

/// Membership in the code alphabet.
pub open spec fn is_code_char(c: char) -> bool {
    (('A' <= c && c <= 'Z') && c != 'I' && c != 'O') || ('2' <= c && c <= '9')
}

/// Which symbol stands at position `i` of the code drawn from `t`.
pub open spec fn code_index(t: u128, i: int) -> int {
    (((t >> (8 * i) as u128) ^ (t >> (4 * i + 3) as u128)) % 32) as int
}

pub open spec fn code_for(t: u128) -> Seq<char> {
    Seq::new(6, |i: int| code_symbol(code_index(t, i)))
}

/// Every symbol index names a character of the alphabet, distinct indices
/// name distinct characters, and every character of the alphabet is named:
/// the alphabet has exactly 32 symbols.
pub proof fn lemma_code_alphabet()
    ensures
        forall|k: int| 0 <= k < 32 ==> is_code_char(#[trigger] code_symbol(k)),
        forall|k: int, l: int|
            0 <= k < 32 && 0 <= l < 32 && k != l ==> #[trigger] code_symbol(k) != #[trigger] code_symbol(l),
        forall|c: char| is_code_char(c) ==> exists|k: int| 0 <= k < 32 && #[trigger] code_symbol(k) == c,
{
    assert forall|c: char| is_code_char(c) implies exists|k: int| 0 <= k < 32 && #[trigger] code_symbol(k) == c by {
        let u = c as u32;
        if 'A' <= c && c <= 'H' {
            assert(code_symbol(u - 65) == c);
        } else if 'J' <= c && c <= 'N' {
            assert(code_symbol(u - 74 + 8) == c);
        } else if 'P' <= c && c <= 'Z' {
            assert(code_symbol(u - 80 + 13) == c);
        } else {
            assert(code_symbol(u - 50 + 24) == c);
        }
    }
}

fn symbol(k: u8) -> (r: char)
    requires
        k < 32,
    ensures
        r == code_symbol(k as int),
{
    if k < 8 {
        (65u8 + k) as char
    } else if k < 13 {
        (74u8 + (k - 8)) as char
    } else if k < 24 {
        (80u8 + (k - 13)) as char
    } else {
        (50u8 + (k - 24)) as char
    }
}

/// A six-symbol pairing code drawn from clock nanoseconds.
pub fn generate_code(t: u128) -> (r: String)
    ensures
        r@ == code_for(t),
        r@.len() == CODE_LEN,
        forall|i: int| 0 <= i < r@.len() ==> is_code_char(#[trigger] r@[i]),
{
    let mut code = String::new();
    let mut i: usize = 0;
    while i < CODE_LEN
        invariant
            i <= CODE_LEN,
            code@ == code_for(t).subrange(0, i as int),
        decreases CODE_LEN - i,
    {
        let k = ((t >> (8 * i) as u128) ^ (t >> (4 * i + 3) as u128)) % 32;
        let c = symbol(k as u8);
        push_char(&mut code, c);
        i = i + 1;
        assert(code@ =~= code_for(t).subrange(0, i as int));
    }
    assert(code@ =~= code_for(t));
    proof {
        lemma_code_alphabet();
    }
    code
}

/// The lower-case hexadecimal digit of `d < 16`.
pub open spec fn hex_digit(d: int) -> char {
    if d < 10 {
        (('0' as u32) + d) as char
    } else {
        (('a' as u32) + (d - 10)) as char
    }
}

pub open spec fn is_lower_hex(c: char) -> bool {
    ('0' <= c && c <= '9') || ('a' <= c && c <= 'f')
}

/// `v` written with exactly `k` hexadecimal digits (the low `4k` bits).
pub open spec fn hex_fixed(v: nat, k: nat) -> Seq<char>
    decreases k,
{
    if k == 0 {
        Seq::empty()
    } else {
        hex_fixed(v / 16, (k - 1) as nat).push(hex_digit((v % 16) as int))
    }
}

/// `v` in hexadecimal with no leading zeros (`0` for zero).
pub open spec fn hex_min(v: nat) -> Seq<char>
    decreases v,
{
    if v < 16 {
        seq![hex_digit(v as int)]
    } else {
        hex_min(v / 16).push(hex_digit((v % 16) as int))
    }
}

proof fn lemma_hex_fixed_digits(v: nat, k: nat)
    ensures
        hex_fixed(v, k).len() == k,
        forall|i: int| 0 <= i < k ==> is_lower_hex(#[trigger] hex_fixed(v, k)[i]),
    decreases k,
{
    if k > 0 {
        lemma_hex_fixed_digits(v / 16, (k - 1) as nat);
    }
}

fn digit(d: u64) -> (r: char)
    requires
        d < 16,
    ensures
        r == hex_digit(d as int),
{
    if d < 10 {
        (48u8 + d as u8) as char
    } else {
        (97u8 + (d as u8 - 10)) as char
    }
}

fn push_hex_fixed(out: &mut String, v: u64, k: usize)
    requires
        k <= 16,
    ensures
        final(out)@ == old(out)@ + hex_fixed(v as nat, k as nat),
    decreases k,
{
    if k > 0 {
        push_hex_fixed(out, v / 16, k - 1);
        push_char(out, digit(v % 16));
    }
    assert(final(out)@ =~= old(out)@ + hex_fixed(v as nat, k as nat));
}

fn push_hex_min(out: &mut String, v: u64)
    ensures
        final(out)@ == old(out)@ + hex_min(v as nat),
    decreases v,
{
    if v >= 16 {
        push_hex_min(out, v / 16);
    }
    push_char(out, digit(v % 16));
    assert(final(out)@ =~= old(out)@ + hex_min(v as nat));
}

pub const TOKEN_MIX: u128 = 0x5851F42D4C957F2D;

/// The `i`-th 64-bit block of the token drawn from `t`.
pub open spec fn token_block(t: u128, i: int) -> u64 {
    ((t >> (i * 16) as u128) ^ (vstd::wrapping::u128_specs::wrapping_mul(t, TOKEN_MIX)
        >> (i * 8) as u128)) as u64
}

pub open spec fn token_for(t: u128) -> Seq<char> {
    hex_fixed(token_block(t, 0) as nat, 16) + hex_fixed(token_block(t, 1) as nat, 16) + hex_fixed(
        token_block(t, 2) as nat,
        16,
    ) + hex_fixed(token_block(t, 3) as nat, 16)
}

/// A 64-character lower-case hexadecimal token drawn from clock nanoseconds.
pub fn generate_token(t: u128) -> (r: String)
    ensures
        r@ == token_for(t),
        r@.len() == 64,
        forall|i: int| 0 <= i < r@.len() ==> is_lower_hex(#[trigger] r@[i]),
{
    let mixed = t.wrapping_mul(TOKEN_MIX);
    let mut token = String::new();
    let mut i: usize = 0;
    while i < 4
        invariant
            i <= 4,
            mixed == vstd::wrapping::u128_specs::wrapping_mul(t, TOKEN_MIX),
            token@.len() == 16 * i,
            forall|j: int| 0 <= j < token@.len() ==> is_lower_hex(#[trigger] token@[j]),
            i == 0 ==> token@ == Seq::<char>::empty(),
            i == 1 ==> token@ == hex_fixed(token_block(t, 0) as nat, 16),
            i == 2 ==> token@ == hex_fixed(token_block(t, 0) as nat, 16) + hex_fixed(
                token_block(t, 1) as nat,
                16,
            ),
            i == 3 ==> token@ == hex_fixed(token_block(t, 0) as nat, 16) + hex_fixed(
                token_block(t, 1) as nat,
                16,
            ) + hex_fixed(token_block(t, 2) as nat, 16),
            i == 4 ==> token@ == token_for(t),
        decreases 4 - i,
    {
        let block = ((t >> (i * 16) as u128) ^ (mixed >> (i * 8) as u128)) as u64;
        proof {
            lemma_hex_fixed_digits(block as nat, 16);
        }
        push_hex_fixed(&mut token, block, 16);
        i = i + 1;
    }
    token
}

/// A command id: the time in hexadecimal, a dash, four hexadecimal digits of
/// entropy.
pub open spec fn command_id_for(now: u64, r: u16) -> Seq<char> {
    hex_min(now as nat) + seq!['-'] + hex_fixed(r as nat, 4)
}

pub fn generate_id(now: u64, r: u16) -> (id: String)
    ensures
        id@ == command_id_for(now, r),
{
    let mut id = String::new();
    push_hex_min(&mut id, now);
    push_char(&mut id, '-');
    push_hex_fixed(&mut id, r as u64, 4);
    assert(id@ =~= command_id_for(now, r));
    id
}

} // verus!
