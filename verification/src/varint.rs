//! The varint engine: LEB128 variable-length integers.
//!
//! A value is written low-order first in 7-bit groups, one byte per group;
//! every byte but the last carries the continuation bit `0x80`.  Encoding is
//! canonical (the fewest groups that represent the value).  Decoding at a
//! declared bit width `n` admits at most `n / 7 + 1` groups and bounds the
//! terminal group so that no input carries more significant bits than `n`
//! allows: stray bits beyond the width — for signed widths, bits that are
//! not the value's sign extension — are an overflow.

use vstd::arithmetic::div_mod::{
    lemma_div_decreases, lemma_div_pos_is_pos, lemma_fundamental_div_mod,
    lemma_mod_division_less_than_divisor,
};
use vstd::arithmetic::power2::{
    lemma2_to64, lemma2_to64_rest, lemma_pow2_adds, lemma_pow2_pos, lemma_pow2_strictly_increases,
    pow2,
};
use vstd::math::abs;
use vstd::prelude::*;

use tokio_util::bytes::BytesMut;

use crate::buffer::{buf_advance, buf_extend, buf_get, buf_len, buf_reserve, buf_view};
use crate::codec::{CodecError, Decode, Decoded};

verus! {

/// Whether a byte carries the continuation bit.
pub open spec fn is_cont(b: u8) -> bool {
    b >= 128
}

/// The integer whose base-128 digits are the low 7 bits of each byte,
/// low-order first.
pub open spec fn group_val(s: Seq<u8>) -> nat
    decreases s.len(),
{
    if s.len() == 0 {
        0
    } else {
        group_val(s.drop_last()) + (s.last() % 128) as nat * pow2((7 * (s.len() - 1)) as nat)
    }
}

/// The canonical unsigned LEB128 encoding of `v`.
pub open spec fn uleb_bytes(v: nat) -> Seq<u8>
    decreases v,
    via uleb_bytes_decreases
{
    if v < 128 {
        seq![v as u8]
    } else {
        seq![(v % 128 + 128) as u8] + uleb_bytes(v / 128)
    }
}

#[via_fn]
proof fn uleb_bytes_decreases(v: nat) {
    if v >= 128 {
        lemma_div_decreases(v as int, 128);
    }
}

/// The canonical signed LEB128 encoding of `v`: 7-bit groups of the two's
/// complement, until the rest is nothing but the emitted sign bit.
pub open spec fn sleb_bytes(v: int) -> Seq<u8>
    decreases abs(v),
    via sleb_bytes_decreases
{
    if -64 <= v < 64 {
        seq![(v % 128) as u8]
    } else {
        seq![(v % 128 + 128) as u8] + sleb_bytes(v / 128)
    }
}

#[via_fn]
proof fn sleb_bytes_decreases(v: int) {
    if !(-64 <= v < 64) {
        if v >= 64 {
            lemma_div_decreases(v, 128);
            lemma_div_pos_is_pos(v, 128);
        } else {
            lemma_fundamental_div_mod(v, 128);
            lemma_mod_division_less_than_divisor(v, 128);
        }
    }
}

/// Sign of a signed LEB128 encoding: bit 6 of its final group.
pub open spec fn sleb_sign(b: u8) -> bool {
    b % 128 >= 64
}

/// The signed value of the complete encoding `s` (its final byte terminal).
pub open spec fn sleb_val(s: Seq<u8>) -> int {
    if s.len() == 0 {
        0
    } else if sleb_sign(s.last()) {
        group_val(s) - pow2((7 * s.len()) as nat)
    } else {
        group_val(s) as int
    }
}

/// At width `n`, decoding admits at most this many groups.
pub open spec fn max_groups(n: nat) -> nat {
    n / 7 + 1
}

/// Decode an unsigned varint of width `n` from the front of `s`, groups
/// before index `i` already taken as continuations.  On the last permitted
/// group the byte must not exceed the `n % 7` bits that remain.
pub open spec fn uleb_dec(s: Seq<u8>, n: nat, i: nat) -> Decoded<nat>
    decreases max_groups(n) - i,
{
    if i >= max_groups(n) {
        Decoded::Fail(CodecError::Overflow(n as u8))
    } else if i >= s.len() {
        Decoded::NeedMore
    } else if i == n / 7 {
        if (s[i as int] as nat) >= pow2(n % 7) {
            Decoded::Fail(CodecError::Overflow(n as u8))
        } else {
            Decoded::Val(group_val(s.take(i as int + 1)), (i + 1) as nat)
        }
    } else if !is_cont(s[i as int]) {
        Decoded::Val(group_val(s.take(i as int + 1)), (i + 1) as nat)
    } else {
        uleb_dec(s, n, i + 1)
    }
}

/// Whether a terminal byte on the last permitted group of a signed width
/// carries the correct sign extension: with `k = n % 7` value bits left,
/// bits `k..=6` must all copy bit `k - 1`.
pub open spec fn sleb_last_ok(b: u8, k: nat) -> bool {
    (b as nat) / pow2(k) == if ((b as nat) / pow2((k - 1) as nat)) % 2 == 1 {
        (pow2((7 - k) as nat) - 1) as nat
    } else {
        0
    }
}

/// Decode a signed varint of width `n` from the front of `s`: as the
/// unsigned scan, but the last permitted group must be a correct sign
/// extension, and an early terminal group's bit 6 gives the sign.
pub open spec fn sleb_dec(s: Seq<u8>, n: nat, i: nat) -> Decoded<int>
    decreases max_groups(n) - i,
{
    if i >= max_groups(n) {
        Decoded::Fail(CodecError::Overflow(n as u8))
    } else if i >= s.len() {
        Decoded::NeedMore
    } else if i == n / 7 {
        if is_cont(s[i as int]) || !sleb_last_ok(s[i as int], n % 7) {
            Decoded::Fail(CodecError::Overflow(n as u8))
        } else {
            Decoded::Val(sleb_val(s.take(i as int + 1)), (i + 1) as nat)
        }
    } else if !is_cont(s[i as int]) {
        Decoded::Val(sleb_val(s.take(i as int + 1)), (i + 1) as nat)
    } else {
        sleb_dec(s, n, i + 1)
    }
}

/// The `n`-bit two's-complement pattern of a value in range.
pub open spec fn to_bits(v: int, n: nat) -> nat {
    if v >= 0 {
        v as nat
    } else {
        (v + pow2(n)) as nat
    }
}

/// The value an `n`-bit two's-complement pattern stands for.
pub open spec fn from_bits(u: nat, n: nat) -> int {
    if u < pow2((n - 1) as nat) {
        u as int
    } else {
        u - pow2(n)
    }
}

/// Values of `pow2` beyond what `lemma2_to64_rest` gives, as this module
/// needs them.
proof fn lemma_pow2_128()
    ensures
        pow2(120) == 0x1000000000000000000000000000000,
        pow2(121) == 0x2000000000000000000000000000000,
        pow2(126) == 0x40000000000000000000000000000000,
        pow2(127) == 0x80000000000000000000000000000000,
        pow2(128) == 0x100000000000000000000000000000000,
{
    lemma2_to64();
    lemma2_to64_rest();
    lemma_pow2_adds(64, 56);
    lemma_pow2_adds(64, 57);
    lemma_pow2_adds(64, 62);
    lemma_pow2_adds(64, 63);
    lemma_pow2_adds(64, 64);
}

/// The 128-bit two's-complement pattern of `x`.
pub fn i128_to_bits(x: i128) -> (u: u128)
    ensures
        u as nat == to_bits(x as int, 128),
{
    proof {
        lemma_pow2_128();
    }
    if x >= 0 {
        x as u128
    } else {
        u128::MAX - ((-1 - x) as u128)
    }
}

/// The unsigned LEB128 encoding of `x`.
pub fn uleb_vec(x: u128) -> (r: Vec<u8>)
    ensures
        r@ == uleb_bytes(x as nat),
{
    let mut r: Vec<u8> = Vec::new();
    let mut cur: u128 = x;
    loop
        invariant
            r@ + uleb_bytes(cur as nat) == uleb_bytes(x as nat),
        decreases cur,
    {
        let ghost pre = r@;
        if cur < 128 {
            r.push(cur as u8);
            proof {
                assert(r@ =~= pre + uleb_bytes(cur as nat));
                assert(r@ =~= uleb_bytes(x as nat));
            }
            return r;
        }
        r.push((cur % 128 + 128) as u8);
        proof {
            assert(uleb_bytes(cur as nat) == seq![(cur as nat % 128 + 128) as u8] + uleb_bytes(
                cur as nat / 128,
            ));
            assert(r@ + uleb_bytes((cur / 128) as nat) =~= pre + uleb_bytes(cur as nat));
            lemma_div_decreases(cur as int, 128);
        }
        cur = cur / 128;
    }
}

/// Append the unsigned LEB128 encoding of `x`.
pub fn put_uleb(out: &mut Vec<u8>, x: u128)
    ensures
        final (out)@ == old(out)@ + uleb_bytes(x as nat),
{
    let mut t = uleb_vec(x);
    out.append(&mut t);
}

/// The signed LEB128 encoding of `x`, computed on its two's-complement
/// pattern so that the 7-bit groups come out directly.
pub fn sleb_vec(x: i128) -> (r: Vec<u8>)
    ensures
        r@ == sleb_bytes(x as int),
{
    let mut r: Vec<u8> = Vec::new();
    let mut u: u128 = i128_to_bits(x);
    let ghost mut xv: int = x as int;
    proof {
        lemma_pow2_128();
    }
    loop
        invariant
            u as nat == to_bits(xv, 128),
            -pow2(127) <= xv < pow2(127),
            r@ + sleb_bytes(xv) == sleb_bytes(x as int),
        decreases abs(xv),
    {
        let ghost pre = r@;
        proof {
            lemma_pow2_128();
            // low 7 bits of the pattern are the Euclidean remainder of the value
            assert((u as nat) % 128 == (((xv % 128) + 128) % 128)) by {
                lemma_fundamental_div_mod(xv, 128);
                if xv < 0 {
                    assert(u as nat == xv + pow2(128));
                    assert(pow2(128) == 128 * pow2(121)) by {
                        lemma_pow2_adds(7, 121);
                        lemma2_to64();
                    }
                    assert((128 * (pow2(121) as int) + xv) % 128 == xv % 128) by {
                        vstd::arithmetic::div_mod::lemma_mod_multiples_vanish(
                            pow2(121) as int,
                            xv,
                            128,
                        );
                    }
                }
            }
            assert(((xv % 128) + 128) % 128 == xv % 128) by {
                lemma_mod_division_less_than_divisor(xv, 128);
            }
        }
        if u < 64 || u >= u128::MAX - 63 {
            // the rest of the value is nothing but the sign of this group
            proof {
                assert(u >= u128::MAX - 63 ==> xv < 0 && -64 <= xv);
                assert(u < 64 ==> 0 <= xv < 64);
            }
            let b: u8 = (u % 128) as u8;
            r.push(b);
            proof {
                assert(sleb_bytes(xv) == seq![(xv % 128) as u8]);
                assert(r@ =~= pre + sleb_bytes(xv));
                assert(r@ =~= sleb_bytes(x as int));
            }
            return r;
        }
        proof {
            assert(!(-64 <= xv < 64));
        }
        let b: u8 = (u % 128) as u8 + 128;
        r.push(b);
        // arithmetic shift right by 7 on the pattern: floor(xv / 128)
        let q: u128 = u / 128 + if u >= 0x8000_0000_0000_0000_0000_0000_0000_0000u128 {
            u128::MAX - (0x0200_0000_0000_0000_0000_0000_0000_0000u128 - 1)
        } else {
            0
        };
        proof {
            lemma_pow2_128();
            assert(0x8000_0000_0000_0000_0000_0000_0000_0000u128 as nat == pow2(127));
            assert(0x0200_0000_0000_0000_0000_0000_0000_0000u128 as nat == pow2(121));
            assert(u128::MAX as nat == (pow2(128) - 1) as nat);
            assert(pow2(128) == 128 * pow2(121)) by {
                lemma_pow2_adds(7, 121);
                lemma2_to64();
            }
            assert(pow2(128) == 2 * pow2(127)) by {
                lemma_pow2_adds(1, 127);
                lemma2_to64();
            }
            if xv >= 0 {
                assert(u as nat == xv);
                assert(q as nat == xv / 128) by {
                    lemma_div_pos_is_pos(xv, 128);
                }
                assert(xv / 128 < pow2(127)) by {
                    lemma_div_decreases(xv, 128);
                }
                assert(q as nat == to_bits(xv / 128, 128));
            } else {
                // xv = u - 2^128; floor((u - 2^128) / 128) = u / 128 - 2^121
                assert(u as nat == xv + pow2(128));
                assert(xv / 128 == (u as int) / 128 + (-(pow2(121) as int))) by {
                    vstd::arithmetic::div_mod::lemma_hoist_over_denominator(
                        u as int,
                        -(pow2(121) as int),
                        128,
                    );
                    assert(u as int + (-(pow2(121) as int)) * 128 == xv) by {
                        assert(pow2(128) == 128 * pow2(121));
                    }
                }
                assert((u as int) / 128 < pow2(121)) by {
                    assert((u as int) < 128 * pow2(121));
                    vstd::arithmetic::div_mod::lemma_multiply_divide_lt(
                        u as int,
                        128,
                        pow2(121) as int,
                    );
                }
                assert(xv / 128 < 0);
                assert(-pow2(127) <= xv / 128) by {
                    assert(u as nat >= pow2(127));
                    assert((u as int) / 128 >= (pow2(127) as int) / 128) by {
                        vstd::arithmetic::div_mod::lemma_div_is_ordered(
                            pow2(127) as int,
                            u as int,
                            128,
                        );
                    }
                    assert((pow2(127) as int) / 128 == pow2(120)) by {
                        assert(pow2(127) as int == 128 * (pow2(120) as int)) by {
                            lemma_pow2_adds(7, 120);
                            lemma2_to64();
                        }
                        vstd::arithmetic::div_mod::lemma_div_multiples_vanish(
                            pow2(120) as int,
                            128,
                        );
                    }
                    assert(pow2(120) + pow2(127) >= pow2(121)) by {
                        lemma_pow2_strictly_increases(121, 127);
                    }
                }
                assert(q as nat == xv / 128 + pow2(128)) by {
                    assert(q as nat == (u as nat) / 128 + pow2(128) - pow2(121));
                }
                assert(q as nat == to_bits(xv / 128, 128));
            }
            assert(sleb_bytes(xv) == seq![(xv % 128 + 128) as u8] + sleb_bytes(xv / 128));
            assert(r@ + sleb_bytes(xv / 128) =~= pre + sleb_bytes(xv));
            if xv >= 64 {
                lemma_div_decreases(xv, 128);
                lemma_div_pos_is_pos(xv, 128);
            } else {
                lemma_fundamental_div_mod(xv, 128);
                lemma_mod_division_less_than_divisor(xv, 128);
            }
        }
        u = q;
        proof {
            xv = xv / 128;
        }
    }
}

/// Append the signed LEB128 encoding of `x`.
pub fn put_sleb(out: &mut Vec<u8>, x: i128)
    ensures
        final (out)@ == old(out)@ + sleb_bytes(x as int),
{
    let mut t = sleb_vec(x);
    out.append(&mut t);
}


/// `2^k` for a group-sized exponent.
fn pow2_small(k: u8) -> (r: u8)
    requires
        k <= 7,
    ensures
        r as nat == pow2(k as nat),
{
    proof {
        lemma2_to64();
    }
    match k {
        0 => 1,
        1 => 2,
        2 => 4,
        3 => 8,
        4 => 16,
        5 => 32,
        6 => 64,
        _ => 128,
    }
}

/// Scan an unsigned varint of width `n` at the front of the buffer, without
/// consuming: the value and the byte count on success.
pub fn uleb_decode_raw(src: &BytesMut, n: u8) -> (r: Result<Option<(u128, usize)>, CodecError>)
    requires
        1 <= n <= 128,
    ensures
        ({
            let d = uleb_dec(buf_view(*src), n as nat, 0);
            match d {
                Decoded::NeedMore => r == Ok::<Option<(u128, usize)>, CodecError>(None),
                Decoded::Fail(e) => r == Err::<Option<(u128, usize)>, CodecError>(e),
                Decoded::Val(v, l) => v < pow2(n as nat) && 0 < l <= buf_view(*src).len() && r
                    == Ok::<Option<(u128, usize)>, CodecError>(Some((v as u128, l as usize))),
            }
        }),
{
    let ghost s = buf_view(*src);
    let len = buf_len(src);
    let max_i: usize = (n / 7) as usize;
    let mut i: usize = 0;
    let mut acc: u128 = 0;
    let mut mult: u128 = 1;
    proof {
        assert(s.take(0) =~= Seq::<u8>::empty());
        lemma2_to64();
    }
    loop
        invariant
            1 <= n <= 128,
            s == buf_view(*src),
            len == s.len(),
            max_i == n as nat / 7,
            i <= max_i,
            mult == pow2((7 * i) as nat),
            acc as nat == group_val(s.take(i as int)),
            (acc as nat) < mult,
            forall|j: int| 0 <= j < i ==> is_cont(s[j]),
            uleb_dec(s, n as nat, 0) == uleb_dec(s, n as nat, i as nat),
        decreases max_i - i,
    {
        proof {
            assert(7 * i <= 7 * max_i <= 126) by (nonlinear_arith)
                requires
                    i <= max_i,
                    max_i == n as nat / 7,
                    1 <= n <= 128,
            ;
        }
        if i >= len {
            return Ok(None);
        }
        let b = buf_get(src, i);
        proof {
            // the next group extends the accumulated value
            assert(s.take(i as int + 1).drop_last() =~= s.take(i as int));
            assert(s.take(i as int + 1).last() == s[i as int]);
            assert(group_val(s.take(i as int + 1)) == group_val(s.take(i as int)) + (s[i as int]
                % 128) as nat * pow2((7 * i) as nat));
            assert(pow2((7 * (i + 1)) as nat) == 128 * pow2((7 * i) as nat)) by {
                lemma_pow2_adds(7, (7 * i) as nat);
                lemma2_to64();
            }
            assert(acc as nat + (b % 128) as nat * (mult as nat) < 128 * (mult as nat)) by (
            nonlinear_arith)
                requires
                    (acc as nat) < mult as nat,
                    (b % 128) as nat <= 127,
            ;
            lemma_pow2_128();
        }
        if i == max_i {
            let k: u8 = n % 7;
            let p = pow2_small(k);
            proof {
                lemma_pow2_pos(k as nat);
                assert(pow2(k as nat) <= 64) by {
                    lemma2_to64();
                    if (k as nat) < 6 {
                        lemma_pow2_strictly_increases(k as nat, 6);
                    }
                }
            }
            let mask: u8 = p - 1;
            if b > mask {
                return Err(CodecError::Overflow(n));
            }
            proof {
                assert(b % 128 == b);
                assert(pow2((n % 7) as nat) * pow2((7 * max_i) as nat) == pow2(n as nat)) by {
                    lemma_pow2_adds((n % 7) as nat, (7 * max_i) as nat);
                    assert(n % 7 + 7 * (n as nat / 7) == n as nat);
                }
                assert(acc as nat + (b as nat) * (mult as nat) < pow2(n as nat)) by (
                nonlinear_arith)
                    requires
                        (acc as nat) < mult as nat,
                        (b as nat) < pow2((n % 7) as nat),
                        mult as nat == pow2((7 * max_i) as nat),
                        pow2((n % 7) as nat) * pow2((7 * max_i) as nat) == pow2(n as nat),
                ;
                assert(pow2(n as nat) <= pow2(128)) by {
                    if (n as nat) < 128 {
                        lemma_pow2_strictly_increases(n as nat, 128);
                    }
                }
                assert(uleb_dec(s, n as nat, i as nat) == Decoded::<nat>::Val(
                    group_val(s.take(i as int + 1)),
                    (i + 1) as nat,
                ));
            }
            return Ok(Some((acc + (b as u128) * mult, i + 1)));
        }
        if b < 128 {
            proof {
                assert(b % 128 == b);
                assert(pow2((7 * (i + 1)) as nat) <= pow2(126)) by {
                    assert(7 * (i + 1) <= 126) by (nonlinear_arith)
                        requires
                            i < max_i,
                            max_i == n as nat / 7,
                            1 <= n <= 128,
                    ;
                    if 7 * (i + 1) < 126 {
                        lemma_pow2_strictly_increases((7 * (i + 1)) as nat, 126);
                    }
                }
                assert(pow2((7 * (i + 1)) as nat) <= pow2(n as nat)) by {
                    assert(7 * (i + 1) <= n as nat) by (nonlinear_arith)
                        requires
                            i < max_i,
                            max_i == n as nat / 7,
                            1 <= n <= 128,
                    ;
                    if 7 * (i + 1) < n as nat {
                        lemma_pow2_strictly_increases((7 * (i + 1)) as nat, n as nat);
                    }
                }
                assert(uleb_dec(s, n as nat, i as nat) == Decoded::<nat>::Val(
                    group_val(s.take(i as int + 1)),
                    (i + 1) as nat,
                ));
            }
            return Ok(Some((acc + (b as u128) * mult, i + 1)));
        }
        proof {
            assert(uleb_dec(s, n as nat, i as nat) == uleb_dec(s, n as nat, i as nat + 1));
            assert(pow2((7 * (i + 1)) as nat) <= pow2(126)) by {
                assert(7 * (i + 1) <= 126) by (nonlinear_arith)
                    requires
                        i < max_i,
                        max_i == n as nat / 7,
                        1 <= n <= 128,
                ;
                if 7 * (i + 1) < 126 {
                    lemma_pow2_strictly_increases((7 * (i + 1)) as nat, 126);
                }
            }
        }
        acc = acc + ((b % 128) as u128) * mult;
        mult = mult * 128;
        i = i + 1;
    }
}


/// `2^n` for the native widths below 128.
fn pow2_width(n: u8) -> (r: u128)
    requires
        n == 8 || n == 16 || n == 32 || n == 64,
    ensures
        r as nat == pow2(n as nat),
{
    proof {
        lemma2_to64();
        lemma2_to64_rest();
    }
    match n {
        8 => 0x100,
        16 => 0x10000,
        32 => 0x100000000,
        _ => 0x10000000000000000,
    }
}

/// Scan a signed varint of width `n` at the front of the buffer, without
/// consuming: the value's `n`-bit two's-complement pattern and the byte
/// count on success.
#[verifier::rlimit(60)]
pub fn sleb_decode_raw(src: &BytesMut, n: u8) -> (r: Result<Option<(u128, usize)>, CodecError>)
    requires
        n == 8 || n == 16 || n == 32 || n == 64 || n == 128,
    ensures
        ({
            let d = sleb_dec(buf_view(*src), n as nat, 0);
            match d {
                Decoded::NeedMore => r == Ok::<Option<(u128, usize)>, CodecError>(None),
                Decoded::Fail(e) => r == Err::<Option<(u128, usize)>, CodecError>(e),
                Decoded::Val(v, l) => -pow2((n - 1) as nat) <= v < pow2((n - 1) as nat) && 0 < l
                    <= buf_view(*src).len() && r == Ok::<Option<(u128, usize)>, CodecError>(
                    Some((to_bits(v, n as nat) as u128, l as usize)),
                ),
            }
        }),
{
    let ghost s = buf_view(*src);
    let len = buf_len(src);
    let max_i: usize = (n / 7) as usize;
    let mut i: usize = 0;
    let mut acc: u128 = 0;
    let mut mult: u128 = 1;
    proof {
        assert(s.take(0) =~= Seq::<u8>::empty());
        lemma2_to64();
    }
    loop
        invariant
            n == 8 || n == 16 || n == 32 || n == 64 || n == 128,
            s == buf_view(*src),
            len == s.len(),
            max_i == n as nat / 7,
            i <= max_i,
            mult == pow2((7 * i) as nat),
            acc as nat == group_val(s.take(i as int)),
            (acc as nat) < mult,
            forall|j: int| 0 <= j < i ==> is_cont(s[j]),
            sleb_dec(s, n as nat, 0) == sleb_dec(s, n as nat, i as nat),
        decreases max_i - i,
    {
        let ghost k: nat = (n % 7) as nat;
        proof {
            assert(7 * i <= 7 * max_i <= 126) by (nonlinear_arith)
                requires
                    i <= max_i,
                    max_i == n as nat / 7,
                    n <= 128,
            ;
            assert(7 * (n as nat / 7) + n as nat % 7 == n as nat);
            lemma_pow2_128();
            lemma2_to64();
            lemma2_to64_rest();
        }
        if i >= len {
            return Ok(None);
        }
        let b = buf_get(src, i);
        proof {
            assert(s.take(i as int + 1).drop_last() =~= s.take(i as int));
            assert(s.take(i as int + 1).last() == s[i as int]);
            assert(group_val(s.take(i as int + 1)) == group_val(s.take(i as int)) + (s[i as int]
                % 128) as nat * pow2((7 * i) as nat));
            assert(pow2((7 * (i + 1)) as nat) == 128 * pow2((7 * i) as nat)) by {
                lemma_pow2_adds(7, (7 * i) as nat);
                lemma2_to64();
            }
            assert(acc as nat + (b % 128) as nat * (mult as nat) < 128 * (mult as nat)) by (
            nonlinear_arith)
                requires
                    (acc as nat) < mult as nat,
                    (b % 128) as nat <= 127,
            ;
        }
        if i == max_i {
            if b >= 128 {
                return Err(CodecError::Overflow(n));
            }
            // the last permitted group: bits k..=6 must copy bit k - 1
            let pk = pow2_small(n % 7);
            let ph = pow2_small(n % 7 - 1);
            proof {
                lemma_pow2_pos(k);
                lemma_pow2_pos((k - 1) as nat);
                assert(pow2(k) <= 16 && pow2((k - 1) as nat) <= 8) by {
                    lemma2_to64();
                    assert(k == 1 || k == 2 || k == 4);
                }
            }
            let sign: bool = (b / ph) % 2 == 1;
            let hi: u8 = b / pk;
            let want: u8 = if sign {
                pow2_small(7 - n % 7) - 1
            } else {
                0
            };
            proof {
                lemma_pow2_pos((7 - k) as nat);
            }
            if hi != want {
                proof {
                    assert(!sleb_last_ok(s[i as int], k));
                }
                return Err(CodecError::Overflow(n));
            }
            let low: u8 = b % pk;
            proof {
                assert(sleb_last_ok(s[i as int], k));
                assert(b == low + hi * pk);
                // bit k-1 of the byte is bit k-1 of its low k bits
                assert(pow2(k) == 2 * pow2((k - 1) as nat)) by {
                    lemma_pow2_adds(1, (k - 1) as nat);
                    lemma2_to64();
                }
                assert((b as nat) / pow2((k - 1) as nat) == (low as nat) / pow2((k - 1) as nat)
                    + 2 * (hi as nat)) by {
                    vstd::arithmetic::div_mod::lemma_hoist_over_denominator(
                        low as int,
                        2 * (hi as int),
                        pow2((k - 1) as nat),
                    );
                    assert(low as int + (2 * (hi as int)) * (pow2((k - 1) as nat) as int)
                        == b as int) by (nonlinear_arith)
                        requires
                            b as int == low as int + (hi as int) * (pow2(k) as int),
                            pow2(k) == 2 * pow2((k - 1) as nat),
                    ;
                }
                assert(((b as nat) / pow2((k - 1) as nat)) % 2 == ((low as nat) / pow2(
                    (k - 1) as nat,
                )) % 2) by {
                    vstd::arithmetic::div_mod::lemma_mod_multiples_vanish(
                        hi as int,
                        ((low as nat) / pow2((k - 1) as nat)) as int,
                        2,
                    );
                }
                assert((low as nat) / pow2((k - 1) as nat) < 2) by {
                    vstd::arithmetic::div_mod::lemma_multiply_divide_lt(
                        low as int,
                        pow2((k - 1) as nat) as int,
                        2,
                    );
                }
                lemma_fundamental_div_mod(low as int, pow2((k - 1) as nat) as int);
                lemma_mod_division_less_than_divisor(low as int, pow2((k - 1) as nat) as int);
                vstd::arithmetic::div_mod::lemma_div_pos_is_pos(
                    low as int,
                    pow2((k - 1) as nat) as int,
                );
                assert(mult as nat == pow2((n as nat - k) as nat));
                assert(pow2(k) * pow2((n as nat - k) as nat) == pow2(n as nat)) by {
                    lemma_pow2_adds(k, (n as nat - k) as nat);
                }
                // the sign bit of the pattern is bit n-1
                assert(pow2((k - 1) as nat) * pow2((n as nat - k) as nat) == pow2(
                    (n as nat - 1) as nat,
                )) by {
                    lemma_pow2_adds((k - 1) as nat, (n as nat - k) as nat);
                }
                let bits = acc as nat + (low as nat) * (mult as nat);
                if sign {
                    assert((low as nat) >= pow2((k - 1) as nat));
                    assert(bits >= pow2((n as nat - 1) as nat)) by (nonlinear_arith)
                        requires
                            (low as nat) >= pow2((k - 1) as nat),
                            bits == acc as nat + (low as nat) * (mult as nat),
                            acc as nat >= 0,
                            pow2((k - 1) as nat) * (mult as nat) == pow2((n as nat - 1) as nat),
                    ;
                    assert(bits < pow2(n as nat)) by (nonlinear_arith)
                        requires
                            (low as nat) < pow2(k),
                            (acc as nat) < mult as nat,
                            bits == acc as nat + (low as nat) * (mult as nat),
                            pow2(k) * (mult as nat) == pow2(n as nat),
                            mult as nat >= 1,
                    ;
                    // raw value = bits + hi * 2^n; subtracting 2^(7 (max_i + 1))
                    // leaves bits - 2^n
                    assert((b as nat) * (mult as nat) == (low as nat) * (mult as nat) + (
                    hi as nat) * pow2(n as nat)) by (nonlinear_arith)
                        requires
                            b as nat == low as nat + (hi as nat) * pow2(k),
                            pow2(k) * (mult as nat) == pow2(n as nat),
                    ;
                    assert(pow2((7 * (i + 1)) as nat) == pow2((7 - k) as nat) * pow2(n as nat))
                        by {
                        lemma_pow2_adds((7 - k) as nat, n as nat);
                        assert(7 * (i + 1) == 7 - k + n as nat);
                    }
                    assert(hi as nat + 1 == pow2((7 - k) as nat));
                    assert(sleb_sign(s[i as int]));
                    assert(sleb_val(s.take(i as int + 1)) == bits - pow2(n as nat));
                    assert(to_bits(sleb_val(s.take(i as int + 1)), n as nat) == bits);
                } else {
                    assert((low as nat) < pow2((k - 1) as nat));
                    assert(hi == 0);
                    assert(b == low);
                    assert(bits < pow2((n as nat - 1) as nat)) by (nonlinear_arith)
                        requires
                            (low as nat) < pow2((k - 1) as nat),
                            (acc as nat) < mult as nat,
                            bits == acc as nat + (low as nat) * (mult as nat),
                            pow2((k - 1) as nat) * (mult as nat) == pow2((n as nat - 1) as nat),
                            mult as nat >= 1,
                    ;
                    assert(!sleb_sign(s[i as int])) by {
                        assert((b as nat) < pow2(k));
                        assert(pow2(k) <= 16);
                    }
                    assert(sleb_val(s.take(i as int + 1)) == bits);
                    assert(to_bits(sleb_val(s.take(i as int + 1)), n as nat) == bits);
                }
                assert(pow2((n as nat - 1) as nat) <= pow2(127)) by {
                    if (n as nat - 1) < 127 {
                        lemma_pow2_strictly_increases((n as nat - 1) as nat, 127);
                    }
                }
                assert(sleb_dec(s, n as nat, i as nat) matches Decoded::Val(v, l) && l == i + 1
                    && v == sleb_val(s.take(i as int + 1)));
            }
            return Ok(Some((acc + (low as u128) * mult, i + 1)));
        }
        if b < 128 {
            // an early terminal group: bit 6 is the sign
            proof {
                assert(b % 128 == b);
                assert(pow2((7 * (i + 1)) as nat) <= pow2((n as nat - k) as nat)) by {
                    assert(7 * (i + 1) <= n as nat - k) by (nonlinear_arith)
                        requires
                            i < max_i,
                            max_i == n as nat / 7,
                            7 * (n as nat / 7) == n as nat - k,
                    ;
                    if 7 * (i + 1) < n as nat - k {
                        lemma_pow2_strictly_increases((7 * (i + 1)) as nat, (n as nat - k) as nat);
                    }
                }
                assert(pow2((n as nat - k) as nat) <= pow2((n as nat - 1) as nat)) by {
                    if n as nat - k < n as nat - 1 {
                        lemma_pow2_strictly_increases((n as nat - k) as nat, (n as nat - 1) as nat);
                    }
                }
                assert(pow2((n as nat - 1) as nat) < pow2(n as nat)) by {
                    lemma_pow2_strictly_increases((n as nat - 1) as nat, n as nat);
                }
                assert(pow2((7 * (i + 1)) as nat) == 2 * pow2((7 * (i + 1) - 1) as nat)) by {
                    lemma_pow2_adds(1, (7 * (i + 1) - 1) as nat);
                    lemma2_to64();
                }
                assert(64 * (mult as nat) == pow2((7 * (i + 1) - 1) as nat)) by {
                    lemma_pow2_adds(6, (7 * i) as nat);
                    lemma2_to64();
                    assert(6 + 7 * i == 7 * (i + 1) - 1);
                }
                assert(pow2((7 * (i + 1) - 1) as nat) <= pow2((n as nat - 1) as nat)) by {
                    if 7 * (i + 1) - 1 < n as nat - 1 {
                        lemma_pow2_strictly_increases(
                            (7 * (i + 1) - 1) as nat,
                            (n as nat - 1) as nat,
                        );
                    }
                }
                assert(sleb_dec(s, n as nat, i as nat) matches Decoded::Val(v, l) && l == i + 1
                    && v == sleb_val(s.take(i as int + 1)));
            }
            let raw: u128 = acc + (b as u128) * mult;
            if b >= 64 {
                // negative: the pattern fills the bits above 7 (i + 1) with ones
                proof {
                    assert(sleb_sign(s[i as int]));
                    assert((raw as nat) >= 64 * (mult as nat)) by (nonlinear_arith)
                        requires
                            raw as nat == acc as nat + (b as nat) * (mult as nat),
                            b as nat >= 64,
                            acc as nat >= 0,
                            mult as nat >= 1,
                    ;
                    assert(sleb_val(s.take(i as int + 1)) == raw - pow2((7 * (i + 1)) as nat));
                    assert(to_bits(sleb_val(s.take(i as int + 1)), n as nat) == raw + pow2(
                        n as nat,
                    ) - pow2((7 * (i + 1)) as nat));
                }
                let fill: u128 = if n == 128 {
                    u128::MAX - (mult * 128 - 1)
                } else {
                    pow2_width(n) - mult * 128
                };
                proof {
                    assert(fill as nat == pow2(n as nat) - pow2((7 * (i + 1)) as nat));
                }
                return Ok(Some((raw + fill, i + 1)));
            }
            proof {
                assert(!sleb_sign(s[i as int]));
                assert((raw as nat) < 64 * (mult as nat)) by (nonlinear_arith)
                    requires
                        raw as nat == acc as nat + (b as nat) * (mult as nat),
                        (b as nat) < 64,
                        (acc as nat) < mult as nat,
                ;
                assert(sleb_val(s.take(i as int + 1)) == raw as nat);
                assert(to_bits(sleb_val(s.take(i as int + 1)), n as nat) == raw as nat);
            }
            return Ok(Some((raw, i + 1)));
        }
        proof {
            assert(sleb_dec(s, n as nat, i as nat) == sleb_dec(s, n as nat, i as nat + 1));
            assert(pow2((7 * (i + 1)) as nat) <= pow2(126)) by {
                assert(7 * (i + 1) <= 126) by (nonlinear_arith)
                    requires
                        i < max_i,
                        max_i == n as nat / 7,
                        n <= 128,
                ;
                if 7 * (i + 1) < 126 {
                    lemma_pow2_strictly_increases((7 * (i + 1)) as nat, 126);
                }
            }
        }
        acc = acc + ((b % 128) as u128) * mult;
        mult = mult * 128;
        i = i + 1;
    }
}


/// Base-128 digits decompose from the front as well.
proof fn lemma_group_val_first(s: Seq<u8>)
    requires
        s.len() >= 1,
    ensures
        group_val(s) == (s[0] % 128) as nat + 128 * group_val(s.drop_first()),
    decreases s.len(),
{
    lemma2_to64();
    reveal_with_fuel(group_val, 3);
    if s.len() == 1 {
        assert(s.drop_first() =~= Seq::<u8>::empty());
        assert(s.drop_last() =~= Seq::<u8>::empty());
        assert(group_val(s.drop_last()) == 0);
        assert(group_val(s.drop_first()) == 0);
        assert(pow2(0) == 1);
        assert(s.last() == s[0]);
        assert(group_val(s) == group_val(s.drop_last()) + (s.last() % 128) as nat * pow2(
            (7 * (s.len() - 1)) as nat,
        ));
        assert((7 * (s.len() - 1)) as nat == 0);
        assert(pow2((7 * (s.len() - 1)) as nat) == 1);
        assert((s.last() % 128) as nat * pow2((7 * (s.len() - 1)) as nat) == (s.last()
            % 128) as nat) by (nonlinear_arith)
            requires
                pow2((7 * (s.len() - 1)) as nat) == 1,
        ;
        assert((s[0] % 128) as nat + 128 * group_val(s.drop_first()) == (s[0] % 128) as nat);
        assert(group_val(s) == (s[0] % 128) as nat);
    } else {
        lemma_group_val_first(s.drop_last());
        assert(s.drop_last().drop_first() =~= s.drop_first().drop_last());
        assert(s.drop_first().last() == s.last());
        assert(s.drop_last()[0] == s[0]);
        let a = group_val(s.drop_first().drop_last());
        let c = (s.last() % 128) as nat;
        let p = pow2((7 * (s.len() - 2)) as nat);
        assert(128 * p == pow2((7 * (s.len() - 1)) as nat)) by {
            lemma_pow2_adds(7, (7 * (s.len() - 2)) as nat);
        }
        assert(s.drop_first().len() == s.len() - 1);
        assert(group_val(s.drop_first()) == group_val(s.drop_first().drop_last()) + (
        s.drop_first().last() % 128) as nat * pow2((7 * (s.drop_first().len() - 1)) as nat));
        assert(group_val(s.drop_first()) == a + c * p);
        assert(group_val(s) == group_val(s.drop_last()) + c * (128 * p));
        assert(group_val(s.drop_last()) == (s[0] % 128) as nat + 128 * a);
        assert(128 * (a + c * p) == 128 * a + c * (128 * p)) by (nonlinear_arith);
        assert(group_val(s) == (s[0] % 128) as nat + (128 * a + c * (128 * p)));
        assert(group_val(s) == (s[0] % 128) as nat + 128 * group_val(s.drop_first()));
    }
}

/// Decoding the digits of a canonical unsigned encoding gives the value back.
proof fn lemma_uleb_bytes_group_val(v: nat)
    ensures
        group_val(uleb_bytes(v)) == v,
    decreases v,
{
    lemma2_to64();
    reveal_with_fuel(group_val, 3);
    let s = uleb_bytes(v);
    if v < 128 {
        assert(s.drop_last() =~= Seq::<u8>::empty());
        assert((s.last() % 128) as nat * pow2((7 * (s.len() - 1)) as nat) == (s.last()
            % 128) as nat) by (nonlinear_arith)
            requires
                pow2((7 * (s.len() - 1)) as nat) == 1,
        ;
    } else {
        lemma_div_decreases(v as int, 128);
        lemma_uleb_bytes_group_val(v / 128);
        lemma_group_val_first(s);
        assert(s.drop_first() =~= uleb_bytes(v / 128));
        assert(s[0] == (v % 128 + 128) as u8);
        assert((s[0] % 128) as nat == v % 128);
        lemma_fundamental_div_mod(v as int, 128);
    }
}

/// Shape of a canonical unsigned encoding: nonempty, continuations
/// throughout, a terminal last group, and, past one group, no leading-zero
/// final group (canonical minimality).
pub proof fn lemma_uleb_bytes_shape(v: nat)
    ensures
        uleb_bytes(v).len() >= 1,
        forall|j: int| 0 <= j < uleb_bytes(v).len() - 1 ==> is_cont(#[trigger] uleb_bytes(v)[j]),
        !is_cont(uleb_bytes(v).last()),
        v < pow2((7 * uleb_bytes(v).len()) as nat),
        uleb_bytes(v).len() > 1 ==> uleb_bytes(v).last() != 0,
    decreases v,
{
    lemma2_to64();
    let s = uleb_bytes(v);
    if v < 128 {
        assert(pow2(7) == 128);
    } else {
        lemma_div_decreases(v as int, 128);
        lemma_div_pos_is_pos(v as int, 128);
        lemma_uleb_bytes_shape(v / 128);
        let rest = uleb_bytes(v / 128);
        assert(s == seq![(v % 128 + 128) as u8] + rest);
        assert(s.last() == rest.last());
        assert(forall|j: int| 1 <= j < s.len() - 1 ==> s[j] == rest[j - 1]);
        assert(is_cont(s[0]));
        assert(v / 128 < pow2((7 * rest.len()) as nat));
        assert(pow2((7 * s.len()) as nat) == 128 * pow2((7 * rest.len()) as nat)) by {
            lemma_pow2_adds(7, (7 * rest.len()) as nat);
        }
        assert(v < 128 * pow2((7 * rest.len()) as nat)) by {
            lemma_fundamental_div_mod(v as int, 128);
            lemma_mod_division_less_than_divisor(v as int, 128);
        }
        if rest.len() == 1 {
            assert(rest.last() == (v / 128) as u8);
            assert(v / 128 >= 1);
        }
    }
}

/// Scanning a stream whose tail from `i` is the canonical encoding of a
/// value that fits the remaining width succeeds and spans exactly it.
proof fn lemma_uleb_dec_encoding(s: Seq<u8>, n: nat, i: nat, v: nat)
    requires
        1 <= n <= 128,
        i <= n / 7,
        i <= s.len(),
        v < pow2((n - 7 * i) as nat),
        s.skip(i as int) == uleb_bytes(v),
    ensures
        uleb_dec(s, n, i) == Decoded::<nat>::Val(
            group_val(s.take(i as int + uleb_bytes(v).len() as int)),
            (i + uleb_bytes(v).len()) as nat,
        ),
    decreases v,
{
    lemma2_to64();
    let e = uleb_bytes(v);
    assert(s.len() == i + e.len());
    assert(s[i as int] == e[0]);
    if v < 128 {
        assert(s[i as int] == v as u8);
        if i == n / 7 {
            assert(n - 7 * i == n % 7);
        } else {
            assert(!is_cont(s[i as int]));
        }
    } else {
        assert(s[i as int] == (v % 128 + 128) as u8);
        assert(is_cont(s[i as int]));
        assert(pow2((n - 7 * i) as nat) <= 64 ==> v < 128);
        if i == n / 7 {
            assert(n - 7 * i == n % 7);
            assert(pow2(n % 7) <= 64) by {
                if n % 7 < 6 {
                    lemma_pow2_strictly_increases(n % 7, 6);
                }
            }
            assert(false);
        }
        lemma_div_decreases(v as int, 128);
        assert(v / 128 < pow2((n - 7 * (i + 1)) as nat)) by {
            assert(pow2((n - 7 * i) as nat) == 128 * pow2((n - 7 * (i + 1)) as nat)) by {
                lemma_pow2_adds(7, (n - 7 * (i + 1)) as nat);
            }
            vstd::arithmetic::div_mod::lemma_multiply_divide_lt(
                v as int,
                128,
                pow2((n - 7 * (i + 1)) as nat) as int,
            );
        }
        assert(s.skip(i as int + 1) =~= uleb_bytes(v / 128)) by {
            assert(s.skip(i as int) == seq![(v % 128 + 128) as u8] + uleb_bytes(v / 128));
            assert(s.skip(i as int + 1) =~= s.skip(i as int).skip(1));
            assert((seq![(v % 128 + 128) as u8] + uleb_bytes(v / 128)).skip(1) =~= uleb_bytes(
                v / 128,
            ));
        }
        lemma_uleb_dec_encoding(s, n, i + 1, v / 128);
        assert(uleb_dec(s, n, i) == uleb_dec(s, n, i + 1));
        assert(i + e.len() == (i + 1) + uleb_bytes(v / 128).len());
    }
}

/// Round trip (unsigned): decoding a canonical encoding at any width the
/// value fits yields the value, spanning the whole encoding.
pub proof fn lemma_uleb_round_trip(v: nat, n: nat)
    requires
        1 <= n <= 128,
        v < pow2(n),
    ensures
        uleb_dec(uleb_bytes(v), n, 0) == Decoded::<nat>::Val(v, uleb_bytes(v).len() as nat),
{
    let s = uleb_bytes(v);
    assert(s.skip(0) =~= s);
    lemma_uleb_dec_encoding(s, n, 0, v);
    lemma_uleb_bytes_group_val(v);
    assert(s.take(s.len() as int) =~= s);
}

/// Overflow boundary (unsigned): the canonical encoding of any value that
/// does not fit width `n` is rejected as an overflow at that width.
pub proof fn lemma_uleb_overflow(v: nat, n: nat)
    requires
        1 <= n <= 128,
        v >= pow2(n),
    ensures
        uleb_dec(uleb_bytes(v), n, 0) == Decoded::<nat>::Fail(CodecError::Overflow(n as u8)),
{
    assert(uleb_bytes(v).skip(0) =~= uleb_bytes(v));
    lemma_uleb_overflow_at(uleb_bytes(v), n, 0, v);
}

proof fn lemma_uleb_overflow_at(s: Seq<u8>, n: nat, i: nat, v: nat)
    requires
        1 <= n <= 128,
        i <= n / 7,
        i <= s.len(),
        v >= pow2((n - 7 * i) as nat),
        s.skip(i as int) == uleb_bytes(v),
    ensures
        uleb_dec(s, n, i) == Decoded::<nat>::Fail(CodecError::Overflow(n as u8)),
    decreases v,
{
    lemma2_to64();
    lemma_pow2_pos((n - 7 * i) as nat);
    let e = uleb_bytes(v);
    assert(s.len() == i + e.len());
    assert(s[i as int] == e[0]);
    if i == n / 7 {
        assert(n - 7 * i == n % 7);
        if v < 128 {
            assert(s[i as int] == v as u8);
        } else {
            assert(is_cont(s[i as int]));
            assert(pow2(n % 7) <= 64) by {
                if n % 7 < 6 {
                    lemma_pow2_strictly_increases(n % 7, 6);
                }
            }
        }
    } else {
        assert(n - 7 * i >= 7 + (n - 7 * (i + 1)));
        assert(pow2((n - 7 * i) as nat) == 128 * pow2((n - 7 * (i + 1)) as nat)) by {
            lemma_pow2_adds(7, (n - 7 * (i + 1)) as nat);
        }
        assert(pow2((n - 7 * (i + 1)) as nat) >= 1) by {
            lemma_pow2_pos((n - 7 * (i + 1)) as nat);
        }
        assert(v >= 128);
        assert(s[i as int] == (v % 128 + 128) as u8);
        assert(is_cont(s[i as int]));
        lemma_div_decreases(v as int, 128);
        assert(v / 128 >= pow2((n - 7 * (i + 1)) as nat)) by {
            vstd::arithmetic::div_mod::lemma_div_is_ordered(
                pow2((n - 7 * i) as nat) as int,
                v as int,
                128,
            );
            vstd::arithmetic::div_mod::lemma_div_multiples_vanish(
                pow2((n - 7 * (i + 1)) as nat) as int,
                128,
            );
        }
        assert(s.skip(i as int + 1) =~= uleb_bytes(v / 128)) by {
            assert(s.skip(i as int) == seq![(v % 128 + 128) as u8] + uleb_bytes(v / 128));
            assert(s.skip(i as int + 1) =~= s.skip(i as int).skip(1));
            assert((seq![(v % 128 + 128) as u8] + uleb_bytes(v / 128)).skip(1) =~= uleb_bytes(
                v / 128,
            ));
        }
        lemma_uleb_overflow_at(s, n, i + 1, v / 128);
    }
}

/// A determined unsigned scan does not change when more bytes arrive.
pub proof fn lemma_uleb_dec_extend(s: Seq<u8>, t: Seq<u8>, n: nat, i: nat)
    ensures
        !(uleb_dec(s, n, i) is NeedMore) ==> uleb_dec(s + t, n, i) == uleb_dec(s, n, i),
    decreases max_groups(n) - i,
{
    if i < max_groups(n) && i < s.len() {
        assert((s + t)[i as int] == s[i as int]);
        assert((s + t).take(i as int + 1) =~= s.take(i as int + 1));
        if i != n / 7 && is_cont(s[i as int]) {
            lemma_uleb_dec_extend(s, t, n, i + 1);
        }
    }
}

/// An unsigned scan spans no more bytes than the stream holds.
pub proof fn lemma_uleb_dec_len(s: Seq<u8>, n: nat, i: nat)
    ensures
        uleb_dec(s, n, i) matches Decoded::Val(v, l) ==> i < l <= s.len(),
    decreases max_groups(n) - i,
{
    if i < max_groups(n) && i < s.len() {
        if i != n / 7 && is_cont(s[i as int]) {
            lemma_uleb_dec_len(s, n, i + 1);
        }
    }
}

/// An unsigned scan that needs more bytes has seen fewer than a full
/// complement of groups.
pub proof fn lemma_uleb_dec_needmore(s: Seq<u8>, n: nat, i: nat)
    requires
        i <= max_groups(n),
    ensures
        uleb_dec(s, n, i) is NeedMore ==> s.len() <= n / 7,
    decreases max_groups(n) - i,
{
    if i < max_groups(n) && i < s.len() {
        if i != n / 7 && is_cont(s[i as int]) {
            lemma_uleb_dec_needmore(s, n, i + 1);
        }
    }
}

/// Chunked feeding (unsigned): every proper prefix of what a successful
/// scan spans still needs more bytes.
pub proof fn lemma_uleb_dec_prefix(s: Seq<u8>, n: nat, i: nat, j: int)
    requires
        uleb_dec(s, n, i) matches Decoded::Val(v, l) && i <= j < l,
    ensures
        uleb_dec(s.take(j), n, i) is NeedMore,
    decreases max_groups(n) - i,
{
    lemma_uleb_dec_len(s, n, i);
    if i < max_groups(n) && i < s.len() {
        if i < j {
            assert(s.take(j)[i as int] == s[i as int]);
            if i != n / 7 && is_cont(s[i as int]) {
                lemma_uleb_dec_prefix(s, n, i + 1, j);
            }
        }
    }
}


/// Decoding the groups of a canonical signed encoding gives the value back.
proof fn lemma_sleb_bytes_val(v: int)
    ensures
        sleb_val(sleb_bytes(v)) == v,
    decreases abs(v),
{
    lemma2_to64();
    reveal_with_fuel(group_val, 3);
    let s = sleb_bytes(v);
    lemma_fundamental_div_mod(v, 128);
    lemma_mod_division_less_than_divisor(v, 128);
    if -64 <= v < 64 {
        assert(s.drop_last() =~= Seq::<u8>::empty());
        assert((s.last() % 128) as nat * pow2((7 * (s.len() - 1)) as nat) == (s.last()
            % 128) as nat) by (nonlinear_arith)
            requires
                pow2((7 * (s.len() - 1)) as nat) == 1,
        ;
        assert(s.last() == (v % 128) as u8);
        assert(pow2(7) == 128);
        if v < 0 {
            assert(v % 128 == v + 128);
            assert(sleb_sign(s.last()));
            assert(group_val(s) == (v + 128) as nat);
            assert(sleb_val(s) == v + 128 - pow2(7));
        } else {
            assert(!sleb_sign(s.last()));
        }
    } else {
        if v >= 64 {
            lemma_div_decreases(v, 128);
            lemma_div_pos_is_pos(v, 128);
        }
        lemma_sleb_bytes_val(v / 128);
        let rest = sleb_bytes(v / 128);
        assert(s == seq![(v % 128 + 128) as u8] + rest);
        lemma_group_val_first(s);
        assert(s.drop_first() =~= rest);
        assert(s.last() == rest.last());
        assert((s[0] % 128) as nat == (v % 128) as nat);
        assert(group_val(s) == (v % 128) as nat + 128 * group_val(rest));
        assert(pow2((7 * s.len()) as nat) == 128 * pow2((7 * rest.len()) as nat)) by {
            lemma_pow2_adds(7, (7 * rest.len()) as nat);
        }
        if sleb_sign(rest.last()) {
            assert(sleb_val(rest) == group_val(rest) - pow2((7 * rest.len()) as nat));
            assert(sleb_val(s) == group_val(s) - pow2((7 * s.len()) as nat));
            assert(sleb_val(s) == (v % 128) as nat + 128 * (group_val(rest) as int - pow2(
                (7 * rest.len()) as nat,
            )));
        } else {
            assert(sleb_val(rest) == group_val(rest) as int);
            assert(sleb_val(s) == group_val(s) as int);
        }
        assert(sleb_val(s) == (v % 128) + 128 * (v / 128));
    }
}

/// Shape of a canonical signed encoding: nonempty, continuations
/// throughout, a terminal final group, the value within the emitted bits,
/// and never a redundant pure-sign final group (canonical minimality).
pub proof fn lemma_sleb_bytes_shape(v: int)
    ensures
        sleb_bytes(v).len() >= 1,
        forall|j: int| 0 <= j < sleb_bytes(v).len() - 1 ==> is_cont(#[trigger] sleb_bytes(v)[j]),
        !is_cont(sleb_bytes(v).last()),
        -pow2((7 * sleb_bytes(v).len() - 1) as nat) <= v < pow2(
            (7 * sleb_bytes(v).len() - 1) as nat,
        ),
        sleb_bytes(v).len() > 1 ==> ((sleb_bytes(v).last() == 0 ==> sleb_sign(
            sleb_bytes(v)[sleb_bytes(v).len() - 2],
        )) && (sleb_bytes(v).last() == 127 ==> !sleb_sign(
            sleb_bytes(v)[sleb_bytes(v).len() - 2],
        ))),
    decreases abs(v),
{
    lemma2_to64();
    let s = sleb_bytes(v);
    lemma_fundamental_div_mod(v, 128);
    lemma_mod_division_less_than_divisor(v, 128);
    if -64 <= v < 64 {
        assert(pow2(6) == 64);
    } else {
        if v >= 64 {
            lemma_div_decreases(v, 128);
            lemma_div_pos_is_pos(v, 128);
        }
        lemma_sleb_bytes_shape(v / 128);
        let rest = sleb_bytes(v / 128);
        assert(s == seq![(v % 128 + 128) as u8] + rest);
        assert(s.last() == rest.last());
        assert(forall|j: int| 1 <= j < s.len() - 1 ==> s[j] == rest[j - 1]);
        assert(is_cont(s[0]));
        assert(pow2((7 * s.len() - 1) as nat) == 128 * pow2((7 * rest.len() - 1) as nat)) by {
            lemma_pow2_adds(7, (7 * rest.len() - 1) as nat);
        }
        assert(-pow2((7 * s.len() - 1) as nat) <= v < pow2((7 * s.len() - 1) as nat)) by (
        nonlinear_arith)
            requires
                v == 128 * (v / 128) + v % 128,
                0 <= v % 128 < 128,
                -pow2((7 * rest.len() - 1) as nat) <= v / 128 < pow2((7 * rest.len() - 1) as nat),
                pow2((7 * s.len() - 1) as nat) == 128 * pow2((7 * rest.len() - 1) as nat),
        ;
        if rest.len() == 1 {
            assert(rest[0] == (v / 128 % 128) as u8);
            assert(s[s.len() - 2] == s[0]);
            if rest[0] == 0 {
                assert(v / 128 % 128 == 0);
                assert(-64 <= v / 128 < 64);
                assert(v / 128 == 0) by {
                    if v / 128 < 0 {
                        assert(v / 128 % 128 == v / 128 + 128);
                    }
                }
                assert(64 <= v < 128);
                assert(v % 128 == v);
                assert(sleb_sign(s[0]));
            }
            if rest[0] == 127 {
                assert(v / 128 % 128 == 127);
                assert(-64 <= v / 128 < 64);
                assert(v / 128 == -1) by {
                    if v / 128 >= 0 {
                        assert(v / 128 % 128 == v / 128);
                    }
                }
                assert(-128 <= v <= -65);
                assert(v % 128 == v + 128);
                assert(!sleb_sign(s[0]));
            }
        }
    }
}

/// Scanning a stream whose tail from `i` is the canonical signed encoding
/// of a value that fits the remaining width succeeds and spans exactly it.
proof fn lemma_sleb_dec_encoding(s: Seq<u8>, n: nat, i: nat, v: int)
    requires
        n == 8 || n == 16 || n == 32 || n == 64 || n == 128,
        i <= n / 7,
        i <= s.len(),
        -pow2((n - 7 * i - 1) as nat) <= v < pow2((n - 7 * i - 1) as nat),
        s.skip(i as int) == sleb_bytes(v),
    ensures
        sleb_dec(s, n, i) == Decoded::<int>::Val(
            sleb_val(s.take(i as int + sleb_bytes(v).len() as int)),
            (i + sleb_bytes(v).len()) as nat,
        ),
    decreases abs(v),
{
    lemma2_to64();
    let e = sleb_bytes(v);
    let k = n % 7;
    assert(k == 1 || k == 2 || k == 4);
    assert(s.len() == i + e.len());
    assert(s[i as int] == e[0]);
    lemma_fundamental_div_mod(v, 128);
    lemma_mod_division_less_than_divisor(v, 128);
    if -64 <= v < 64 {
        let b = s[i as int];
        assert(b == (v % 128) as u8);
        assert(!is_cont(b));
        if i == n / 7 {
            assert(n - 7 * i == k);
            assert(-pow2((k - 1) as nat) <= v < pow2((k - 1) as nat));
            assert(sleb_last_ok(b, k)) by {
                if v >= 0 {
                    assert(b == v as u8);
                } else {
                    assert(b == (v + 128) as u8);
                }
            }
        }
    } else {
        assert(s[i as int] == (v % 128 + 128) as u8);
        assert(is_cont(s[i as int]));
        if i == n / 7 {
            assert(pow2((k - 1) as nat) <= 64) by {
                if ((k - 1) as nat) < 6 {
                    lemma_pow2_strictly_increases((k - 1) as nat, 6);
                }
            }
            assert(false);
        }
        if v >= 64 {
            lemma_div_decreases(v, 128);
            lemma_div_pos_is_pos(v, 128);
        }
        assert(pow2((n - 7 * i - 1) as nat) == 128 * pow2((n - 7 * (i + 1) - 1) as nat)) by {
            lemma_pow2_adds(7, (n - 7 * (i + 1) - 1) as nat);
        }
        assert(v / 128 < pow2((n - 7 * (i + 1) - 1) as nat)) by {
            vstd::arithmetic::div_mod::lemma_multiply_divide_lt(
                v,
                128,
                pow2((n - 7 * (i + 1) - 1) as nat) as int,
            );
        }
        assert(-pow2((n - 7 * (i + 1) - 1) as nat) <= v / 128) by {
            vstd::arithmetic::div_mod::lemma_div_is_ordered(
                -(pow2((n - 7 * i - 1) as nat) as int),
                v,
                128,
            );
            assert((-(pow2((n - 7 * i - 1) as nat) as int)) / 128 == -(pow2(
                (n - 7 * (i + 1) - 1) as nat,
            ) as int)) by {
                vstd::arithmetic::div_mod::lemma_div_multiples_vanish(
                    -(pow2((n - 7 * (i + 1) - 1) as nat) as int),
                    128,
                );
            }
        }
        assert(s.skip(i as int + 1) =~= sleb_bytes(v / 128)) by {
            assert(s.skip(i as int) == seq![(v % 128 + 128) as u8] + sleb_bytes(v / 128));
            assert(s.skip(i as int + 1) =~= s.skip(i as int).skip(1));
            assert((seq![(v % 128 + 128) as u8] + sleb_bytes(v / 128)).skip(1) =~= sleb_bytes(
                v / 128,
            ));
        }
        lemma_sleb_dec_encoding(s, n, i + 1, v / 128);
        assert(sleb_dec(s, n, i) == sleb_dec(s, n, i + 1));
        assert(i + e.len() == (i + 1) + sleb_bytes(v / 128).len());
    }
}

/// Round trip (signed): decoding a canonical signed encoding at any native
/// width the value fits yields the value, spanning the whole encoding.
pub proof fn lemma_sleb_round_trip(v: int, n: nat)
    requires
        n == 8 || n == 16 || n == 32 || n == 64 || n == 128,
        -pow2((n - 1) as nat) <= v < pow2((n - 1) as nat),
    ensures
        sleb_dec(sleb_bytes(v), n, 0) == Decoded::<int>::Val(v, sleb_bytes(v).len() as nat),
{
    let s = sleb_bytes(v);
    assert(s.skip(0) =~= s);
    assert(n - 7 * 0 - 1 == n - 1);
    lemma_sleb_dec_encoding(s, n, 0, v);
    lemma_sleb_bytes_val(v);
    assert(s.take(s.len() as int) =~= s);
}

/// A determined signed scan does not change when more bytes arrive.
pub proof fn lemma_sleb_dec_extend(s: Seq<u8>, t: Seq<u8>, n: nat, i: nat)
    ensures
        !(sleb_dec(s, n, i) is NeedMore) ==> sleb_dec(s + t, n, i) == sleb_dec(s, n, i),
    decreases max_groups(n) - i,
{
    if i < max_groups(n) && i < s.len() {
        assert((s + t)[i as int] == s[i as int]);
        assert((s + t).take(i as int + 1) =~= s.take(i as int + 1));
        if i != n / 7 && is_cont(s[i as int]) {
            lemma_sleb_dec_extend(s, t, n, i + 1);
        }
    }
}

/// A signed scan spans no more bytes than the stream holds.
pub proof fn lemma_sleb_dec_len(s: Seq<u8>, n: nat, i: nat)
    ensures
        sleb_dec(s, n, i) matches Decoded::Val(v, l) ==> i < l <= s.len(),
    decreases max_groups(n) - i,
{
    if i < max_groups(n) && i < s.len() {
        if i != n / 7 && is_cont(s[i as int]) {
            lemma_sleb_dec_len(s, n, i + 1);
        }
    }
}

/// A signed scan that needs more bytes has seen fewer than a full
/// complement of groups.
pub proof fn lemma_sleb_dec_needmore(s: Seq<u8>, n: nat, i: nat)
    requires
        i <= max_groups(n),
    ensures
        sleb_dec(s, n, i) is NeedMore ==> s.len() <= n / 7,
    decreases max_groups(n) - i,
{
    if i < max_groups(n) && i < s.len() {
        if i != n / 7 && is_cont(s[i as int]) {
            lemma_sleb_dec_needmore(s, n, i + 1);
        }
    }
}

/// Chunked feeding (signed): every proper prefix of what a successful scan
/// spans still needs more bytes.
pub proof fn lemma_sleb_dec_prefix(s: Seq<u8>, n: nat, i: nat, j: int)
    requires
        sleb_dec(s, n, i) matches Decoded::Val(v, l) && i <= j < l,
    ensures
        sleb_dec(s.take(j), n, i) is NeedMore,
    decreases max_groups(n) - i,
{
    lemma_sleb_dec_len(s, n, i);
    if i < max_groups(n) && i < s.len() {
        if i < j {
            assert(s.take(j)[i as int] == s[i as int]);
            if i != n / 7 && is_cont(s[i as int]) {
                lemma_sleb_dec_prefix(s, n, i + 1, j);
            }
        }
    }
}



/// A successful unsigned scan is unchanged by cutting the stream at or
/// past what it spans.
pub proof fn lemma_uleb_dec_restrict(s: Seq<u8>, n: nat, i: nat, j: int)
    requires
        uleb_dec(s, n, i) matches Decoded::Val(v, l) && l <= j <= s.len(),
    ensures
        uleb_dec(s.take(j), n, i) == uleb_dec(s, n, i),
    decreases max_groups(n) - i,
{
    lemma_uleb_dec_len(s, n, i);
    if i < max_groups(n) && i < s.len() {
        assert(s.take(j)[i as int] == s[i as int]);
        assert(s.take(j).take(i as int + 1) =~= s.take(i as int + 1));
        if i != n / 7 && is_cont(s[i as int]) {
            lemma_uleb_dec_restrict(s, n, i + 1, j);
        }
    }
}

/// A successful signed scan is unchanged by cutting the stream at or past
/// what it spans.
pub proof fn lemma_sleb_dec_restrict(s: Seq<u8>, n: nat, i: nat, j: int)
    requires
        sleb_dec(s, n, i) matches Decoded::Val(v, l) && l <= j <= s.len(),
    ensures
        sleb_dec(s.take(j), n, i) == sleb_dec(s, n, i),
    decreases max_groups(n) - i,
{
    lemma_sleb_dec_len(s, n, i);
    if i < max_groups(n) && i < s.len() {
        assert(s.take(j)[i as int] == s[i as int]);
        assert(s.take(j).take(i as int + 1) =~= s.take(i as int + 1));
        if i != n / 7 && is_cont(s[i as int]) {
            lemma_sleb_dec_restrict(s, n, i + 1, j);
        }
    }
}

/// A value below `2^(7 m)` encodes in at most `m` groups.
pub proof fn lemma_uleb_bytes_len_bound(v: nat, m: nat)
    requires
        1 <= m,
        v < pow2((7 * m) as nat),
    ensures
        uleb_bytes(v).len() <= m,
    decreases v,
{
    lemma2_to64();
    if v >= 128 {
        assert(m >= 2) by {
            if m == 1 {
                assert(pow2(7) == 128);
            }
        }
        lemma_div_decreases(v as int, 128);
        assert(pow2((7 * m) as nat) == 128 * pow2((7 * (m - 1)) as nat)) by {
            lemma_pow2_adds(7, (7 * (m - 1)) as nat);
        }
        assert(v / 128 < pow2((7 * (m - 1)) as nat)) by {
            vstd::arithmetic::div_mod::lemma_multiply_divide_lt(
                v as int,
                128,
                pow2((7 * (m - 1)) as nat) as int,
            );
        }
        lemma_uleb_bytes_len_bound(v / 128, (m - 1) as nat);
    }
}

/// The signed value an 8-bit pattern stands for.
pub fn bits_to_i8(x: u8) -> (r: i8)
    ensures
        r as int == from_bits(x as nat, 8),
{
    proof {
        lemma2_to64();
    }
    if x < 0x80 {
        x as i8
    } else {
        -1 - ((0xff - x) as i8)
    }
}

/// The signed value a 16-bit pattern stands for.
pub fn bits_to_i16(x: u128) -> (r: i16)
    requires
        x < pow2(16),
    ensures
        r as int == from_bits(x as nat, 16),
{
    proof {
        lemma2_to64();
    }
    if x < 0x8000 {
        x as i16
    } else {
        -1 - ((0xffff - x) as i16)
    }
}

/// The signed value a 32-bit pattern stands for.
pub fn bits_to_i32(x: u128) -> (r: i32)
    requires
        x < pow2(32),
    ensures
        r as int == from_bits(x as nat, 32),
{
    proof {
        lemma2_to64();
    }
    if x < 0x8000_0000 {
        x as i32
    } else {
        -1 - ((0xffff_ffff - x) as i32)
    }
}

/// The signed value a 64-bit pattern stands for.
pub fn bits_to_i64(x: u128) -> (r: i64)
    requires
        x < pow2(64),
    ensures
        r as int == from_bits(x as nat, 64),
{
    proof {
        lemma2_to64();
        lemma2_to64_rest();
    }
    if x < 0x8000_0000_0000_0000 {
        x as i64
    } else {
        -1 - ((0xffff_ffff_ffff_ffff - x) as i64)
    }
}

/// The signed value a 128-bit pattern stands for.
pub fn bits_to_i128(x: u128) -> (r: i128)
    ensures
        r as int == from_bits(x as nat, 128),
{
    proof {
        lemma_pow2_128();
    }
    if x < 0x8000_0000_0000_0000_0000_0000_0000_0000 {
        x as i128
    } else {
        -1 - ((u128::MAX - x) as i128)
    }
}

/// Append the unsigned LEB128 encoding of `x`.
pub fn put_u8_leb128(buf: &mut Vec<u8>, x: u8)
    ensures
        final (buf)@ == old(buf)@ + uleb_bytes(x as nat),
{
    put_uleb(buf, x as u128);
}

/// Append the unsigned LEB128 encoding of `x`.
pub fn put_u16_leb128(buf: &mut Vec<u8>, x: u16)
    ensures
        final (buf)@ == old(buf)@ + uleb_bytes(x as nat),
{
    put_uleb(buf, x as u128);
}

/// Append the unsigned LEB128 encoding of `x`.
pub fn put_u32_leb128(buf: &mut Vec<u8>, x: u32)
    ensures
        final (buf)@ == old(buf)@ + uleb_bytes(x as nat),
{
    put_uleb(buf, x as u128);
}

/// Append the unsigned LEB128 encoding of `x`.
pub fn put_u64_leb128(buf: &mut Vec<u8>, x: u64)
    ensures
        final (buf)@ == old(buf)@ + uleb_bytes(x as nat),
{
    put_uleb(buf, x as u128);
}

/// Append the unsigned LEB128 encoding of `x`.
pub fn put_u128_leb128(buf: &mut Vec<u8>, x: u128)
    ensures
        final (buf)@ == old(buf)@ + uleb_bytes(x as nat),
{
    put_uleb(buf, x);
}

/// Append the signed LEB128 encoding of `x`.
pub fn put_i8_leb128(buf: &mut Vec<u8>, x: i8)
    ensures
        final (buf)@ == old(buf)@ + sleb_bytes(x as int),
{
    put_sleb(buf, x as i128);
}

/// Append the signed LEB128 encoding of `x`.
pub fn put_i16_leb128(buf: &mut Vec<u8>, x: i16)
    ensures
        final (buf)@ == old(buf)@ + sleb_bytes(x as int),
{
    put_sleb(buf, x as i128);
}

/// Append the signed LEB128 encoding of `x`.
pub fn put_i32_leb128(buf: &mut Vec<u8>, x: i32)
    ensures
        final (buf)@ == old(buf)@ + sleb_bytes(x as int),
{
    put_sleb(buf, x as i128);
}

/// Append the signed LEB128 encoding of `x`.
pub fn put_i64_leb128(buf: &mut Vec<u8>, x: i64)
    ensures
        final (buf)@ == old(buf)@ + sleb_bytes(x as int),
{
    put_sleb(buf, x as i128);
}

/// Append the signed LEB128 encoding of `x`.
pub fn put_i128_leb128(buf: &mut Vec<u8>, x: i128)
    ensures
        final (buf)@ == old(buf)@ + sleb_bytes(x as int),
{
    put_sleb(buf, x);
}


/// Resumable decoder for unsigned LEB128 at width 8.
pub struct Leb128DecoderU8;

impl Decode for Leb128DecoderU8 {
    type Item = u8;

    type V = u8;

    open spec fn vw(i: u8) -> u8 {
        i
    }

    open spec fn dec(s: Seq<u8>) -> Decoded<u8> {
        match uleb_dec(s, 8, 0) {
            Decoded::NeedMore => Decoded::NeedMore,
            Decoded::Fail(e) => Decoded::Fail(e),
            Decoded::Val(v, l) => Decoded::Val(v as u8, l),
        }
    }

    open spec fn consumed(&self) -> Seq<u8> {
        Seq::empty()
    }

    open spec fn inv(&self) -> bool {
        true
    }

    proof fn lemma_dec_len(s: Seq<u8>) {
        lemma_uleb_dec_len(s, 8, 0);
    }

    proof fn lemma_dec_extend(s: Seq<u8>, t: Seq<u8>) {
        lemma_uleb_dec_extend(s, t, 8, 0);
    }

    proof fn lemma_dec_restrict(s: Seq<u8>, j: int) {
        lemma_uleb_dec_restrict(s, 8, 0, j);
    }

    proof fn lemma_dec_empty() {
    }

    proof fn lemma_inv_pending(&self) {
    }

    fn decode(&mut self, src: &mut BytesMut) -> (r: Result<Option<u8>, CodecError>) {
        proof {
            assert(Seq::<u8>::empty() + buf_view(*src) =~= buf_view(*src));
        }
        let _len = buf_len(src);
        let ghost s0 = buf_view(*src);
        match uleb_decode_raw(src, 8) {
            Ok(Some((v, l))) => {
                proof {
                    lemma2_to64();
                    lemma2_to64_rest();
                    assert(s0.skip(l as int) =~= (Seq::<u8>::empty() + s0).skip(l as int));
                }
                buf_advance(src, l);
                Ok(Some(v as u8))
            },
            Ok(None) => {
                proof {
                    lemma_uleb_dec_needmore(s0, 8, 0);
                }
                buf_reserve(src, 1);
                Ok(None)
            },
            Err(e) => Err(e),
        }
    }
}

/// Resumable decoder for unsigned LEB128 at width 16.
pub struct Leb128DecoderU16;

impl Decode for Leb128DecoderU16 {
    type Item = u16;

    type V = u16;

    open spec fn vw(i: u16) -> u16 {
        i
    }

    open spec fn dec(s: Seq<u8>) -> Decoded<u16> {
        match uleb_dec(s, 16, 0) {
            Decoded::NeedMore => Decoded::NeedMore,
            Decoded::Fail(e) => Decoded::Fail(e),
            Decoded::Val(v, l) => Decoded::Val(v as u16, l),
        }
    }

    open spec fn consumed(&self) -> Seq<u8> {
        Seq::empty()
    }

    open spec fn inv(&self) -> bool {
        true
    }

    proof fn lemma_dec_len(s: Seq<u8>) {
        lemma_uleb_dec_len(s, 16, 0);
    }

    proof fn lemma_dec_extend(s: Seq<u8>, t: Seq<u8>) {
        lemma_uleb_dec_extend(s, t, 16, 0);
    }

    proof fn lemma_dec_restrict(s: Seq<u8>, j: int) {
        lemma_uleb_dec_restrict(s, 16, 0, j);
    }

    proof fn lemma_dec_empty() {
    }

    proof fn lemma_inv_pending(&self) {
    }

    fn decode(&mut self, src: &mut BytesMut) -> (r: Result<Option<u16>, CodecError>) {
        proof {
            assert(Seq::<u8>::empty() + buf_view(*src) =~= buf_view(*src));
        }
        let _len = buf_len(src);
        let ghost s0 = buf_view(*src);
        match uleb_decode_raw(src, 16) {
            Ok(Some((v, l))) => {
                proof {
                    lemma2_to64();
                    lemma2_to64_rest();
                    assert(s0.skip(l as int) =~= (Seq::<u8>::empty() + s0).skip(l as int));
                }
                buf_advance(src, l);
                Ok(Some(v as u16))
            },
            Ok(None) => {
                proof {
                    lemma_uleb_dec_needmore(s0, 16, 0);
                }
                buf_reserve(src, 1);
                Ok(None)
            },
            Err(e) => Err(e),
        }
    }
}

/// Resumable decoder for unsigned LEB128 at width 32.
pub struct Leb128DecoderU32;

impl Decode for Leb128DecoderU32 {
    type Item = u32;

    type V = u32;

    open spec fn vw(i: u32) -> u32 {
        i
    }

    open spec fn dec(s: Seq<u8>) -> Decoded<u32> {
        match uleb_dec(s, 32, 0) {
            Decoded::NeedMore => Decoded::NeedMore,
            Decoded::Fail(e) => Decoded::Fail(e),
            Decoded::Val(v, l) => Decoded::Val(v as u32, l),
        }
    }

    open spec fn consumed(&self) -> Seq<u8> {
        Seq::empty()
    }

    open spec fn inv(&self) -> bool {
        true
    }

    proof fn lemma_dec_len(s: Seq<u8>) {
        lemma_uleb_dec_len(s, 32, 0);
    }

    proof fn lemma_dec_extend(s: Seq<u8>, t: Seq<u8>) {
        lemma_uleb_dec_extend(s, t, 32, 0);
    }

    proof fn lemma_dec_restrict(s: Seq<u8>, j: int) {
        lemma_uleb_dec_restrict(s, 32, 0, j);
    }

    proof fn lemma_dec_empty() {
    }

    proof fn lemma_inv_pending(&self) {
    }

    fn decode(&mut self, src: &mut BytesMut) -> (r: Result<Option<u32>, CodecError>) {
        proof {
            assert(Seq::<u8>::empty() + buf_view(*src) =~= buf_view(*src));
        }
        let _len = buf_len(src);
        let ghost s0 = buf_view(*src);
        match uleb_decode_raw(src, 32) {
            Ok(Some((v, l))) => {
                proof {
                    lemma2_to64();
                    lemma2_to64_rest();
                    assert(s0.skip(l as int) =~= (Seq::<u8>::empty() + s0).skip(l as int));
                }
                buf_advance(src, l);
                Ok(Some(v as u32))
            },
            Ok(None) => {
                proof {
                    lemma_uleb_dec_needmore(s0, 32, 0);
                }
                buf_reserve(src, 1);
                Ok(None)
            },
            Err(e) => Err(e),
        }
    }
}

/// Resumable decoder for unsigned LEB128 at width 64.
pub struct Leb128DecoderU64;

impl Decode for Leb128DecoderU64 {
    type Item = u64;

    type V = u64;

    open spec fn vw(i: u64) -> u64 {
        i
    }

    open spec fn dec(s: Seq<u8>) -> Decoded<u64> {
        match uleb_dec(s, 64, 0) {
            Decoded::NeedMore => Decoded::NeedMore,
            Decoded::Fail(e) => Decoded::Fail(e),
            Decoded::Val(v, l) => Decoded::Val(v as u64, l),
        }
    }

    open spec fn consumed(&self) -> Seq<u8> {
        Seq::empty()
    }

    open spec fn inv(&self) -> bool {
        true
    }

    proof fn lemma_dec_len(s: Seq<u8>) {
        lemma_uleb_dec_len(s, 64, 0);
    }

    proof fn lemma_dec_extend(s: Seq<u8>, t: Seq<u8>) {
        lemma_uleb_dec_extend(s, t, 64, 0);
    }

    proof fn lemma_dec_restrict(s: Seq<u8>, j: int) {
        lemma_uleb_dec_restrict(s, 64, 0, j);
    }

    proof fn lemma_dec_empty() {
    }

    proof fn lemma_inv_pending(&self) {
    }

    fn decode(&mut self, src: &mut BytesMut) -> (r: Result<Option<u64>, CodecError>) {
        proof {
            assert(Seq::<u8>::empty() + buf_view(*src) =~= buf_view(*src));
        }
        let _len = buf_len(src);
        let ghost s0 = buf_view(*src);
        match uleb_decode_raw(src, 64) {
            Ok(Some((v, l))) => {
                proof {
                    lemma2_to64();
                    lemma2_to64_rest();
                    assert(s0.skip(l as int) =~= (Seq::<u8>::empty() + s0).skip(l as int));
                }
                buf_advance(src, l);
                Ok(Some(v as u64))
            },
            Ok(None) => {
                proof {
                    lemma_uleb_dec_needmore(s0, 64, 0);
                }
                buf_reserve(src, 1);
                Ok(None)
            },
            Err(e) => Err(e),
        }
    }
}

/// Resumable decoder for unsigned LEB128 at width 128.
pub struct Leb128DecoderU128;

impl Decode for Leb128DecoderU128 {
    type Item = u128;

    type V = u128;

    open spec fn vw(i: u128) -> u128 {
        i
    }

    open spec fn dec(s: Seq<u8>) -> Decoded<u128> {
        match uleb_dec(s, 128, 0) {
            Decoded::NeedMore => Decoded::NeedMore,
            Decoded::Fail(e) => Decoded::Fail(e),
            Decoded::Val(v, l) => Decoded::Val(v as u128, l),
        }
    }

    open spec fn consumed(&self) -> Seq<u8> {
        Seq::empty()
    }

    open spec fn inv(&self) -> bool {
        true
    }

    proof fn lemma_dec_len(s: Seq<u8>) {
        lemma_uleb_dec_len(s, 128, 0);
    }

    proof fn lemma_dec_extend(s: Seq<u8>, t: Seq<u8>) {
        lemma_uleb_dec_extend(s, t, 128, 0);
    }

    proof fn lemma_dec_restrict(s: Seq<u8>, j: int) {
        lemma_uleb_dec_restrict(s, 128, 0, j);
    }

    proof fn lemma_dec_empty() {
    }

    proof fn lemma_inv_pending(&self) {
    }

    fn decode(&mut self, src: &mut BytesMut) -> (r: Result<Option<u128>, CodecError>) {
        proof {
            assert(Seq::<u8>::empty() + buf_view(*src) =~= buf_view(*src));
        }
        let _len = buf_len(src);
        let ghost s0 = buf_view(*src);
        match uleb_decode_raw(src, 128) {
            Ok(Some((v, l))) => {
                proof {
                    lemma2_to64();
                    lemma2_to64_rest();
                    assert(s0.skip(l as int) =~= (Seq::<u8>::empty() + s0).skip(l as int));
                }
                buf_advance(src, l);
                Ok(Some(v as u128))
            },
            Ok(None) => {
                proof {
                    lemma_uleb_dec_needmore(s0, 128, 0);
                }
                buf_reserve(src, 1);
                Ok(None)
            },
            Err(e) => Err(e),
        }
    }
}


/// Stateless LEB128 encoder, one method per native integer type.
pub struct Leb128Encoder;

impl Leb128Encoder {

    /// Append the unsigned LEB128 encoding of `item`.
    pub fn encode_u8(&mut self, item: u8, dst: &mut BytesMut) -> (r: Result<(), CodecError>)
        requires
            buf_view(*old(dst)).len() + uleb_bytes(item as nat).len() <= usize::MAX,
        ensures
            r == Ok::<(), CodecError>(()),
            buf_view(*final (dst)) == buf_view(*old(dst)) + uleb_bytes(item as nat),
    {
        let t = uleb_vec(item as u128);
        buf_extend(dst, &t);
        Ok(())
    }

    /// Append the unsigned LEB128 encoding of `item`.
    pub fn encode_u16(&mut self, item: u16, dst: &mut BytesMut) -> (r: Result<(), CodecError>)
        requires
            buf_view(*old(dst)).len() + uleb_bytes(item as nat).len() <= usize::MAX,
        ensures
            r == Ok::<(), CodecError>(()),
            buf_view(*final (dst)) == buf_view(*old(dst)) + uleb_bytes(item as nat),
    {
        let t = uleb_vec(item as u128);
        buf_extend(dst, &t);
        Ok(())
    }

    /// Append the unsigned LEB128 encoding of `item`.
    pub fn encode_u32(&mut self, item: u32, dst: &mut BytesMut) -> (r: Result<(), CodecError>)
        requires
            buf_view(*old(dst)).len() + uleb_bytes(item as nat).len() <= usize::MAX,
        ensures
            r == Ok::<(), CodecError>(()),
            buf_view(*final (dst)) == buf_view(*old(dst)) + uleb_bytes(item as nat),
    {
        let t = uleb_vec(item as u128);
        buf_extend(dst, &t);
        Ok(())
    }

    /// Append the unsigned LEB128 encoding of `item`.
    pub fn encode_u64(&mut self, item: u64, dst: &mut BytesMut) -> (r: Result<(), CodecError>)
        requires
            buf_view(*old(dst)).len() + uleb_bytes(item as nat).len() <= usize::MAX,
        ensures
            r == Ok::<(), CodecError>(()),
            buf_view(*final (dst)) == buf_view(*old(dst)) + uleb_bytes(item as nat),
    {
        let t = uleb_vec(item as u128);
        buf_extend(dst, &t);
        Ok(())
    }

    /// Append the unsigned LEB128 encoding of `item`.
    pub fn encode_u128(&mut self, item: u128, dst: &mut BytesMut) -> (r: Result<(), CodecError>)
        requires
            buf_view(*old(dst)).len() + uleb_bytes(item as nat).len() <= usize::MAX,
        ensures
            r == Ok::<(), CodecError>(()),
            buf_view(*final (dst)) == buf_view(*old(dst)) + uleb_bytes(item as nat),
    {
        let t = uleb_vec(item as u128);
        buf_extend(dst, &t);
        Ok(())
    }

    /// Append the signed LEB128 encoding of `item`.
    pub fn encode_i8(&mut self, item: i8, dst: &mut BytesMut) -> (r: Result<(), CodecError>)
        requires
            buf_view(*old(dst)).len() + sleb_bytes(item as int).len() <= usize::MAX,
        ensures
            r == Ok::<(), CodecError>(()),
            buf_view(*final (dst)) == buf_view(*old(dst)) + sleb_bytes(item as int),
    {
        let t = sleb_vec(item as i128);
        buf_extend(dst, &t);
        Ok(())
    }

    /// Append the signed LEB128 encoding of `item`.
    pub fn encode_i16(&mut self, item: i16, dst: &mut BytesMut) -> (r: Result<(), CodecError>)
        requires
            buf_view(*old(dst)).len() + sleb_bytes(item as int).len() <= usize::MAX,
        ensures
            r == Ok::<(), CodecError>(()),
            buf_view(*final (dst)) == buf_view(*old(dst)) + sleb_bytes(item as int),
    {
        let t = sleb_vec(item as i128);
        buf_extend(dst, &t);
        Ok(())
    }

    /// Append the signed LEB128 encoding of `item`.
    pub fn encode_i32(&mut self, item: i32, dst: &mut BytesMut) -> (r: Result<(), CodecError>)
        requires
            buf_view(*old(dst)).len() + sleb_bytes(item as int).len() <= usize::MAX,
        ensures
            r == Ok::<(), CodecError>(()),
            buf_view(*final (dst)) == buf_view(*old(dst)) + sleb_bytes(item as int),
    {
        let t = sleb_vec(item as i128);
        buf_extend(dst, &t);
        Ok(())
    }

    /// Append the signed LEB128 encoding of `item`.
    pub fn encode_i64(&mut self, item: i64, dst: &mut BytesMut) -> (r: Result<(), CodecError>)
        requires
            buf_view(*old(dst)).len() + sleb_bytes(item as int).len() <= usize::MAX,
        ensures
            r == Ok::<(), CodecError>(()),
            buf_view(*final (dst)) == buf_view(*old(dst)) + sleb_bytes(item as int),
    {
        let t = sleb_vec(item as i128);
        buf_extend(dst, &t);
        Ok(())
    }

    /// Append the signed LEB128 encoding of `item`.
    pub fn encode_i128(&mut self, item: i128, dst: &mut BytesMut) -> (r: Result<(), CodecError>)
        requires
            buf_view(*old(dst)).len() + sleb_bytes(item as int).len() <= usize::MAX,
        ensures
            r == Ok::<(), CodecError>(()),
            buf_view(*final (dst)) == buf_view(*old(dst)) + sleb_bytes(item as int),
    {
        let t = sleb_vec(item as i128);
        buf_extend(dst, &t);
        Ok(())
    }
}

} // verus!
