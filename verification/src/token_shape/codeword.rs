//! Codewords: one block of tokens for each sequence hash.

use vstd::arithmetic::power::pow;
use vstd::prelude::*;

verus! {

/// `value` xor itself shifted right.
pub open spec fn folded(value: u64, shift: u64) -> u64 {
    value ^ (value >> shift)
}

/// The mixed form of `value`: a permutation of the words.
pub open spec fn mixed(value: u64) -> u64 {
    let a = folded(value.wrapping_add(0x9e37_79b9_7f4a_7c15), 30).wrapping_mul(0xbf58_476d_1ce4_e5b9);
    let b = folded(a, 27).wrapping_mul(0x94d0_49bb_1331_11eb);
    folded(b, 31)
}

/// Mixes the bits of `value`.
pub fn splitmix64(value: u64) -> (result: u64)
    ensures
        result == mixed(value),
{
    let a = value.wrapping_add(0x9e37_79b9_7f4a_7c15);
    let b = (a ^ (a >> 30u64)).wrapping_mul(0xbf58_476d_1ce4_e5b9);
    let c = (b ^ (b >> 27u64)).wrapping_mul(0x94d0_49bb_1331_11eb);
    c ^ (c >> 31u64)
}

proof fn lemma_folded_injective(a: u64, b: u64)
    ensures
        folded(a, 30) == folded(b, 30) ==> a == b,
        folded(a, 27) == folded(b, 27) ==> a == b,
        folded(a, 31) == folded(b, 31) ==> a == b,
{
    assert(a ^ (a >> 30u64) == b ^ (b >> 30u64) ==> a == b) by (bit_vector);
    assert(a ^ (a >> 27u64) == b ^ (b >> 27u64) ==> a == b) by (bit_vector);
    assert(a ^ (a >> 31u64) == b ^ (b >> 31u64) ==> a == b) by (bit_vector);
}

/// Multiplication by `factor` can be undone: `inverse` times `factor` is one more than a
/// multiple of the word size.
proof fn lemma_multiply_injective(a: u64, b: u64, factor: u64, inverse: u64)
    requires
        factor * inverse % 0x1_0000_0000_0000_0000 == 1,
        a.wrapping_mul(factor) == b.wrapping_mul(factor),
    ensures
        a == b,
{
    let m: int = 0x1_0000_0000_0000_0000;
    lemma_multiply_undone(a, factor, inverse);
    lemma_multiply_undone(b, factor, inverse);
}

proof fn lemma_multiply_undone(a: u64, factor: u64, inverse: u64)
    requires
        factor * inverse % 0x1_0000_0000_0000_0000 == 1,
    ensures
        a.wrapping_mul(factor) * inverse % 0x1_0000_0000_0000_0000 == a,
{
    let m: int = 0x1_0000_0000_0000_0000;
    let product = a * factor;
    assert(a.wrapping_mul(factor) == product % m);
    vstd::arithmetic::div_mod::lemma_mul_mod_noop_left(product, inverse as int, m);
    assert(product * inverse == a * (factor * inverse)) by (nonlinear_arith)
        requires
            product == a * factor,
    ;
    vstd::arithmetic::div_mod::lemma_mul_mod_noop_right(a as int, factor * inverse, m);
    assert((a * 1) % m == a);
}

/// Mixing loses nothing.
pub proof fn law_mixing_is_injective(a: u64, b: u64)
    requires
        mixed(a) == mixed(b),
    ensures
        a == b,
{
    let a1 = a.wrapping_add(0x9e37_79b9_7f4a_7c15);
    let b1 = b.wrapping_add(0x9e37_79b9_7f4a_7c15);
    let a2 = folded(a1, 30).wrapping_mul(0xbf58_476d_1ce4_e5b9);
    let b2 = folded(b1, 30).wrapping_mul(0xbf58_476d_1ce4_e5b9);
    let a3 = folded(a2, 27).wrapping_mul(0x94d0_49bb_1331_11eb);
    let b3 = folded(b2, 27).wrapping_mul(0x94d0_49bb_1331_11eb);
    lemma_folded_injective(a3, b3);
    assert(0x94d0_49bb_1331_11eb * 0x3196_42b2_d24d_8ec3 % 0x1_0000_0000_0000_0000 == 1);
    lemma_multiply_injective(folded(a2, 27), folded(b2, 27), 0x94d0_49bb_1331_11eb, 0x3196_42b2_d24d_8ec3);
    lemma_folded_injective(a2, b2);
    assert(0xbf58_476d_1ce4_e5b9 * 0x96de_1b17_3f11_9089 % 0x1_0000_0000_0000_0000 == 1);
    lemma_multiply_injective(folded(a1, 30), folded(b1, 30), 0xbf58_476d_1ce4_e5b9, 0x96de_1b17_3f11_9089);
    lemma_folded_injective(a1, b1);
}

/// Digit `position` of `value` in the given base, the least significant one at position zero.
pub open spec fn digit_at(value: nat, base: nat, position: nat) -> nat {
    (value as int / pow(base as int, position)) as nat % base
}

/// The block of tokens for a hash: the digits of the mixed hash, the least significant first,
/// each as the token that the alphabet holds for it.
pub open spec fn codeword(hash: u64, block_size: nat, token_ids: Seq<u32>) -> Seq<u32> {
    Seq::new(block_size, |i: int| token_at(hash, token_ids, i as nat))
}

/// The token at one position of the codeword of a hash.
pub open spec fn token_at(hash: u64, token_ids: Seq<u32>, position: nat) -> u32 {
    token_ids[digit_at(mixed(hash) as nat, token_ids.len(), position) as int]
}

/// The alphabet has enough codewords of this length for every hash.
pub open spec fn encodes_every_hash(block_size: nat, alphabet_size: nat) -> bool {
    pow(alphabet_size as int, block_size) > u64::MAX
}

/// Writes the codeword of a hash.
pub(crate) fn spell_codeword(hash: u64, block_size: usize, token_ids: &Vec<u32>) -> (tokens: Vec<u32>)
    requires
        token_ids@.len() >= 1,
    ensures
        tokens@ == codeword(hash, block_size as nat, token_ids@),
{
    let base = token_ids.len() as u64;
    let start = splitmix64(hash);
    let mut value: u64 = start;
    let mut tokens: Vec<u32> = Vec::with_capacity(block_size);
    proof {
        vstd::arithmetic::power::lemma_pow0(base as int);
    }
    let mut i: usize = 0;
    while i < block_size
        invariant
            i <= block_size,
            base == token_ids@.len(),
            base <= usize::MAX,
            base >= 1,
            start == mixed(hash),
            pow(base as int, i as nat) > 0,
            value as int == start as int / pow(base as int, i as nat),
            tokens@ == codeword(hash, block_size as nat, token_ids@).take(i as int),
        decreases block_size - i,
    {
        let digit = value % base;
        assert(digit < token_ids@.len() && digit as usize == digit);
        proof {
            assert(digit == digit_at(start as nat, base as nat, i as nat));
            assert(token_ids@[digit as int] == token_at(hash, token_ids@, i as nat));
        }
        let ghost done = tokens@;
        tokens.push(token_ids[digit as usize]);
        proof {
            let whole = codeword(hash, block_size as nat, token_ids@);
            assert(whole[i as int] == token_at(hash, token_ids@, i as nat));
            assert(tokens@ =~= done.push(whole[i as int]));
            assert(whole.take(i + 1) =~= whole.take(i as int).push(whole[i as int]));
            vstd::arithmetic::power::lemma_pow_positive(base as int, (i + 1) as nat);
            vstd::arithmetic::power::lemma_pow_adds(base as int, i as nat, 1);
            vstd::arithmetic::power::lemma_pow1(base as int);
            vstd::arithmetic::div_mod::lemma_div_denominator(
                start as int,
                pow(base as int, i as nat),
                base as int,
            );
        }
        value = value / base;
        i += 1;
    }
    assert(tokens@ =~= codeword(hash, block_size as nat, token_ids@));
    tokens
}

/// Tells whether the alphabet has enough codewords of this length for every hash.
pub(crate) fn has_capacity(block_size: usize, alphabet_size: usize) -> (result: bool)
    ensures
        result == encodes_every_hash(block_size as nat, alphabet_size as nat),
{
    let mut capacity: u128 = 1;
    let base = alphabet_size as u128;
    proof {
        vstd::arithmetic::power::lemma_pow0(alphabet_size as int);
    }
    let mut i: usize = 0;
    while i < block_size
        invariant
            i <= block_size,
            base == alphabet_size,
            capacity <= u64::MAX,
            capacity == pow(alphabet_size as int, i as nat),
        decreases block_size - i,
    {
        let ghost before = capacity as int;
        proof {
            assert(0 <= before * base <= 0xffff_ffff_ffff_ffff * 0xffff_ffff_ffff_ffff) by (nonlinear_arith)
                requires
                    0 <= before <= 0xffff_ffff_ffff_ffff,
                    0 <= base <= 0xffff_ffff_ffff_ffff,
            ;
            vstd::arithmetic::power::lemma_pow_adds(alphabet_size as int, i as nat, 1);
            vstd::arithmetic::power::lemma_pow1(alphabet_size as int);
        }
        capacity = capacity * base;
        i += 1;
        if capacity > u64::MAX as u128 {
            proof {
                assert(base >= 1) by (nonlinear_arith)
                    requires
                        before * base > 0,
                        base >= 0,
                ;
                vstd::arithmetic::power::lemma_pow_increases(alphabet_size as nat, i as nat, block_size as nat);
            }
            return true;
        }
    }
    false
}

/// Two numbers below the capacity that agree in every digit are one number.
proof fn lemma_digits_fix_the_number(a: nat, b: nat, base: nat, length: nat)
    requires
        base >= 1,
        a < pow(base as int, length),
        b < pow(base as int, length),
        forall|i: nat| i < length ==> #[trigger] digit_at(a, base, i) == digit_at(b, base, i),
    ensures
        a == b,
    decreases length,
{
    vstd::arithmetic::power::lemma_pow0(base as int);
    if length > 0 {
        vstd::arithmetic::power::lemma_pow1(base as int);
        let qa = a / base;
        let qb = b / base;
        assert(digit_at(a, base, 0) == digit_at(b, base, 0));
        assert(a as int / pow(base as int, 0) == a);
        assert(b as int / pow(base as int, 0) == b);
        assert forall|i: nat| i < length - 1 implies #[trigger] digit_at(qa, base, i) == digit_at(qb, base, i) by {
            assert(digit_at(a, base, i + 1) == digit_at(b, base, i + 1));
            lemma_digit_shift(a, base, i);
            lemma_digit_shift(b, base, i);
        }
        lemma_quotient_below(a, base, length);
        lemma_quotient_below(b, base, length);
        lemma_digits_fix_the_number(qa, qb, base, (length - 1) as nat);
        vstd::arithmetic::div_mod::lemma_fundamental_div_mod(a as int, base as int);
        vstd::arithmetic::div_mod::lemma_fundamental_div_mod(b as int, base as int);
    }
}

proof fn lemma_digit_shift(value: nat, base: nat, i: nat)
    requires
        base >= 1,
    ensures
        digit_at(value, base, i + 1) == digit_at(value / base, base, i),
{
    vstd::arithmetic::power::lemma_pow_positive(base as int, i);
    vstd::arithmetic::power::lemma_pow_adds(base as int, 1, i);
    vstd::arithmetic::power::lemma_pow1(base as int);
    vstd::arithmetic::div_mod::lemma_div_denominator(value as int, base as int, pow(base as int, i));
}

proof fn lemma_quotient_below(value: nat, base: nat, length: nat)
    requires
        base >= 1,
        length > 0,
        value < pow(base as int, length),
    ensures
        value / base < pow(base as int, (length - 1) as nat),
{
    let p = pow(base as int, (length - 1) as nat);
    vstd::arithmetic::power::lemma_pow_adds(base as int, 1, (length - 1) as nat);
    vstd::arithmetic::power::lemma_pow1(base as int);
    let v = value as int;
    let b = base as int;
    assert(v / b < p) by (nonlinear_arith)
        requires
            v < b * p,
            b >= 1,
            v >= 0,
    ;
}

/// Different hashes have different codewords, wherever the alphabet lists no token twice and
/// has room for every hash.
pub proof fn law_codewords_tell_hashes_apart(a: u64, b: u64, block_size: nat, token_ids: Seq<u32>)
    requires
        token_ids.no_duplicates(),
        encodes_every_hash(block_size, token_ids.len()),
        codeword(a, block_size, token_ids) == codeword(b, block_size, token_ids),
    ensures
        a == b,
{
    let base = token_ids.len();
    let x = mixed(a) as nat;
    let y = mixed(b) as nat;
    if base == 0 {
        vstd::arithmetic::power::lemma_pow0(0);
        if block_size > 0 {
            vstd::arithmetic::power::lemma0_pow(block_size);
        }
    }
    assert forall|i: nat| i < block_size implies #[trigger] digit_at(x, base, i) == digit_at(y, base, i) by {
        assert(codeword(a, block_size, token_ids)[i as int] == codeword(b, block_size, token_ids)[i as int]);
        let da = digit_at(x, base, i) as int;
        let db = digit_at(y, base, i) as int;
        assert(codeword(a, block_size, token_ids)[i as int] == token_at(a, token_ids, i));
        assert(codeword(b, block_size, token_ids)[i as int] == token_at(b, token_ids, i));
        assert(token_ids[da] == token_ids[db]);
    }
    lemma_digits_fix_the_number(x, y, base, block_size);
    law_mixing_is_injective(a, b);
}

/// The low digits of a number are those of its remainder.
proof fn lemma_low_digits(value: nat, base: nat, length: nat, i: nat)
    requires
        base >= 1,
        i < length,
    ensures
        digit_at((value as int % pow(base as int, length)) as nat, base, i) == digit_at(value, base, i),
{
    let b = base as int;
    let v = value as int;
    let low = pow(b, i);
    let high = pow(b, (length - i - 1) as nat);
    let whole = pow(b, length);
    vstd::arithmetic::power::lemma_pow_positive(b, i);
    vstd::arithmetic::power::lemma_pow_positive(b, length);
    vstd::arithmetic::power::lemma_pow_adds(b, i, (length - i) as nat);
    vstd::arithmetic::power::lemma_pow_adds(b, 1, (length - i - 1) as nat);
    vstd::arithmetic::power::lemma_pow1(b);
    let q = v / whole;
    let r = v % whole;
    vstd::arithmetic::div_mod::lemma_fundamental_div_mod(v, whole);
    vstd::arithmetic::div_mod::lemma_mod_bound(v, whole);
    assert(v == low * (b * (high * q)) + r) by (nonlinear_arith)
        requires
            v == whole * q + r,
            whole == low * (b * high),
    ;
    vstd::arithmetic::div_mod::lemma_hoist_over_denominator(r, b * (high * q), low as nat);
    assert(v / low == r / low + b * (high * q)) by (nonlinear_arith)
        requires
            v == low * (b * (high * q)) + r,
            r / low + b * (high * q) == (r + (b * (high * q)) * low) / low,
    ;
    vstd::arithmetic::div_mod::lemma_div_pos_is_pos(r, low);
    vstd::arithmetic::div_mod::lemma_div_pos_is_pos(v, low);
    vstd::arithmetic::div_mod::lemma_mod_multiples_vanish(high * q, r / low, b);
}

/// A block that is cut short keeps as much of a hash as its tokens can hold: the first `length`
/// tokens of two hashes are the same exactly where their mixtures leave the same remainder by the
/// number of such blocks.
pub proof fn law_cut_blocks_keep_remainders(a: u64, b: u64, block_size: nat, length: nat, token_ids: Seq<u32>)
    requires
        token_ids.no_duplicates(),
        token_ids.len() > 0,
        length <= block_size,
    ensures
        codeword(a, block_size, token_ids).take(length as int) == codeword(b, block_size, token_ids).take(
            length as int,
        ) <==> mixed(a) as int % pow(token_ids.len() as int, length) == mixed(b) as int % pow(
            token_ids.len() as int,
            length,
        ),
{
    let base = token_ids.len();
    let x = mixed(a) as nat;
    let y = mixed(b) as nat;
    let whole = pow(base as int, length);
    let s = codeword(a, block_size, token_ids);
    let t = codeword(b, block_size, token_ids);
    vstd::arithmetic::power::lemma_pow_positive(base as int, length);
    vstd::arithmetic::div_mod::lemma_mod_bound(x as int, whole);
    vstd::arithmetic::div_mod::lemma_mod_bound(y as int, whole);
    let p = (x as int % whole) as nat;
    let q = (y as int % whole) as nat;
    assert forall|i: nat| i < length implies #[trigger] digit_at(p, base, i) == digit_at(x, base, i) && digit_at(
        q,
        base,
        i,
    ) == digit_at(y, base, i) && s[i as int] == token_ids[digit_at(x, base, i) as int] && t[i as int]
        == token_ids[digit_at(y, base, i) as int] by {
        lemma_low_digits(x, base, length, i);
        lemma_low_digits(y, base, length, i);
        assert(s[i as int] == token_at(a, token_ids, i));
        assert(t[i as int] == token_at(b, token_ids, i));
    }
    if s.take(length as int) == t.take(length as int) {
        assert forall|i: nat| i < length implies #[trigger] digit_at(p, base, i) == digit_at(q, base, i) by {
            assert(s.take(length as int)[i as int] == t.take(length as int)[i as int]);
            let da = digit_at(x, base, i) as int;
            let db = digit_at(y, base, i) as int;
            assert(digit_at(p, base, i) == da);
            assert(token_ids[da] == token_ids[db]);
        }
        lemma_digits_fix_the_number(p, q, base, length);
    }
    if p == q {
        assert forall|i: int| 0 <= i < length implies s.take(length as int)[i] == t.take(length as int)[i] by {
            assert(digit_at(p, base, i as nat) == digit_at(x, base, i as nat));
        }
        assert(s.take(length as int) =~= t.take(length as int));
    }
}

} // verus!
