//! What numbers, texts and settings mean.

use crate::cli::{
    edges_among, header_failure, pair_in, roots_among, settings_of, TokenArgs, TokenChoice,
};
use crate::digest::{hex_of, le_bytes, le_bytes_short, le_number};
use crate::double::{Real, ONE_BITS};
use crate::fidelity::how_many;
use crate::json::{field_from, JsonView};
use crate::numeric::{ceil_div, clamped, elapsed, signed};
use crate::text::{blank, bytes_at_or_before, digit, hexadecimal, position_of, white_space};
use crate::text_map::{by_name, entry_map, name_before};
use crate::trace::agentic::AgenticTurn;
use crate::trace::selection::added_up;
use vstd::arithmetic::power2::pow2;
use vstd::prelude::*;

verus! {

// ---------------------------------------------------------------------------------------------
// Numbers
// ---------------------------------------------------------------------------------------------

/// A number that is brought into a range lies in it, and stays as it is where it did already.
pub proof fn law_clamping_brings_into_range(value: u64, min: u64, max: u64)
    requires
        min <= max,
    ensures
        min <= clamped(value, min, max) <= max,
        min <= value <= max ==> clamped(value, min, max) == value,
        value <= min ==> clamped(value, min, max) == min,
        max <= value ==> clamped(value, min, max) == max,
{
}

/// The time between two moments, added to the first, gives the second; there is none from a moment to
/// an earlier one.
pub proof fn law_elapsed_time_leads_there(later: i64, earlier: i64)
    ensures
        earlier <= later && later - earlier <= i64::MAX ==> earlier + elapsed(later, earlier) == later,
        later <= earlier ==> elapsed(later, earlier) == 0,
        elapsed(later, earlier) <= i64::MAX,
{
}

/// Moments stay as they are as far as they fit.
pub proof fn law_moments_keep_their_value(value: u64)
    ensures
        value <= i64::MAX ==> signed(value) == value,
        value > i64::MAX ==> signed(value) == i64::MAX,
{
}

/// A setting is positive where its sign is clear, it is no infinity and not zero; it is not negative
/// where it is positive or a zero.
pub proof fn law_settings_have_their_sign(setting: Real)
    ensures
        ({
            let exponent = setting.bits / 0x10_0000_0000_0000;
            let negative = setting.bits >= 0x8000_0000_0000_0000;
            let zero = setting.bits == 0 || setting.bits == 0x8000_0000_0000_0000;
            let finite = exponent % 2048 < 2047;
            &&& setting.finite() <==> finite
            &&& setting.positive() <==> finite && !negative && !zero
            &&& setting.not_negative() <==> setting.positive() || zero
            &&& setting.unit() <==> zero || setting.positive() && (exponent < 1023 || setting.bits == 0x3ff0_0000_0000_0000)
            &&& setting.above_zero() <==> setting.positive() || setting.bits == 0x7ff0_0000_0000_0000
            &&& setting.above_one() <==> setting.above_zero() && !setting.unit()
        }),
{
}

/// A draw lies below a number under one exactly where the drawn fraction does: the number is its
/// significand over a power of two, and the draw a count over the number of draws.
pub proof fn law_draws_lie_below_their_number(setting: Real, word: u64)
    requires
        setting.bits < ONE_BITS,
    ensures
        setting.exceeds_draw(word) <==> (word / 2048) * pow2(setting.fraction_shift()) < setting.significand(),
{
    let k = (word / 2048) as int;
    let m = setting.significand() as int;
    let b = pow2(setting.fraction_shift()) as int;
    vstd::arithmetic::power2::lemma_pow2_pos(setting.fraction_shift());
    let q = ceil_div(setting.significand(), pow2(setting.fraction_shift())) as int;
    let r = (m + b - 1) % b;
    vstd::arithmetic::div_mod::lemma_fundamental_div_mod(m + b - 1, b);
    assert(k < q <==> k * b < m) by (nonlinear_arith)
        requires
            m + b - 1 == b * q + r,
            0 <= r < b,
            b > 0,
    ;
}

/// Eight bytes read back as the number that they were written for, and four as its lower half would.
pub proof fn law_bytes_read_back(value: u64, short: u32, i: int)
    requires
        0 <= i < 4,
    ensures
        le_bytes(value).len() == 8,
        le_number(le_bytes(value)) == value,
        le_bytes_short(short).len() == 4,
        le_bytes_short(short)[i] == le_bytes(short as u64)[i],
{
    let bytes = le_bytes(value);
    let a0 = (value >> 0) & 0xff;
    let a1 = (value >> 8) & 0xff;
    let a2 = (value >> 16) & 0xff;
    let a3 = (value >> 24) & 0xff;
    let a4 = (value >> 32) & 0xff;
    let a5 = (value >> 40) & 0xff;
    let a6 = (value >> 48) & 0xff;
    let a7 = (value >> 56) & 0xff;
    assert((a0 as u8) as u64 == a0 && (a1 as u8) as u64 == a1 && (a2 as u8) as u64 == a2 && (a3 as u8) as u64 == a3
        && (a4 as u8) as u64 == a4 && (a5 as u8) as u64 == a5 && (a6 as u8) as u64 == a6 && (a7 as u8) as u64 == a7
        && a0 | (a1 << 8) | (a2 << 16) | (a3 << 24) | (a4 << 32) | (a5 << 40) | (a6 << 48) | (a7 << 56) == value)
        by (bit_vector)
        requires
            a0 == (value >> 0) & 0xff,
            a1 == (value >> 8) & 0xff,
            a2 == (value >> 16) & 0xff,
            a3 == (value >> 24) & 0xff,
            a4 == (value >> 32) & 0xff,
            a5 == (value >> 40) & 0xff,
            a6 == (value >> 48) & 0xff,
            a7 == (value >> 56) & 0xff,
    ;
    assert(bytes[0] == a0 as u8);
    assert(bytes[1] == a1 as u8);
    assert(bytes[2] == a2 as u8);
    assert(bytes[3] == a3 as u8);
    assert(bytes[4] == a4 as u8);
    assert(bytes[5] == a5 as u8);
    assert(bytes[6] == a6 as u8);
    assert(bytes[7] == a7 as u8);
    let shift = (8 * i) as u32;
    let wide = (8 * i) as u64;
    let long = short as u64;
    let x = (short >> shift) & 0xff;
    let y = (long >> wide) & 0xff;
    assert(x == y && x <= 0xff) by (bit_vector)
        requires
            shift < 32,
            wide == shift,
            long == short,
            x == (short >> shift) & 0xff,
            y == (long >> wide) & 0xff,
    ;
}

/// Two hexadecimal digits stand for each byte, the higher one first; so no two byte strings have one
/// form.
pub proof fn law_hexadecimal_forms_tell_bytes_apart(a: Seq<u8>, b: Seq<u8>)
    requires
        hex_of(a) == hex_of(b),
    ensures
        a == b,
{
    assert(hex_of(a).len() == 2 * a.len());
    assert(hex_of(b).len() == 2 * b.len());
    assert forall|i: int| 0 <= i < a.len() implies #[trigger] a[i] == b[i] by {
        let high = 2 * i;
        let low = 2 * i + 1;
        assert(high % 2 == 0 && high / 2 == i && low % 2 == 1 && low / 2 == i);
        assert(hex_of(a)[high] == digit((a[high / 2] / 16) as int));
        assert(hex_of(b)[high] == digit((b[high / 2] / 16) as int));
        assert(hex_of(a)[low] == digit((a[low / 2] % 16) as int));
        assert(hex_of(b)[low] == digit((b[low / 2] % 16) as int));
        lemma_digits((a[i] / 16) as int, (b[i] / 16) as int);
        lemma_digits((a[i] % 16) as int, (b[i] % 16) as int);
    }
    assert(a =~= b);
}

proof fn lemma_digits(a: int, b: int)
    requires
        0 <= a < 16,
        0 <= b < 16,
        digit(a) == digit(b),
    ensures
        a == b,
{
    assert(digit(a) as int == if a < 10 {
        48 + a
    } else {
        87 + a
    });
    assert(digit(b) as int == if b < 10 {
        48 + b
    } else {
        87 + b
    });
}

/// A hexadecimal numeral has the width asked for, and its digits count down from the highest.
pub proof fn law_hexadecimal_numerals_end_with_the_lowest(value: nat, width: nat)
    ensures
        hexadecimal(value, width).len() == width,
        width > 0 ==> hexadecimal(value, width)[width - 1] == digit((value % 16) as int),
        width > 0 ==> hexadecimal(value, width).take(width - 1) == hexadecimal(value / 16, (width - 1) as nat),
    decreases width,
{
    if width > 0 {
        law_hexadecimal_numerals_end_with_the_lowest(value / 16, (width - 1) as nat);
        assert(hexadecimal(value, width).take(width - 1) =~= hexadecimal(value / 16, (width - 1) as nat));
    }
}

// ---------------------------------------------------------------------------------------------
// Texts
// ---------------------------------------------------------------------------------------------

/// Bytes are ordered by the first that differs; where none does, the shorter string comes first.
pub proof fn law_bytes_are_ordered_by_the_first_that_differs(a: Seq<u8>, b: Seq<u8>, n: int)
    requires
        0 <= n <= a.len(),
        n <= b.len(),
        forall|i: int| 0 <= i < n ==> a[i] == b[i],
    ensures
        n < a.len() && n < b.len() && a[n] < b[n] ==> bytes_at_or_before(a, b) && !bytes_at_or_before(b, a),
        n == a.len() ==> bytes_at_or_before(a, b),
        n == b.len() && n < a.len() ==> !bytes_at_or_before(a, b),
    decreases n,
{
    if n > 0 {
        let x = a.drop_first();
        let y = b.drop_first();
        assert forall|i: int| 0 <= i < n - 1 implies x[i] == y[i] by {
            assert(a[i + 1] == b[i + 1]);
        }
        assert(a[0] == b[0]);
        law_bytes_are_ordered_by_the_first_that_differs(x, y, n - 1);
    }
}

/// A text is blank where every character of it is a space of some kind: those up to the carriage return
/// from the tab on, the plain space, and the wider ones.
pub proof fn law_blank_texts_hold_spaces(text: Seq<char>, i: int)
    requires
        0 <= i < text.len(),
    ensures
        blank(text) ==> white_space(text[i]),
        text[i] as u32 >= 0x21 && text[i] as u32 <= 0x7e ==> !blank(text),
        text.len() == 1 && (text[0] == ' ' || text[0] as u32 == 9 || text[0] as u32 == 10 || text[0] as u32 == 13)
            ==> blank(text),
        blank(Seq::<char>::empty()),
{
}

/// A name and a value come apart at the first equals sign, whatever the value holds.
pub proof fn law_pairs_come_apart_at_the_first_sign(name: Seq<char>, value: Seq<char>)
    requires
        forall|i: int| 0 <= i < name.len() ==> name[i] != '=',
    ensures
        pair_in(name + seq!['='] + value) == Some((name, value)),
        pair_in(name) is None,
{
    let text = name + seq!['='] + value;
    lemma_first_sign(text, name.len() as int);
    lemma_first_sign(name, name.len() as int);
    assert(text.take(name.len() as int) =~= name);
    assert(text.skip(name.len() as int + 1) =~= value);
}

proof fn lemma_first_sign(text: Seq<char>, n: int)
    requires
        0 <= n <= text.len(),
        forall|i: int| 0 <= i < n ==> text[i] != '=',
        n < text.len() ==> text[n] == '=',
    ensures
        position_of(text, '=') == n,
    decreases text.len(),
{
    if n > 0 {
        lemma_first_sign(text.drop_first(), n - 1);
    }
}

/// The name in a pair.
pub open spec fn name_in(text: Seq<char>) -> Seq<char> {
    match pair_in(text) {
        Some((name, _)) => name,
        None => Seq::empty(),
    }
}

/// The value in a pair.
pub open spec fn value_in(text: Seq<char>) -> Seq<char> {
    match pair_in(text) {
        Some((_, value)) => value,
        None => Seq::empty(),
    }
}

/// Headers are accepted exactly where each of them is a pair with a name.
pub proof fn law_headers_are_named_pairs(headers: Seq<String>, n: nat)
    requires
        n <= headers.len(),
    ensures
        header_failure(headers, n) is None <==> forall|i: int|
            0 <= i < n ==> pair_in((#[trigger] headers[i])@) is Some && name_in(headers[i]@).len() > 0,
    decreases n,
{
    if n > 0 {
        law_headers_are_named_pairs(headers, (n - 1) as nat);
        if header_failure(headers, n) is None {
            assert(header_failure(headers, (n - 1) as nat) is None);
        }
    }
}

/// Settings are accepted where each is a pair of a name and a value that are not empty, and no name
/// comes twice; what they say is then what each of them says, and nothing else.
pub proof fn law_settings_say_each_thing_once(values: Seq<String>, label: Seq<char>, n: nat)
    requires
        n <= values.len(),
        settings_of(values, label, n) is Ok,
    ensures
        ({
            let settings = settings_of(values, label, n)->Ok_0;
            &&& forall|i: int|
                0 <= i < n ==> {
                    let text = (#[trigger] values[i])@;
                    &&& pair_in(text) is Some
                    &&& name_in(text).len() > 0
                    &&& value_in(text).len() > 0
                    &&& settings.contains_pair(name_in(text), value_in(text))
                }
            &&& forall|i: int, j: int|
                0 <= i < j < n ==> name_in((#[trigger] values[i])@) != name_in((#[trigger] values[j])@)
            &&& forall|name: Seq<char>| #[trigger]
                settings.contains_key(name) ==> exists|i: int|
                    0 <= i < n && name_in((#[trigger] values[i])@) == name
        }),
    decreases n,
{
    if n > 0 {
        let m = (n - 1) as nat;
        law_settings_say_each_thing_once(values, label, m);
        let before = settings_of(values, label, m)->Ok_0;
        let settings = settings_of(values, label, n)->Ok_0;
        let last = pair_in(values[n - 1]@)->0;
        assert forall|i: int, j: int| 0 <= i < j < n implies name_in((#[trigger] values[i])@) != name_in(
            (#[trigger] values[j])@,
        ) by {
            if j == n - 1 {
                assert(before.contains_pair(name_in(values[i]@), value_in(values[i]@)));
            }
        }
        assert forall|name: Seq<char>| #[trigger] settings.contains_key(name) implies exists|i: int|
            0 <= i < n && name_in((#[trigger] values[i])@) == name by {
            if name == last.0 {
                assert(name_in(values[n - 1]@) == name);
            } else {
                assert(before.contains_key(name));
                let i = choose|i: int| 0 <= i < m && name_in((#[trigger] values[i])@) == name;
                assert(name_in(values[i]@) == name);
            }
        }
    }
}

/// A field of an object is one that it has; of several with one name it is the first.
pub proof fn law_fields_are_found(fields: Seq<(Seq<char>, JsonView)>, name: Seq<char>, i: int)
    requires
        0 <= i <= fields.len(),
        forall|k: int| 0 <= k < i ==> (#[trigger] fields[k]).0 != name,
        i < fields.len() ==> fields[i].0 == name,
    ensures
        i < fields.len() ==> JsonView::Object(fields).field(name) == Some(fields[i].1),
        i == fields.len() ==> JsonView::Object(fields).field(name) is None,
{
    lemma_fields(fields, name, 0, i);
}

proof fn lemma_fields(fields: Seq<(Seq<char>, JsonView)>, name: Seq<char>, n: nat, i: int)
    requires
        n <= i <= fields.len(),
        forall|k: int| n <= k < i ==> (#[trigger] fields[k]).0 != name,
        i < fields.len() ==> fields[i].0 == name,
    ensures
        field_from(fields, name, n) == if i < fields.len() {
            Some(fields[i].1)
        } else {
            None
        },
    decreases i - n,
{
    if n < i {
        assert(fields[n as int].0 != name);
        lemma_fields(fields, name, n + 1, i);
    }
}

/// The map that ordered entries make up has the value of each under its name.
pub proof fn law_entries_keep_their_values(entries: Seq<(Seq<char>, Seq<char>)>, i: int)
    requires
        by_name(entries),
        0 <= i < entries.len(),
    ensures
        entry_map(entries).contains_pair(entries[i].0, entries[i].1),
    decreases entries.len(),
{
    let head = entries.drop_last();
    if i < head.len() {
        assert forall|a: int, b: int| 0 <= a < b < head.len() implies name_before(
            (#[trigger] head[a]).0,
            (#[trigger] head[b]).0,
        ) by {
            assert(name_before(entries[a].0, entries[b].0));
        }
        law_entries_keep_their_values(head, i);
        assert(name_before(entries[i].0, entries[entries.len() - 1].0));
    }
}

// ---------------------------------------------------------------------------------------------
// Arguments
// ---------------------------------------------------------------------------------------------

/// Tokens come from a tokenizer where one is given and no range is allowed, and from a range where one
/// is given and allowed; anything else is refused.
pub proof fn law_tokens_come_from_one_source(args: TokenArgs)
    ensures
        ({
            let allowed = args.allow_unverified_token_range;
            &&& (args.choice() is Ok && args.choice()->Ok_0 is Tokenizer) <==> args.tokenizer is Some
                && args.token_start is None && !allowed
            &&& (args.choice() is Ok && args.choice()->Ok_0 is Range) <==> args.tokenizer is None
                && args.token_start is Some && allowed && args.token_alphabet_size <= u32::MAX
            &&& args.choice() is Ok ==> match args.choice()->Ok_0 {
                TokenChoice::Tokenizer(name) => args.tokenizer == Some(name),
                TokenChoice::Range { start, size } => args.token_start == Some(start) && size
                    == args.token_alphabet_size,
            }
        }),
{
}

/// The roots of a graph are the turns that wait for nothing, and its edges are what the others wait for.
pub proof fn law_roots_and_edges_are_counted(turns: Seq<AgenticTurn>, n: nat)
    ensures
        roots_among(turns, n) == how_many(n, |i: int| turns[i].dependencies@.len() == 0),
        edges_among(turns, n) == added_up(n, |i: int| turns[i].dependencies@.len()),
    decreases n,
{
    if n > 0 {
        law_roots_and_edges_are_counted(turns, (n - 1) as nat);
    }
}

} // verus!
