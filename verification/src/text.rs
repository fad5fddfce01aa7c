//! Text assembly: decimal and hexadecimal numerals, white space, byte order.

use vstd::prelude::*;
use vstd::utf8::{decode_utf8, encode_utf8, valid_utf8};

verus! {

/// The lower-case digit for a value below sixteen.
pub open spec fn digit(value: int) -> char {
    if value < 10 {
        (48 + value) as char
    } else {
        (87 + value) as char
    }
}

/// The decimal numeral of `value`, without leading zeros.
pub open spec fn decimal(value: nat) -> Seq<char>
    decreases value,
{
    if value < 10 {
        seq![digit(value as int)]
    } else {
        decimal(value / 10).push(digit((value % 10) as int))
    }
}

proof fn lemma_digits_differ(a: int, b: int)
    requires
        0 <= a < 10,
        0 <= b < 10,
        digit(a) == digit(b),
    ensures
        a == b,
{
    assert(digit(a) as int == 48 + a);
    assert(digit(b) as int == 48 + b);
}

/// Different numbers have different decimal numerals.
pub proof fn law_decimals_differ(a: nat, b: nat)
    requires
        decimal(a) == decimal(b),
    ensures
        a == b,
    decreases a,
{
    let x = decimal(a);
    let y = decimal(b);
    assert(x.last() == digit((a % 10) as int));
    assert(y.last() == digit((b % 10) as int));
    lemma_digits_differ((a % 10) as int, (b % 10) as int);
    if a < 10 && b >= 10 {
        lemma_decimal_is_not_empty(b / 10);
        assert(x.len() == 1);
    } else if b < 10 && a >= 10 {
        lemma_decimal_is_not_empty(a / 10);
        assert(y.len() == 1);
    } else if a >= 10 {
        assert(x.drop_last() =~= decimal(a / 10));
        assert(y.drop_last() =~= decimal(b / 10));
        law_decimals_differ(a / 10, b / 10);
    }
}

proof fn lemma_decimal_is_not_empty(value: nat)
    ensures
        decimal(value).len() > 0,
{
}

/// The lower-case hexadecimal numeral of the low `width` digits of `value`.
pub open spec fn hexadecimal(value: nat, width: nat) -> Seq<char>
    decreases width,
{
    if width == 0 {
        Seq::empty()
    } else {
        hexadecimal(value / 16, (width - 1) as nat).push(digit((value % 16) as int))
    }
}

fn digit_text(value: u64) -> (text: &'static str)
    requires
        value < 16,
    ensures
        text@ == seq![digit(value as int)],
{
    proof {
        reveal_strlit("0");
        reveal_strlit("1");
        reveal_strlit("2");
        reveal_strlit("3");
        reveal_strlit("4");
        reveal_strlit("5");
        reveal_strlit("6");
        reveal_strlit("7");
        reveal_strlit("8");
        reveal_strlit("9");
        reveal_strlit("a");
        reveal_strlit("b");
        reveal_strlit("c");
        reveal_strlit("d");
        reveal_strlit("e");
        reveal_strlit("f");
    }
    let text = match value {
        0 => "0",
        1 => "1",
        2 => "2",
        3 => "3",
        4 => "4",
        5 => "5",
        6 => "6",
        7 => "7",
        8 => "8",
        9 => "9",
        10 => "a",
        11 => "b",
        12 => "c",
        13 => "d",
        14 => "e",
        _ => "f",
    };
    assert(text@ =~= seq![digit(value as int)]);
    text
}

/// Writes `value` in decimal.
pub fn decimal_text(value: u64) -> (text: String)
    ensures
        text@ == decimal(value as nat),
    decreases value,
{
    if value < 10 {
        digit_text(value).to_string()
    } else {
        let mut text = decimal_text(value / 10);
        text.append(digit_text(value % 10));
        assert(text@ =~= decimal(value as nat));
        text
    }
}

/// Writes the low `width` hexadecimal digits of `value`.
pub fn hexadecimal_text(value: u64, width: u64) -> (text: String)
    ensures
        text@ == hexadecimal(value as nat, width as nat),
    decreases width,
{
    if width == 0 {
        String::new()
    } else {
        let mut text = hexadecimal_text(value / 16, width - 1);
        text.append(digit_text(value % 16));
        assert(text@ =~= hexadecimal(value as nat, width as nat));
        text
    }
}

/// The Unicode `White_Space` property.
pub open spec fn white_space(c: char) -> bool {
    ||| 0x09 <= c as u32 <= 0x0d
    ||| c as u32 == 0x20
    ||| c as u32 == 0x85
    ||| c as u32 == 0xa0
    ||| c as u32 == 0x1680
    ||| 0x2000 <= c as u32 <= 0x200a
    ||| c as u32 == 0x2028
    ||| c as u32 == 0x2029
    ||| c as u32 == 0x202f
    ||| c as u32 == 0x205f
    ||| c as u32 == 0x3000
}

/// Text that is empty or holds white space only.
pub open spec fn blank(text: Seq<char>) -> bool {
    forall|i: int| 0 <= i < text.len() ==> white_space(#[trigger] text[i])
}

/// Tells whether `text` is blank.
pub fn is_blank(text: &str) -> (result: bool)
    ensures
        result == blank(text@),
{
    for c in it: text.chars()
        invariant
            it.seq() == text@,
            forall|i: int| 0 <= i < it.index() ==> white_space(#[trigger] text@[i]),
    {
        let code = c as u32;
        let white = (0x09 <= code && code <= 0x0d) || code == 0x20 || code == 0x85 || code == 0xa0
            || code == 0x1680 || (0x2000 <= code && code <= 0x200a) || code == 0x2028 || code == 0x2029
            || code == 0x202f || code == 0x205f || code == 0x3000;
        if !white {
            assert(!white_space(text@[it.index()]));
            return false;
        }
    }
    true
}

/// A text as it reads in source code: in double quotes, with escapes.
pub uninterp spec fn quoted(text: Seq<char>) -> Seq<char>;

/// `format!` with `{:?}` on a string: the quoted text. Which characters it escapes is left unsaid.
#[verifier::external_body]
pub(crate) fn debug_quoted(text: &str) -> (result: String)
    ensures
        result@ == quoted(text@),
{
    format!("{:?}", text)
}

/// Lexicographic order of byte strings: `a` comes at or before `b`.
pub open spec fn bytes_at_or_before(a: Seq<u8>, b: Seq<u8>) -> bool
    decreases a.len(),
{
    if a.len() == 0 {
        true
    } else if b.len() == 0 {
        false
    } else if a[0] != b[0] {
        a[0] < b[0]
    } else {
        bytes_at_or_before(a.drop_first(), b.drop_first())
    }
}

/// Order of texts: by their UTF-8 bytes.
pub open spec fn text_at_or_before(a: Seq<char>, b: Seq<char>) -> bool {
    bytes_at_or_before(encode_utf8(a), encode_utf8(b))
}

pub proof fn lemma_bytes_order_total(a: Seq<u8>, b: Seq<u8>)
    ensures
        bytes_at_or_before(a, b) || bytes_at_or_before(b, a),
    decreases a.len(),
{
    if a.len() > 0 && b.len() > 0 && a[0] == b[0] {
        lemma_bytes_order_total(a.drop_first(), b.drop_first());
    }
}

pub proof fn lemma_bytes_order_transitive(a: Seq<u8>, b: Seq<u8>, c: Seq<u8>)
    requires
        bytes_at_or_before(a, b),
        bytes_at_or_before(b, c),
    ensures
        bytes_at_or_before(a, c),
    decreases a.len(),
{
    if a.len() > 0 && b.len() > 0 && c.len() > 0 && a[0] == b[0] && b[0] == c[0] {
        lemma_bytes_order_transitive(a.drop_first(), b.drop_first(), c.drop_first());
    }
}

pub proof fn lemma_bytes_order_antisymmetric(a: Seq<u8>, b: Seq<u8>)
    requires
        bytes_at_or_before(a, b),
        bytes_at_or_before(b, a),
    ensures
        a == b,
    decreases a.len(),
{
    if a.len() > 0 && b.len() > 0 {
        lemma_bytes_order_antisymmetric(a.drop_first(), b.drop_first());
        assert(a =~= seq![a[0]] + a.drop_first());
        assert(b =~= seq![b[0]] + b.drop_first());
    } else {
        assert(a =~= b);
    }
}

/// Two texts that come at or before each other are the same text.
pub proof fn lemma_text_order_antisymmetric(a: Seq<char>, b: Seq<char>)
    requires
        text_at_or_before(a, b),
        text_at_or_before(b, a),
    ensures
        a == b,
{
    lemma_bytes_order_antisymmetric(encode_utf8(a), encode_utf8(b));
    vstd::utf8::encode_utf8_decode_utf8(a);
    vstd::utf8::encode_utf8_decode_utf8(b);
}

proof fn lemma_bytes_order_at(a: Seq<u8>, b: Seq<u8>, n: int)
    requires
        0 <= n <= a.len(),
        n <= b.len(),
        forall|i: int| 0 <= i < n ==> a[i] == b[i],
    ensures
        bytes_at_or_before(a, b) == bytes_at_or_before(
            a.subrange(n, a.len() as int),
            b.subrange(n, b.len() as int),
        ),
    decreases n,
{
    if n == 0 {
        assert(a.subrange(0, a.len() as int) =~= a);
        assert(b.subrange(0, b.len() as int) =~= b);
    } else {
        lemma_bytes_order_at(a.drop_first(), b.drop_first(), n - 1);
        assert(a.drop_first().subrange(n - 1, a.len() - 1) =~= a.subrange(n, a.len() as int));
        assert(b.drop_first().subrange(n - 1, b.len() - 1) =~= b.subrange(n, b.len() as int));
    }
}

/// Tells whether two texts are the same.
pub fn same_text(a: &str, b: &str) -> (result: bool)
    ensures
        result == (a@ == b@),
{
    let left = a.as_bytes();
    let right = b.as_bytes();
    proof {
        vstd::utf8::encode_utf8_decode_utf8(a@);
        vstd::utf8::encode_utf8_decode_utf8(b@);
    }
    if left.len() != right.len() {
        return false;
    }
    let mut i: usize = 0;
    while i < left.len()
        invariant
            i <= left@.len(),
            left@.len() == right@.len(),
            left@ == encode_utf8(a@),
            right@ == encode_utf8(b@),
            forall|j: int| 0 <= j < i ==> left@[j] == right@[j],
        decreases left@.len() - i,
    {
        if left[i] != right[i] {
            return false;
        }
        i += 1;
    }
    assert(left@ =~= right@);
    true
}

/// Compares two texts by their UTF-8 bytes.
pub fn text_precedes(a: &str, b: &str) -> (result: bool)
    ensures
        result == text_at_or_before(a@, b@),
{
    let left = a.as_bytes();
    let right = b.as_bytes();
    let mut i: usize = 0;
    while i < left.len() && i < right.len() && left[i] == right[i]
        invariant
            i <= left@.len(),
            i <= right@.len(),
            forall|j: int| 0 <= j < i ==> left@[j] == right@[j],
        decreases left@.len() - i,
    {
        i += 1;
    }
    proof {
        lemma_bytes_order_at(left@, right@, i as int);
    }
    if i == left.len() {
        true
    } else if i == right.len() {
        false
    } else {
        left[i] < right[i]
    }
}

/// `String::push`: appends one character.
pub assume_specification[ String::push ](text: &mut String, c: char)
    ensures
        final(text)@ == old(text)@.push(c),
;

/// `String::from_utf8`: the text that UTF-8 bytes stand for, or nothing where they are not UTF-8.
#[verifier::external_body]
pub(crate) fn read_utf8(bytes: &[u8]) -> (result: Option<String>)
    ensures
        match result {
            Some(text) => valid_utf8(bytes@) && text@ == decode_utf8(bytes@),
            None => !valid_utf8(bytes@),
        },
{
    String::from_utf8(bytes.to_vec()).ok()
}

/// Lists the characters of `text`.
pub fn char_list(text: &str) -> (chars: Vec<char>)
    ensures
        chars@ == text@,
{
    let mut chars: Vec<char> = Vec::new();
    for c in it: text.chars()
        invariant
            it.seq() == text@,
            chars@ == text@.take(it.index()),
    {
        chars.push(c);
        assert(chars@ =~= text@.take(it.index() + 1));
    }
    assert(text@.take(text@.len() as int) =~= text@);
    chars
}

/// Joins the characters from `start` up to `end`.
pub fn gather(chars: &Vec<char>, start: usize, end: usize) -> (text: String)
    requires
        start <= end <= chars@.len(),
    ensures
        text@ == chars@.subrange(start as int, end as int),
{
    let mut text = String::new();
    let mut i: usize = start;
    assert(text@ =~= chars@.subrange(start as int, start as int));
    while i < end
        invariant
            start <= i <= end <= chars@.len(),
            text@ == chars@.subrange(start as int, i as int),
        decreases end - i,
    {
        text.push(chars[i]);
        i += 1;
        assert(text@ =~= chars@.subrange(start as int, i as int));
    }
    text
}

/// A decimal digit.
pub open spec fn is_digit(c: char) -> bool {
    '0' <= c <= '9'
}

/// One or more decimal digits.
pub open spec fn all_digits(text: Seq<char>) -> bool {
    text.len() > 0 && forall|i: int| 0 <= i < text.len() ==> is_digit(#[trigger] text[i])
}

/// The number that decimal digits make up.
pub open spec fn digits_value(text: Seq<char>) -> nat
    decreases text.len(),
{
    if text.len() == 0 {
        0
    } else {
        (digits_value(text.drop_last()) * 10 + (text.last() as int - 48)) as nat
    }
}

/// The number that `text` spells in decimal digits, where it fits a word.
pub open spec fn whole_number(text: Seq<char>) -> Option<u64> {
    if all_digits(text) && digits_value(text) <= u64::MAX {
        Some(digits_value(text) as u64)
    } else {
        None
    }
}

/// A number reads back from its decimal numeral, which holds digits alone.
pub proof fn law_numerals_read_back(value: nat)
    ensures
        decimal(value).len() > 0,
        forall|i: int| 0 <= i < decimal(value).len() ==> '0' <= #[trigger] decimal(value)[i] <= '9',
        digits_value(decimal(value)) == value,
        value <= u64::MAX ==> whole_number(decimal(value)) == Some(value as u64),
    decreases value,
{
    let text = decimal(value);
    if value < 10 {
        assert(text.drop_last() =~= Seq::<char>::empty());
        assert(text.last() == digit(value as int));
        assert(digits_value(Seq::<char>::empty()) == 0);
    } else {
        law_numerals_read_back(value / 10);
        assert(text.drop_last() =~= decimal(value / 10));
        assert(text.last() == digit((value % 10) as int));
        assert forall|i: int| 0 <= i < text.len() implies '0' <= #[trigger] text[i] <= '9' by {
            if i < text.len() - 1 {
                assert(text[i] == decimal(value / 10)[i]);
            }
        }
    }
    assert forall|i: int| 0 <= i < text.len() implies is_digit(#[trigger] text[i]) by {}
    assert(all_digits(text));
}

/// Reads a number in decimal digits.
pub fn read_whole_number(chars: &Vec<char>) -> (result: Option<u64>)
    ensures
        result == whole_number(chars@),
{
    if chars.len() == 0 {
        return None;
    }
    let mut value: u128 = 0;
    let mut i: usize = 0;
    assert(chars@.take(0) =~= Seq::<char>::empty());
    while i < chars.len()
        invariant
            i <= chars@.len(),
            value <= u64::MAX,
            value == digits_value(chars@.take(i as int)),
            forall|j: int| 0 <= j < i ==> is_digit(#[trigger] chars@[j]),
        decreases chars@.len() - i,
    {
        let c = chars[i];
        if c < '0' || c > '9' {
            assert(!is_digit(chars@[i as int]));
            return None;
        }
        proof {
            let next = chars@.take(i + 1);
            assert(next.drop_last() =~= chars@.take(i as int));
            assert(next.last() == c);
        }
        value = value * 10 + (c as u32 as u128 - 48);
        i += 1;
        if value > u64::MAX as u128 {
            proof {
                lemma_digits_grow(chars@, i as int);
            }
            return None;
        }
    }
    assert(chars@.take(chars@.len() as int) =~= chars@);
    Some(value as u64)
}

proof fn lemma_digits_grow(text: Seq<char>, n: int)
    requires
        0 <= n <= text.len(),
    ensures
        all_digits(text) ==> digits_value(text.take(n)) <= digits_value(text),
    decreases text.len() - n,
{
    if n < text.len() {
        lemma_digits_grow(text, n + 1);
        let next = text.take(n + 1);
        assert(next.drop_last() =~= text.take(n));
        assert(next.last() == text[n]);
    } else {
        assert(text.take(n) =~= text);
    }
}

/// Where `c` first stands in `text`; its length where it does not.
pub open spec fn position_of(text: Seq<char>, c: char) -> nat
    decreases text.len(),
{
    if text.len() == 0 || text[0] == c {
        0
    } else {
        position_of(text.drop_first(), c) + 1
    }
}

proof fn lemma_position(text: Seq<char>, c: char, n: int)
    requires
        0 <= n <= text.len(),
        forall|i: int| 0 <= i < n ==> text[i] != c,
        n < text.len() ==> text[n] == c,
    ensures
        position_of(text, c) == n,
    decreases text.len(),
{
    if n > 0 {
        lemma_position(text.drop_first(), c, n - 1);
    }
}

/// Finds the first `c`.
pub fn find_char(chars: &Vec<char>, c: char) -> (index: usize)
    ensures
        index == position_of(chars@, c),
        index <= chars@.len(),
        index < chars@.len() ==> chars@[index as int] == c,
        forall|i: int| 0 <= i < index ==> chars@[i] != c,
{
    let mut i: usize = 0;
    while i < chars.len() && chars[i] != c
        invariant
            i <= chars@.len(),
            forall|j: int| 0 <= j < i ==> chars@[j] != c,
        decreases chars@.len() - i,
    {
        i += 1;
    }
    proof {
        lemma_position(chars@, c, i as int);
    }
    i
}

} // verus!
