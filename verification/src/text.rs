//! Character classes and whole-text transforms that the matching rules use:
//! Unicode whitespace, trimming and upper-casing.

use vstd::prelude::*;

verus! {

/// Whether `c` is an ASCII character.
pub open spec fn is_ascii_char(c: char) -> bool {
    (c as u32) < 128
}

/// Whether every character of `s` is ASCII.
pub open spec fn is_ascii_text(s: Seq<char>) -> bool {
    forall|i: int| 0 <= i < s.len() ==> is_ascii_char(#[trigger] s[i])
}

/// ASCII letters and digits.
pub open spec fn is_ascii_alnum(c: char) -> bool {
    (48 <= (c as u32) && (c as u32) <= 57) || (65 <= (c as u32) && (c as u32) <= 90) || (97 <= (
    c as u32) && (c as u32) <= 122)
}

/// ASCII lower-case letters.
pub open spec fn is_ascii_lower(c: char) -> bool {
    97 <= (c as u32) && (c as u32) <= 122
}

/// Upper-case mapping of a single ASCII character.
pub open spec fn ascii_upper(c: char) -> char {
    if is_ascii_lower(c) {
        ((c as u32) - 32) as char
    } else {
        c
    }
}

/// Whether a character outside ASCII carries the Unicode `White_Space` property:
/// next line, no-break space, ogham space mark, the spaces from en quad through
/// hair space, line and paragraph separator, narrow no-break space, medium
/// mathematical space and ideographic space.
pub open spec fn non_ascii_white_space(c: char) -> bool {
    let v = c as u32;
    v == 0x85 || v == 0xa0 || v == 0x1680 || (0x2000 <= v && v <= 0x200a) || v == 0x2028 || v
        == 0x2029 || v == 0x202f || v == 0x205f || v == 0x3000
}

/// Whether `c` carries the Unicode `White_Space` property. Inside ASCII these
/// are the space and the controls from tab through carriage return.
pub open spec fn white_space(c: char) -> bool {
    if is_ascii_char(c) {
        c == ' ' || (9 <= (c as u32) && (c as u32) <= 13)
    } else {
        non_ascii_white_space(c)
    }
}

/// What `str::to_uppercase` gives for `s`.
pub uninterp spec fn upper_text(s: Seq<char>) -> Seq<char>;

/// The upper-case form of `s`: on ASCII text each letter is mapped on its own,
/// otherwise it is what `str::to_uppercase` gives.
pub open spec fn uppercase(s: Seq<char>) -> Seq<char> {
    if is_ascii_text(s) {
        s.map_values(|c: char| ascii_upper(c))
    } else {
        upper_text(s)
    }
}

/// `s` without its leading whitespace.
pub open spec fn trim_start(s: Seq<char>) -> Seq<char>
    decreases s.len(),
{
    if s.len() > 0 && white_space(s[0]) {
        trim_start(s.drop_first())
    } else {
        s
    }
}

/// `s` without its trailing whitespace.
pub open spec fn trim_end(s: Seq<char>) -> Seq<char>
    decreases s.len(),
{
    if s.len() > 0 && white_space(s.last()) {
        trim_end(s.drop_last())
    } else {
        s
    }
}

/// `s` without leading and trailing whitespace.
pub open spec fn trimmed(s: Seq<char>) -> Seq<char> {
    trim_end(trim_start(s))
}

/// Calls `str::to_uppercase`. Its result is named `upper_text`; on ASCII text it
/// maps `a` through `z` to `A` through `Z` and keeps every other character.
#[verifier::external_body]
fn str_to_uppercase(s: &str) -> (r: String)
    ensures
        r@ == upper_text(s@),
        is_ascii_text(s@) ==> r@ == s@.map_values(|c: char| ascii_upper(c)),
{
    s.to_uppercase()
}

/// `String::push` appends one character.
pub assume_specification[ String::push ](string: &mut String, ch: char)
    ensures
        final(string)@ == old(string)@.push(ch),
;

/// The decimal digit character for `d` (which is below ten).
pub open spec fn digit_char(d: nat) -> char {
    (48 + d) as char
}

/// Whether `c` is one of `0` through `9`.
pub open spec fn is_digit_char(c: char) -> bool {
    48 <= (c as u32) && (c as u32) <= 57
}

/// The decimal text of `n`, padded with leading zeros to at least `width`
/// characters (and never shorter than one character).
pub open spec fn decimal(n: nat, width: nat) -> Seq<char>
    decreases n, width,
{
    if n < 10 && width <= 1 {
        seq![digit_char(n)]
    } else {
        decimal(n / 10, if width > 0 { (width - 1) as nat } else { 0 }).push(digit_char(n % 10))
    }
}

/// Every character of a decimal text is a digit.
pub proof fn lemma_decimal_digits(n: nat, width: nat)
    ensures
        decimal(n, width).len() >= 1,
        forall|i: int| 0 <= i < decimal(n, width).len() ==> is_digit_char(#[trigger] decimal(n, width)[i]),
    decreases n, width,
{
    if !(n < 10 && width <= 1) {
        let w = if width > 0 { (width - 1) as nat } else { 0 };
        lemma_decimal_digits(n / 10, w);
    }
}

/// A number below one hundred takes exactly two characters at width two.
pub proof fn lemma_decimal_two(n: nat)
    requires
        n < 100,
    ensures
        decimal(n, 2).len() == 2,
{
    assert(decimal(n / 10, 1).len() == 1);
}

/// Equal decimal texts of one width come from equal numbers.
pub proof fn lemma_decimal_injective(a: nat, b: nat, width: nat)
    requires
        decimal(a, width) == decimal(b, width),
    ensures
        a == b,
    decreases a, width,
{
    let w = if width > 0 { (width - 1) as nat } else { 0 };
    let da = decimal(a, width);
    assert(da.last() == digit_char(a % 10));
    assert(decimal(b, width).last() == digit_char(b % 10));
    assert(a % 10 == b % 10);
    if a < 10 && width <= 1 {
        if !(b < 10 && width <= 1) {
            lemma_decimal_digits(b / 10, w);
            assert(false);
        }
    } else {
        if b < 10 && width <= 1 {
            lemma_decimal_digits(a / 10, w);
            assert(false);
        } else {
            assert(decimal(a / 10, w) =~= da.drop_last());
            assert(decimal(b / 10, w) =~= decimal(b, width).drop_last());
            lemma_decimal_injective(a / 10, b / 10, w);
        }
    }
}

/// The number that a text of decimal digits spells, most significant digit
/// first (zero for the empty text).
pub open spec fn digits_value(s: Seq<char>) -> int
    decreases s.len(),
{
    if s.len() == 0 {
        0
    } else {
        digits_value(s.drop_last()) * 10 + ((s.last() as u32) - 48)
    }
}

/// The decimal text of `n` at width `width` spells `n` in digits, has at least
/// `width` characters, and, when `width` is at most one, starts with `0` only
/// when it is the single digit of zero.
pub proof fn lemma_decimal_value(n: nat, width: nat)
    ensures
        digits_value(decimal(n, width)) == n,
        decimal(n, width).len() >= width,
        forall|i: int| 0 <= i < decimal(n, width).len() ==> is_digit_char(#[trigger] decimal(n, width)[i]),
        width <= 1 && decimal(n, width)[0] == '0' ==> n == 0 && decimal(n, width).len() == 1,
    decreases n, width,
{
    lemma_decimal_digits(n, width);
    if n < 10 && width <= 1 {
        let t = decimal(n, width);
        assert(t.drop_last() =~= Seq::<char>::empty());
        assert(digits_value(t.drop_last()) == 0);
        assert((digit_char(n) as u32) == 48 + n);
        assert(digits_value(t) == digits_value(t.drop_last()) * 10 + ((t.last() as u32) - 48));
    } else {
        let w = if width > 0 { (width - 1) as nat } else { 0 };
        lemma_decimal_value(n / 10, w);
        let d = decimal(n / 10, w);
        assert(decimal(n, width).drop_last() =~= d);
        assert((digit_char(n % 10) as u32) == 48 + n % 10);
        assert(digits_value(decimal(n, width)) == digits_value(d) * 10 + (n % 10));
        assert(n == (n / 10) * 10 + n % 10);
        assert(decimal(n, width)[0] == d[0]);
        if width <= 1 && d[0] == '0' {
            assert(n / 10 == 0);
        }
    }
}

/// Without padding, a number's decimal text is the same at width zero and one.
proof fn lemma_decimal_unpadded(n: nat)
    ensures
        decimal(n, 0) == decimal(n, 1),
{
}

/// Appends the decimal text of `n` to `out`.
fn push_decimal(n: u32, out: &mut String)
    ensures
        final(out)@ == old(out)@ + decimal(n as nat, 1),
    decreases n,
{
    if n >= 10 {
        push_decimal(n / 10, out);
        proof {
            lemma_decimal_unpadded((n / 10) as nat);
        }
    }
    let d: u8 = (n % 10) as u8;
    let c = (48u8 + d) as char;
    out.push(c);
    assert(out@ =~= old(out)@ + decimal(n as nat, 1));
}

/// The decimal text of `n` (`u32::to_string`).
pub fn decimal_text(n: u32) -> (r: String)
    ensures
        r@ == decimal(n as nat, 1),
{
    let mut r = String::new();
    push_decimal(n, &mut r);
    assert(r@ =~= decimal(n as nat, 1));
    r
}

/// Whether `c` has the Unicode `White_Space` property.
pub fn is_white_space(c: char) -> (b: bool)
    ensures
        b == white_space(c),
{
    let v = c as u32;
    v == 32 || (9 <= v && v <= 13) || v == 0x85 || v == 0xa0 || v == 0x1680 || (0x2000 <= v && v
        <= 0x200a) || v == 0x2028 || v == 0x2029 || v == 0x202f || v == 0x205f || v == 0x3000
}

/// Whether `c` is an ASCII letter or digit (`char::is_ascii_alphanumeric`).
pub fn is_ascii_alphanumeric(c: char) -> (b: bool)
    ensures
        b == is_ascii_alnum(c),
{
    let v = c as u32;
    (48 <= v && v <= 57) || (65 <= v && v <= 90) || (97 <= v && v <= 122)
}

/// The upper-case form of `s` (`str::to_uppercase`).
pub fn to_uppercase(s: &str) -> (r: String)
    ensures
        r@ == uppercase(s@),
{
    str_to_uppercase(s)
}

/// The characters of `s`, in order.
pub fn chars_of(s: &str) -> (r: Vec<char>)
    ensures
        r@ == s@,
{
    let mut r: Vec<char> = Vec::new();
    for c in it: s.chars()
        invariant
            r@ == it.seq().take(it.index() as int),
            it.seq() == s@,
    {
        r.push(c);
    }
    r
}

/// `s` without leading and trailing whitespace (`str::trim`).
pub fn trim(s: &str) -> (r: &str)
    ensures
        r@ == trimmed(s@),
{
    let cs = chars_of(s);
    let n = cs.len();
    let mut i: usize = 0;
    assert(s@.subrange(0, n as int) =~= s@);
    while i < n && is_white_space(cs[i])
        invariant
            i <= n,
            n == s@.len(),
            cs@ == s@,
            trim_start(s@) == trim_start(s@.subrange(i as int, n as int)),
        decreases n - i,
    {
        assert(s@.subrange(i + 1, n as int) =~= s@.subrange(i as int, n as int).drop_first());
        i = i + 1;
    }
    let ghost rest = s@.subrange(i as int, n as int);
    assert(trim_start(s@) == rest);
    let mut j: usize = n;
    while j > i && is_white_space(cs[j - 1])
        invariant
            i <= j <= n,
            n == s@.len(),
            cs@ == s@,
            rest == s@.subrange(i as int, n as int),
            trim_end(rest) == trim_end(s@.subrange(i as int, j as int)),
        decreases j,
    {
        assert(s@.subrange(i as int, j - 1) =~= s@.subrange(i as int, j as int).drop_last());
        j = j - 1;
    }
    s.substring_char(i, j)
}

} // verus!
