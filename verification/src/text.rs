//! Fields of a text, and decimal numbers.

use vstd::prelude::*;

verus! {

/// The parts into which the separator `sep` cuts `s`: one more than there
/// are separators in `s`, each without a separator, possibly empty.
pub open spec fn split(s: Seq<char>, sep: char) -> Seq<Seq<char>>
    decreases s.len(),
{
    if s.len() == 0 {
        seq![Seq::empty()]
    } else {
        let before = split(s.drop_last(), sep);
        if s.last() == sep {
            before.push(Seq::empty())
        } else {
            before.update(before.len() - 1, before.last().push(s.last()))
        }
    }
}

/// The parts written one after the other with `sep` between them.
pub open spec fn join(parts: Seq<Seq<char>>, sep: char) -> Seq<char>
    decreases parts.len(),
{
    if parts.len() == 0 {
        Seq::empty()
    } else if parts.len() == 1 {
        parts[0]
    } else {
        join(parts.drop_last(), sep) + seq![sep] + parts.last()
    }
}

/// Whether `c` occurs nowhere in `s`.
pub open spec fn free_of(s: Seq<char>, c: char) -> bool {
    forall|i: int| 0 <= i < s.len() ==> s[i] != c
}

/// A text always has at least one part.
pub proof fn lemma_split_nonempty(s: Seq<char>, sep: char)
    ensures
        split(s, sep).len() >= 1,
    decreases s.len(),
{
    if s.len() > 0 {
        lemma_split_nonempty(s.drop_last(), sep);
    }
}

/// A text without a separator is its own single part.
pub proof fn lemma_split_free(s: Seq<char>, sep: char)
    requires
        free_of(s, sep),
    ensures
        split(s, sep) == seq![s],
    decreases s.len(),
{
    if s.len() > 0 {
        lemma_split_free(s.drop_last(), sep);
        assert(Seq::<char>::empty().push(s.last()) =~= seq![s.last()]);
        assert(s.drop_last().push(s.last()) =~= s);
        assert(split(s, sep) =~= seq![s]);
    } else {
        assert(s =~= Seq::empty());
    }
}

/// Appending a separator and a text without one appends that text as a
/// part.
pub proof fn lemma_split_append(s: Seq<char>, part: Seq<char>, sep: char)
    requires
        free_of(part, sep),
    ensures
        split(s + seq![sep] + part, sep) == split(s, sep).push(part),
    decreases part.len(),
{
    let whole = s + seq![sep] + part;
    lemma_split_nonempty(s, sep);
    if part.len() == 0 {
        assert(whole.drop_last() =~= s);
        assert(part =~= Seq::empty());
    } else {
        let shorter = part.drop_last();
        lemma_split_append(s, shorter, sep);
        assert(whole.drop_last() =~= s + seq![sep] + shorter);
        assert(shorter.push(part.last()) =~= part);
        assert(split(whole, sep) =~= split(s, sep).push(part));
    }
}

/// Cutting what was joined gives the parts back, as long as no part holds
/// a separator.
pub proof fn lemma_split_join(parts: Seq<Seq<char>>, sep: char)
    requires
        parts.len() >= 1,
        forall|k: int| 0 <= k < parts.len() ==> free_of(#[trigger] parts[k], sep),
    ensures
        split(join(parts, sep), sep) == parts,
    decreases parts.len(),
{
    if parts.len() == 1 {
        lemma_split_free(parts[0], sep);
        assert(parts =~= seq![parts[0]]);
    } else {
        let before = parts.drop_last();
        lemma_split_join(before, sep);
        lemma_split_append(join(before, sep), parts.last(), sep);
        assert(before.push(parts.last()) =~= parts);
    }
}

/// What occurs in no part, and is not the separator, does not occur in the
/// joined text.
pub proof fn lemma_join_free(parts: Seq<Seq<char>>, sep: char, c: char)
    requires
        sep != c,
        forall|k: int| 0 <= k < parts.len() ==> free_of(#[trigger] parts[k], c),
    ensures
        free_of(join(parts, sep), c),
    decreases parts.len(),
{
    if parts.len() > 1 {
        lemma_join_free(parts.drop_last(), sep, c);
        assert(free_of(parts.last(), c));
    } else if parts.len() == 1 {
        assert(free_of(parts[0], c));
    }
}

/// No part holds a separator, and joining the parts gives the text back.
pub proof fn lemma_join_split(s: Seq<char>, sep: char)
    ensures
        forall|k: int| 0 <= k < split(s, sep).len() ==> free_of(#[trigger] split(s, sep)[k], sep),
        join(split(s, sep), sep) == s,
    decreases s.len(),
{
    if s.len() == 0 {
        assert(join(split(s, sep), sep) =~= s);
    } else {
        let shorter = s.drop_last();
        let before = split(shorter, sep);
        lemma_join_split(shorter, sep);
        lemma_split_nonempty(shorter, sep);
        let parts = split(s, sep);
        if s.last() == sep {
            assert(parts.drop_last() =~= before);
            assert(join(parts, sep) =~= shorter + seq![sep]);
            assert(shorter + seq![sep] =~= s);
        } else {
            let grown = before.last().push(s.last());
            if before.len() == 1 {
                assert(join(parts, sep) =~= shorter.push(s.last()));
            } else {
                assert(parts.drop_last() =~= before.drop_last());
                assert(join(parts, sep) =~= join(before.drop_last(), sep) + seq![sep] + grown);
                assert(join(before, sep) == join(before.drop_last(), sep) + seq![sep]
                    + before.last());
                assert(join(parts, sep) =~= join(before, sep).push(s.last()));
            }
            assert(shorter.push(s.last()) =~= s);
        }
    }
}

/// Cuts a text at every occurrence of a separator.
pub fn split_on<'a>(text: &'a str, sep: char) -> (parts: Vec<&'a str>)
    ensures
        parts@.len() == split(text@, sep).len(),
        forall|k: int| 0 <= k < parts@.len() ==> (#[trigger] parts@[k])@ == split(text@, sep)[k],
{
    let len = text.unicode_len();
    let mut parts: Vec<&'a str> = Vec::new();
    let mut start: usize = 0;
    let mut at: usize = 0;
    proof {
        assert(text@.take(0) =~= Seq::empty());
        assert(text@.subrange(0, 0) =~= Seq::empty());
    }
    for c in it: text.chars()
        invariant
            it.seq() == text@,
            len == text@.len(),
            at == it.index(),
            start <= at,
            split(text@.take(at as int), sep).len() == parts@.len() + 1,
            forall|k: int|
                0 <= k < parts@.len() ==> (#[trigger] parts@[k])@ == split(
                    text@.take(at as int),
                    sep,
                )[k],
            split(text@.take(at as int), sep).last() == text@.subrange(start as int, at as int),
    {
        proof {
            assert(text@.take(at + 1).drop_last() =~= text@.take(at as int));
            assert(text@.subrange(start as int, at as int).push(c) =~= text@.subrange(
                start as int,
                at + 1,
            ));
            assert(text@.subrange(at + 1, at + 1) =~= Seq::empty());
        }
        if c == sep {
            parts.push(text.substring_char(start, at));
            start = at + 1;
        }
        at = at + 1;
    }
    proof {
        assert(text@.take(at as int) =~= text@);
    }
    parts.push(text.substring_char(start, len));
    parts
}

/// Whether `c` is a decimal digit.
pub open spec fn is_digit(c: char) -> bool {
    '0' <= c <= '9'
}

/// The number that the digit `c` stands for.
pub open spec fn digit_value(c: char) -> nat {
    (c as int - '0' as int) as nat
}

/// The digit that stands for `n`, where `n < 10`.
pub open spec fn digit_char(n: nat) -> char {
    ('0' as int + n) as char
}

/// Whether `s` consists of decimal digits only.
pub open spec fn all_digits(s: Seq<char>) -> bool {
    forall|i: int| 0 <= i < s.len() ==> is_digit(#[trigger] s[i])
}

/// The number that a row of digits stands for, read in base ten.
pub open spec fn digits_value(s: Seq<char>) -> nat
    decreases s.len(),
{
    if s.len() == 0 {
        0
    } else {
        10 * digits_value(s.drop_last()) + digit_value(s.last())
    }
}

/// A number text without the plus sign that may stand in front of it.
pub open spec fn unsigned_part(s: Seq<char>) -> Seq<char> {
    if s.len() > 0 && s[0] == '+' {
        s.skip(1)
    } else {
        s
    }
}

/// Whether `s` is a number that fits in 64 bits: one or more decimal
/// digits, with or without a plus sign in front.
pub open spec fn is_number(s: Seq<char>) -> bool {
    &&& unsigned_part(s).len() > 0
    &&& all_digits(unsigned_part(s))
    &&& digits_value(unsigned_part(s)) <= u64::MAX
}

/// The number that `s` stands for, where `is_number(s)`.
pub open spec fn number_value(s: Seq<char>) -> nat {
    digits_value(unsigned_part(s))
}

/// The shortest decimal text of `n`: no sign, and no leading zero but for
/// 0 itself.
pub open spec fn decimal(n: nat) -> Seq<char>
    decreases n,
{
    if n < 10 {
        seq![digit_char(n)]
    } else {
        decimal(n / 10).push(digit_char(n % 10))
    }
}

/// The ten digits and the numbers below ten stand for each other.
pub proof fn lemma_digits(c: char, n: nat)
    ensures
        n < 10 ==> is_digit(digit_char(n)) && digit_value(digit_char(n)) == n,
        is_digit(c) ==> digit_value(c) < 10 && digit_char(digit_value(c)) == c,
{
    if n < 10 {
        assert(digit_char(n) as int == '0' as int + n);
    }
    if is_digit(c) {
        assert(0 <= (c as int) - ('0' as int) && (c as int) - ('0' as int) < 10);
    }
}

/// Further digits never make a number smaller.
pub proof fn lemma_digits_value_grows(s: Seq<char>, k: int)
    requires
        0 <= k <= s.len(),
    ensures
        digits_value(s.take(k)) <= digits_value(s),
    decreases s.len(),
{
    if k == s.len() {
        assert(s.take(k) =~= s);
    } else {
        lemma_digits_value_grows(s.drop_last(), k);
        assert(s.drop_last().take(k) =~= s.take(k));
    }
}

/// The decimal text of a number is a number text, and it stands for that
/// number.
pub proof fn lemma_decimal_value(n: nat)
    ensures
        decimal(n).len() > 0,
        all_digits(decimal(n)),
        decimal(n)[0] != '+',
        digits_value(decimal(n)) == n,
    decreases n,
{
    if n < 10 {
        lemma_digits('0', n);
        assert(decimal(n).drop_last() =~= Seq::empty());
        assert(digits_value(Seq::<char>::empty()) == 0);
    } else {
        lemma_digits('0', n % 10);
        lemma_decimal_value(n / 10);
        assert(decimal(n).drop_last() =~= decimal(n / 10));
    }
}

/// Reading the decimal text of a 64-bit number gives that number.
pub proof fn lemma_decimal_round_trip(n: nat)
    requires
        n <= u64::MAX,
    ensures
        is_number(decimal(n)),
        number_value(decimal(n)) == n,
        free_of(decimal(n), ' '),
{
    lemma_decimal_value(n);
}

/// A row of digits that does not begin with a superfluous zero is the
/// decimal text of its number.
pub proof fn lemma_decimal_of_value(s: Seq<char>)
    requires
        s.len() > 0,
        all_digits(s),
        s.len() > 1 ==> s[0] != '0',
    ensures
        decimal(digits_value(s)) == s,
        s.len() > 1 ==> digits_value(s) >= 1,
    decreases s.len(),
{
    let shorter = s.drop_last();
    if s.len() == 1 {
        lemma_digits(s[0], 0);
        assert(shorter =~= Seq::empty());
        assert(digits_value(shorter) == 0);
        assert(decimal(digits_value(s)) =~= s);
    } else {
        assert(shorter[0] == s[0]);
        lemma_decimal_of_value(shorter);
        if shorter.len() == 1 {
            lemma_digits(shorter[0], 0);
            assert(shorter.drop_last() =~= Seq::empty());
            assert(digits_value(Seq::<char>::empty()) == 0);
        }
        assert(digits_value(shorter) >= 1);
        lemma_decimal_of_value_step(shorter, s.last());
        assert(shorter.push(s.last()) =~= s);
    }
}

/// One more digit behind a number that is not 0 is one more digit behind
/// its decimal text.
proof fn lemma_decimal_of_value_step(shorter: Seq<char>, last: char)
    requires
        is_digit(last),
        digits_value(shorter) >= 1,
    ensures
        decimal(digits_value(shorter.push(last))) == decimal(digits_value(shorter)).push(last),
{
    let v = digits_value(shorter);
    let d = digit_value(last);
    lemma_digits(last, 0);
    assert(shorter.push(last).drop_last() =~= shorter);
    assert(digits_value(shorter.push(last)) == 10 * v + d);
    assert((10 * v + d) / 10 == v && (10 * v + d) % 10 == d) by (nonlinear_arith)
        requires
            0 <= d < 10,
            v >= 0,
    ;
    assert(digit_char(d) == last);
}

/// What `parse_number` makes of a text.
pub open spec fn number_of(s: Seq<char>) -> Option<u64> {
    if is_number(s) {
        Some(number_value(s) as u64)
    } else {
        None
    }
}

/// The number that a text stands for, if it is a number that fits in 64
/// bits: one or more decimal digits, with or without a plus sign in front.
pub fn parse_number(text: &str) -> (r: Option<u64>)
    ensures
        r == number_of(text@),
{
    let mut value: u64 = 0;
    let mut at: usize = 0;
    let mut signed: bool = false;
    let len = text.unicode_len();
    proof {
        assert(text@.subrange(0, 0) =~= Seq::empty());
    }
    for c in it: text.chars()
        invariant
            it.seq() == text@,
            len == text@.len(),
            at == it.index(),
            signed <==> at > 0 && text@[0] == '+',
            at == 0 ==> value == 0,
            ({
                let from: int = if signed { 1 } else { 0 };
                &&& all_digits(text@.subrange(from, at as int))
                &&& value == digits_value(text@.subrange(from, at as int))
            }),
    {
        let ghost from: int = if signed { 1 } else { 0 };
        let ghost digits = text@.subrange(from, at as int);
        if at == 0 && c == '+' {
            signed = true;
            proof {
                assert(text@.subrange(1, 1) =~= Seq::empty());
            }
        } else {
            let ghost rest = unsigned_part(text@);
            proof {
                assert(rest =~= text@.subrange(from, len as int));
                assert(rest[at - from] == c);
                assert(rest.take(at + 1 - from) =~= digits.push(c));
                assert(digits.push(c).drop_last() =~= digits);
                assert(text@.subrange(from, at + 1) =~= digits.push(c));
            }
            let digit: u64 = match c {
                '0' => 0,
                '1' => 1,
                '2' => 2,
                '3' => 3,
                '4' => 4,
                '5' => 5,
                '6' => 6,
                '7' => 7,
                '8' => 8,
                '9' => 9,
                _ => {
                    return None;
                },
            };
            assert(digit == digit_value(c));
            if value > (u64::MAX - digit) / 10 {
                proof {
                    assert(10 * value + digit > u64::MAX);
                    lemma_digits_value_grows(rest, at + 1 - from);
                }
                return None;
            }
            value = value * 10 + digit;
        }
        at = at + 1;
    }
    proof {
        let from: int = if signed { 1 } else { 0 };
        assert(unsigned_part(text@) =~= text@.subrange(from, at as int));
    }
    if (signed && at == 1) || at == 0 {
        None
    } else {
        Some(value)
    }
}

/// The decimal digit that stands for `n`, as a text.
pub fn digit_str(n: u64) -> (text: &'static str)
    requires
        n < 10,
    ensures
        text@ == seq![digit_char(n as nat)],
{
    proof {
        reveal_strlit("0");
        reveal_strlit("1");
        reveal_strlit("2");
        reveal_strlit("3");
        reveal_strlit("4");
        reveal_strlit("5");
        reveal_strlit("6");
        reveal_strlit("7");
        reveal_strlit("8");
        reveal_strlit("9");
    }
    let text = match n {
        0 => "0",
        1 => "1",
        2 => "2",
        3 => "3",
        4 => "4",
        5 => "5",
        6 => "6",
        7 => "7",
        8 => "8",
        _ => "9",
    };
    assert(text@ =~= seq![digit_char(n as nat)]);
    text
}

/// Writes `n` in decimal behind what `out` holds.
pub fn push_decimal(out: &mut String, n: u64)
    ensures
        final(out)@ == old(out)@ + decimal(n as nat),
    decreases n,
{
    if n >= 10 {
        push_decimal(out, n / 10);
    }
    out.append(digit_str(n % 10));
    proof {
        if n >= 10 {
            assert(final(out)@ =~= old(out)@ + decimal(n as nat));
        }
    }
}

/// Whether a character occurs in a text.
pub fn has_char(text: &str, c: char) -> (found: bool)
    ensures
        found == text@.contains(c),
{
    for other in it: text.chars()
        invariant
            it.seq() == text@,
            forall|j: int| 0 <= j < it.index() ==> text@[j] != c,
    {
        if other == c {
            assert(text@[it.index() as int] == c);
            return true;
        }
    }
    false
}

/// Whether a text consists of the one character `c`.
pub fn is_char(text: &str, c: char) -> (same: bool)
    ensures
        same == (text@ == seq![c]),
{
    if text.unicode_len() != 1 {
        return false;
    }
    let same = text.get_char(0) == c;
    proof {
        if same {
            assert(text@ =~= seq![c]);
        }
    }
    same
}

} // verus!
