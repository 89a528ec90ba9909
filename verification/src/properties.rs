//! The list notation of module properties: numbers between square brackets,
//! separated by commas, each with white space around it at will, as in
//! `[1, 2, 3]`.

use vstd::prelude::*;

verus! {

/// White space, as Unicode defines it.
pub open spec fn is_space_spec(c: char) -> bool {
    let n = c as u32;
    ||| 0x09 <= n <= 0x0D
    ||| n == 0x20
    ||| n == 0x85
    ||| n == 0xA0
    ||| n == 0x1680
    ||| 0x2000 <= n <= 0x200A
    ||| n == 0x2028
    ||| n == 0x2029
    ||| n == 0x202F
    ||| n == 0x205F
    ||| n == 0x3000
}

/// White space, as Unicode defines it.
#[verifier::when_used_as_spec(is_space_spec)]
pub fn is_space(c: char) -> (b: bool)
    ensures
        b == is_space_spec(c),
{
    let n = c as u32;
    (0x09 <= n && n <= 0x0D) || n == 0x20 || n == 0x85 || n == 0xA0 || n == 0x1680 || (0x2000 <= n
        && n <= 0x200A) || n == 0x2028 || n == 0x2029 || n == 0x202F || n == 0x205F || n == 0x3000
}

/// A decimal digit.
pub open spec fn is_digit(c: char) -> bool {
    '0' <= c <= '9'
}

/// The number that a decimal digit stands for.
pub open spec fn digit_value(c: char) -> nat {
    (c as u32 - '0' as u32) as nat
}

/// `s` without the white space at its two ends.
pub open spec fn trimmed(s: Seq<char>) -> Seq<char>
    decreases s.len(),
{
    if s.len() > 0 && is_space(s.first()) {
        trimmed(s.drop_first())
    } else if s.len() > 0 && is_space(s.last()) {
        trimmed(s.drop_last())
    } else {
        s
    }
}

/// The number that a sequence of decimal digits stands for.
pub open spec fn decimal_value(digits: Seq<char>) -> nat
    decreases digits.len(),
{
    if digits.len() == 0 {
        0
    } else {
        decimal_value(digits.drop_last()) * 10 + digit_value(digits.last())
    }
}

/// The digits of a number's notation: what follows the plus sign, if it
/// starts with one.
pub open spec fn unsigned_part(s: Seq<char>) -> Seq<char> {
    if s.len() > 0 && s.first() == '+' {
        s.drop_first()
    } else {
        s
    }
}

/// The number that `s` denotes: an optional plus sign, then one or more
/// decimal digits and nothing else, with a value of at most 255.
pub open spec fn number_of(s: Seq<char>) -> Option<u8> {
    let digits = unsigned_part(s);
    if digits.len() > 0 && (forall|i: int| 0 <= i < digits.len() ==> is_digit(#[trigger] digits[i]))
        && decimal_value(digits) <= u8::MAX {
        Some(decimal_value(digits) as u8)
    } else {
        None
    }
}

/// The pieces of `s` between its commas, in order. A sequence with `n`
/// commas has `n + 1` pieces, some of which may be empty.
pub open spec fn pieces(s: Seq<char>) -> Seq<Seq<char>>
    decreases s.len(),
{
    if s.len() == 0 {
        seq![Seq::<char>::empty()]
    } else {
        let before = pieces(s.drop_last());
        if s.last() == ',' {
            before.push(Seq::<char>::empty())
        } else {
            before.drop_last().push(before.last().push(s.last()))
        }
    }
}

/// The numbers that the items denote, if every item, without the white
/// space around it, denotes one.
pub open spec fn numbers_of(items: Seq<Seq<char>>) -> Option<Seq<u8>> {
    if forall|i: int| 0 <= i < items.len() ==> number_of(trimmed(#[trigger] items[i])) is Some {
        Some(Seq::new(items.len(), |i: int| number_of(trimmed(items[i]))->0))
    } else {
        None
    }
}

/// The list that `text` denotes: `text` starts with `[` and ends with `]`,
/// and what stands between them are numbers separated by commas.
pub open spec fn number_list(text: Seq<char>) -> Option<Seq<u8>> {
    if text.len() >= 2 && text.first() == '[' && text.last() == ']' {
        numbers_of(pieces(text.subrange(1, text.len() - 1)))
    } else {
        None
    }
}

/// No piece holds a comma, and the pieces with a comma between each two of
/// them are the whole.
pub proof fn lemma_pieces(s: Seq<char>)
    ensures
        pieces(s).len() >= 1,
        forall|i: int, j: int|
            0 <= i < pieces(s).len() && 0 <= j < pieces(s)[i].len() ==> (#[trigger] pieces(
                s,
            )[i][j]) != ',',
        joined(pieces(s)) == s,
    decreases s.len(),
{
    if s.len() > 0 {
        let front = s.drop_last();
        let before = pieces(front);
        lemma_pieces(front);
        let now = pieces(s);
        if s.last() == ',' {
            assert(now.drop_last() =~= before);
            assert(joined(now) =~= s);
        } else {
            let grown = before.last().push(s.last());
            assert forall|i: int, j: int| 0 <= i < now.len() && 0 <= j < now[i].len() implies (
            #[trigger] now[i][j]) != ',' by {
                if i < now.len() - 1 {
                    assert(now[i][j] == before[i][j]);
                } else if j < before.last().len() {
                    assert(now[i][j] == before[before.len() - 1][j]);
                }
            }
            assert(now.drop_last() =~= before.drop_last());
            assert(now.last() == grown);
            if before.len() == 1 {
                assert(joined(before) == before.last());
                assert(joined(now) == grown);
                assert(grown =~= s);
            } else {
                let head = joined(before.drop_last()).push(',');
                assert(joined(before) == head + before.last());
                assert(joined(now) == head + grown);
                assert(head + grown =~= (head + before.last()).push(s.last()));
                assert(front.push(s.last()) =~= s);
            }
        }
    } else {
        assert(pieces(s).drop_last() =~= Seq::<Seq<char>>::empty());
    }
}

/// The items with a comma between each two of them.
pub open spec fn joined(items: Seq<Seq<char>>) -> Seq<char>
    decreases items.len(),
{
    if items.len() == 0 {
        Seq::empty()
    } else if items.len() == 1 {
        items.last()
    } else {
        joined(items.drop_last()).push(',') + items.last()
    }
}

/// Trimming keeps what lies between the first and the last character that
/// is no white space.
proof fn lemma_trimmed(s: Seq<char>, lo: int, hi: int)
    requires
        0 <= lo <= hi <= s.len(),
        forall|i: int| 0 <= i < lo ==> is_space(#[trigger] s[i]),
        forall|i: int| hi <= i < s.len() ==> is_space(#[trigger] s[i]),
        lo < hi ==> !is_space(s[lo]) && !is_space(s[hi - 1]),
    ensures
        trimmed(s) == s.subrange(lo, hi),
    decreases s.len(),
{
    if lo > 0 {
        let rest = s.drop_first();
        assert forall|i: int| 0 <= i < lo - 1 implies is_space(#[trigger] rest[i]) by {
            assert(rest[i] == s[i + 1]);
        }
        assert forall|i: int| hi - 1 <= i < rest.len() implies is_space(#[trigger] rest[i]) by {
            assert(rest[i] == s[i + 1]);
        }
        lemma_trimmed(rest, lo - 1, hi - 1);
        assert(rest.subrange(lo - 1, hi - 1) =~= s.subrange(lo, hi));
    } else if hi < s.len() {
        if hi == 0 {
            let rest = s.drop_first();
            assert forall|i: int| 0 <= i < rest.len() implies is_space(#[trigger] rest[i]) by {
                assert(rest[i] == s[i + 1]);
            }
            lemma_trimmed(rest, 0, 0);
            assert(rest.subrange(0, 0) =~= s.subrange(0, 0));
        } else {
            let rest = s.drop_last();
            assert forall|i: int| hi <= i < rest.len() implies is_space(#[trigger] rest[i]) by {
                assert(rest[i] == s[i]);
            }
            lemma_trimmed(rest, 0, hi);
            assert(rest.subrange(0, hi) =~= s.subrange(0, hi));
        }
    } else {
        assert(s.subrange(0, s.len() as int) =~= s);
    }
}

/// More digits never denote less.
proof fn lemma_decimal_value_grows(digits: Seq<char>, n: int)
    requires
        0 <= n <= digits.len(),
    ensures
        decimal_value(digits.take(n)) <= decimal_value(digits),
    decreases digits.len() - n,
{
    if n < digits.len() {
        lemma_decimal_value_grows(digits, n + 1);
        assert(digits.take(n + 1).drop_last() =~= digits.take(n));
    } else {
        assert(digits.take(n) =~= digits);
    }
}

/// The characters `s[lo..hi]`.
fn slice_of(s: &Vec<char>, lo: usize, hi: usize) -> (r: Vec<char>)
    requires
        lo <= hi <= s.len(),
    ensures
        r@ == s@.subrange(lo as int, hi as int),
{
    let mut r: Vec<char> = Vec::new();
    let mut i: usize = lo;
    while i < hi
        invariant
            lo <= i <= hi <= s.len(),
            r@ == s@.subrange(lo as int, i as int),
        decreases hi - i,
    {
        r.push(s[i]);
        proof {
            assert(s@.subrange(lo as int, i + 1) =~= s@.subrange(lo as int, i as int).push(
                s@[i as int],
            ));
        }
        i += 1;
    }
    r
}

/// The characters of `text`.
fn chars_of(text: &str) -> (r: Vec<char>)
    ensures
        r@ == text@,
{
    let n = text.unicode_len();
    let mut r: Vec<char> = Vec::new();
    let mut i: usize = 0;
    while i < n
        invariant
            i <= n,
            n == text@.len(),
            r@ == text@.take(i as int),
        decreases n - i,
    {
        r.push(text.get_char(i));
        proof {
            assert(text@.take(i + 1) =~= text@.take(i as int).push(text@[i as int]));
        }
        i += 1;
    }
    proof {
        assert(text@.take(n as int) =~= text@);
    }
    r
}

/// Removes the white space at the two ends of `s`.
pub fn trim(s: &Vec<char>) -> (r: Vec<char>)
    ensures
        r@ == trimmed(s@),
{
    let mut lo: usize = 0;
    while lo < s.len() && is_space(s[lo])
        invariant
            lo <= s.len(),
            forall|i: int| 0 <= i < lo ==> is_space(#[trigger] s@[i]),
        decreases s.len() - lo,
    {
        lo += 1;
    }
    let mut hi: usize = s.len();
    while hi > lo && is_space(s[hi - 1])
        invariant
            lo <= hi <= s.len(),
            forall|i: int| hi <= i < s.len() ==> is_space(#[trigger] s@[i]),
        decreases hi,
    {
        hi -= 1;
    }
    proof {
        lemma_trimmed(s@, lo as int, hi as int);
    }
    slice_of(s, lo, hi)
}

/// Reads a number of at most 255: an optional plus sign, then one or more
/// decimal digits and nothing else.
pub fn parse_number(s: &Vec<char>) -> (r: Option<u8>)
    ensures
        r == number_of(s@),
{
    let start: usize = if s.len() > 0 && s[0] == '+' {
        1
    } else {
        0
    };
    let ghost digits = unsigned_part(s@);
    proof {
        assert(digits =~= s@.subrange(start as int, s@.len() as int));
    }
    if start == s.len() {
        return None;
    }
    let mut value: u32 = 0;
    let mut i: usize = start;
    while i < s.len()
        invariant
            start <= i <= s.len(),
            start < s.len(),
            digits == unsigned_part(s@),
            digits == s@.subrange(start as int, s@.len() as int),
            forall|j: int| 0 <= j < i - start ==> is_digit(#[trigger] digits[j]),
            value == decimal_value(digits.take(i - start)),
            value <= u8::MAX,
        decreases s.len() - i,
    {
        let c = s[i];
        proof {
            assert(digits[i - start] == c);
            assert(digits.take(i - start + 1).drop_last() =~= digits.take(i - start));
        }
        if !('0' <= c && c <= '9') {
            proof {
                assert(!is_digit(digits[i - start]));
            }
            return None;
        }
        let digit = c as u32 - '0' as u32;
        value = value * 10 + digit;
        proof {
            assert(digits.take(i - start + 1).last() == c);
            assert(value == decimal_value(digits.take(i - start + 1)));
        }
        if value > 255 {
            proof {
                lemma_decimal_value_grows(digits, i - start + 1);
            }
            return None;
        }
        i += 1;
    }
    proof {
        assert(digits.take(i - start) =~= digits);
    }
    Some(value as u8)
}

/// Splits `s` at its commas.
pub fn split_at_commas(s: &Vec<char>) -> (r: Vec<Vec<char>>)
    ensures
        r@.len() == pieces(s@).len(),
        forall|i: int| 0 <= i < r@.len() ==> (#[trigger] r@[i])@ == pieces(s@)[i],
{
    let mut done: Vec<Vec<char>> = Vec::new();
    let mut current: Vec<char> = Vec::new();
    let mut i: usize = 0;
    proof {
        assert(s@.take(0) =~= Seq::<char>::empty());
    }
    while i < s.len()
        invariant
            i <= s.len(),
            done@.len() + 1 == pieces(s@.take(i as int)).len(),
            forall|j: int|
                0 <= j < done@.len() ==> (#[trigger] done@[j])@ == pieces(s@.take(i as int))[j],
            current@ == pieces(s@.take(i as int)).last(),
        decreases s.len() - i,
    {
        let c = s[i];
        proof {
            assert(s@.take(i + 1).drop_last() =~= s@.take(i as int));
            assert(s@.take(i + 1).last() == c);
        }
        if c == ',' {
            done.push(current);
            current = Vec::new();
        } else {
            current.push(c);
        }
        i += 1;
    }
    proof {
        assert(s@.take(i as int) =~= s@);
    }
    done.push(current);
    done
}

/// Reads a list of numbers, each of at most 255: `[`, the numbers separated
/// by commas, each with white space around it at will, and `]`. The result
/// is `None` where `text` is no such list.
pub fn parse_number_list(text: &str) -> (r: Option<Vec<u8>>)
    ensures
        match r {
            Some(numbers) => number_list(text@) == Some(numbers@),
            None => number_list(text@) is None,
        },
{
    let chars = chars_of(text);
    let n = chars.len();
    if n < 2 || chars[0] != '[' || chars[n - 1] != ']' {
        return None;
    }
    let inner = slice_of(&chars, 1, n - 1);
    let items = split_at_commas(&inner);
    let ghost wanted = pieces(inner@);
    let mut numbers: Vec<u8> = Vec::new();
    let mut i: usize = 0;
    while i < items.len()
        invariant
            i <= items.len(),
            text@.len() >= 2 && text@.first() == '[' && text@.last() == ']',
            wanted == pieces(text@.subrange(1, text@.len() - 1)),
            items@.len() == wanted.len(),
            forall|j: int| 0 <= j < items@.len() ==> (#[trigger] items@[j])@ == wanted[j],
            numbers@.len() == i,
            forall|j: int|
                0 <= j < i ==> number_of(trimmed(#[trigger] wanted[j])) == Some(numbers@[j]),
        decreases items.len() - i,
    {
        let item = trim(&items[i]);
        match parse_number(&item) {
            Some(number) => {
                numbers.push(number);
            },
            None => {
                proof {
                    assert(number_of(trimmed(wanted[i as int])) is None);
                }
                return None;
            },
        }
        i += 1;
    }
    proof {
        assert(numbers@ =~= numbers_of(wanted)->0);
    }
    Some(numbers)
}

} // verus!
