//! Small pieces of text: numbers, separators, joining.
use vstd::prelude::*;
use vstd::string::{StrSliceExecFns, StringExecFns};

verus! {

/// The value of a decimal digit.
pub open spec fn digit_value(c: char) -> Option<nat> {
    if '0' <= c && c <= '9' {
        Some((c as int - '0' as int) as nat)
    } else {
        None
    }
}

/// The number a row of decimal digits stands for; `None` if one of the
/// characters is not a digit.
pub open spec fn digits_value(s: Seq<char>) -> Option<nat>
    decreases s.len(),
{
    if s.len() == 0 {
        Some(0)
    } else {
        match (digits_value(s.drop_last()), digit_value(s.last())) {
            (Some(high), Some(low)) => Some(10 * high + low),
            _ => None,
        }
    }
}

/// The number a text stands for: at least one digit, with a plus sign in
/// front or not, and no more than 32 bits.
pub open spec fn number(s: Seq<char>) -> Option<u32> {
    let digits = if s.len() > 0 && s[0] == '+' {
        s.skip(1)
    } else {
        s
    };
    match digits_value(digits) {
        Some(n) => if digits.len() > 0 && n <= u32::MAX {
            Some(n as u32)
        } else {
            None
        },
        None => None,
    }
}

fn value_of(c: char) -> (r: Option<u64>)
    ensures
        match r {
            Some(d) => digit_value(c) == Some(d as nat) && d < 10,
            None => digit_value(c) is None,
        },
{
    if '0' <= c && c <= '9' {
        Some((c as u32 - '0' as u32) as u64)
    } else {
        None
    }
}

/// Digits behind others make a number larger or no number at all.
proof fn lemma_digits_grow(s: Seq<char>, k: int)
    requires
        0 <= k <= s.len(),
    ensures
        digits_value(s) matches Some(n) ==> digits_value(s.take(k)) matches Some(m) && m <= n,
    decreases s.len() - k,
{
    if k < s.len() {
        lemma_digits_grow(s, k + 1);
        assert(s.take(k + 1).drop_last() =~= s.take(k));
    } else {
        assert(s.take(k) =~= s);
    }
}

/// Reads a number.
pub fn parse_number(text: &str) -> (r: Option<u32>)
    ensures
        r == number(text@),
{
    let len = text.unicode_len();
    let start: usize = if len > 0 && text.get_char(0) == '+' {
        1
    } else {
        0
    };
    let ghost digits = text@.skip(start as int);
    assert(start == 0 ==> digits =~= text@);
    if start == len {
        return None;
    }
    let mut n: u64 = 0;
    for i in start..len
        invariant
            start <= 1,
            len == text@.len(),
            digits == text@.skip(start as int),
            number(text@) == (match digits_value(digits) {
                Some(n) => if digits.len() > 0 && n <= u32::MAX {
                    Some(n as u32)
                } else {
                    None
                },
                None => None,
            }),
            n <= u32::MAX,
            digits_value(digits.take(i - start)) == Some(n as nat),
    {
        let ghost k = i - start;
        proof {
            lemma_digits_grow(digits, k + 1);
            assert(digits.take(k + 1).drop_last() =~= digits.take(k));
            assert(digits.take(k + 1).last() == text@[i as int]);
        }
        match value_of(text.get_char(i)) {
            Some(d) => {
                n = 10 * n + d;
            },
            None => {
                return None;
            },
        }
        if n > u32::MAX as u64 {
            return None;
        }
    }
    assert(digits.take(len - start) =~= digits);
    Some(n as u32)
}

/// A digit as a character.
pub open spec fn digit(d: nat) -> char {
    ('0' as int + d) as char
}

/// A number in decimal, without leading zeros.
pub open spec fn decimal(n: nat) -> Seq<char>
    decreases n,
{
    if n < 10 {
        seq![digit(n)]
    } else {
        decimal(n / 10).push(digit(n % 10))
    }
}

fn digit_text(d: u64) -> (r: &'static str)
    requires
        d < 10,
    ensures
        r@ == seq![digit(d as nat)],
{
    proof {
        reveal_strlit("0");
        reveal_strlit("1");
        reveal_strlit("2");
        reveal_strlit("3");
        reveal_strlit("4");
        reveal_strlit("5");
        reveal_strlit("6");
        reveal_strlit("7");
        reveal_strlit("8");
        reveal_strlit("9");
    }
    let r = match d {
        0 => "0",
        1 => "1",
        2 => "2",
        3 => "3",
        4 => "4",
        5 => "5",
        6 => "6",
        7 => "7",
        8 => "8",
        _ => "9",
    };
    assert(r@ =~= seq![digit(d as nat)]);
    r
}

/// Writes a number in decimal.
pub fn decimal_of(n: u64) -> (r: String)
    ensures
        r@ == decimal(n as nat),
    decreases n,
{
    if n < 10 {
        digit_text(n).to_owned()
    } else {
        let mut text = decimal_of(n / 10);
        text.append(digit_text(n % 10));
        assert(text@ =~= decimal(n as nat));
        text
    }
}

/// A number that is written down is read back.
pub proof fn numbers_round_trip(n: u32)
    ensures
        number(decimal(n as nat)) == Some(n),
{
    lemma_decimal(n as nat);
}

proof fn lemma_decimal(n: nat)
    ensures
        decimal(n).len() > 0,
        decimal(n)[0] != '+',
        digits_value(decimal(n)) == Some(n),
    decreases n,
{
    let s = decimal(n);
    if n < 10 {
        assert(digits_value(s.drop_last()) == Some(0nat));
    } else {
        lemma_decimal(n / 10);
        assert(s.drop_last() =~= decimal(n / 10));
    }
}

/// The parts between separators; there always is at least one.
pub open spec fn pieces(s: Seq<char>, separator: char) -> Seq<Seq<char>>
    decreases s.len(),
{
    if s.len() == 0 {
        seq![Seq::empty()]
    } else {
        let before = pieces(s.drop_last(), separator);
        if s.last() == separator {
            before.push(Seq::empty())
        } else {
            before.drop_last().push(before.last().push(s.last()))
        }
    }
}

/// The texts in a list of strings.
pub open spec fn texts(strings: Seq<String>) -> Seq<Seq<char>> {
    Seq::new(strings.len(), |i: int| strings[i]@)
}

proof fn lemma_pieces(s: Seq<char>, separator: char, k: int, start: int)
    requires
        0 <= start <= k <= s.len(),
        forall|i: int| start <= i < k ==> s[i] != separator,
        start == 0 || s[start - 1] == separator,
    ensures
        pieces(s.take(k), separator).last() == s.subrange(start, k),
        pieces(s.take(k), separator).drop_last() == (if start == 0 {
            Seq::<Seq<char>>::empty()
        } else {
            pieces(s.take(start - 1), separator)
        }),
        pieces(s.take(k), separator).len() > 0,
    decreases k - start,
{
    let t = s.take(k);
    if k == start {
        if k == 0 {
            assert(pieces(t, separator).drop_last() =~= Seq::<Seq<char>>::empty());
            assert(s.subrange(0, 0) =~= Seq::<char>::empty());
        } else {
            assert(t.drop_last() =~= s.take(k - 1));
            assert(pieces(t, separator).drop_last() =~= pieces(s.take(k - 1), separator));
            assert(s.subrange(k, k) =~= Seq::<char>::empty());
        }
    } else {
        lemma_pieces(s, separator, k - 1, start);
        assert(t.drop_last() =~= s.take(k - 1));
        let before = pieces(s.take(k - 1), separator);
        assert(before.drop_last().push(before.last().push(t.last())).drop_last()
            =~= before.drop_last());
        assert(s.subrange(start, k - 1).push(s[k - 1]) =~= s.subrange(start, k));
    }
}

/// Splits a text at every separator.
pub fn split(text: &str, separator: char) -> (r: Vec<String>)
    ensures
        texts(r@) == pieces(text@, separator),
{
    let len = text.unicode_len();
    let mut parts: Vec<String> = Vec::new();
    let mut start: usize = 0;
    assert(texts(parts@) =~= Seq::<Seq<char>>::empty());
    for i in 0..len
        invariant
            len == text@.len(),
            start <= i,
            start == 0 || text@[start - 1] == separator,
            forall|j: int| start <= j < i ==> text@[j] != separator,
            texts(parts@) == (if start == 0 {
                Seq::<Seq<char>>::empty()
            } else {
                pieces(text@.take(start - 1), separator)
            }),
    {
        if text.get_char(i) == separator {
            let ghost before = texts(parts@);
            let part = text.substring_char(start, i).to_owned();
            parts.push(part);
            proof {
                lemma_pieces(text@, separator, i as int, start as int);
                let whole = pieces(text@.take(i as int), separator);
                assert(texts(parts@) =~= before.push(part@));
                assert(whole =~= whole.drop_last().push(whole.last()));
            }
            start = i + 1;
        }
    }
    let ghost before = texts(parts@);
    let part = text.substring_char(start, len).to_owned();
    parts.push(part);
    proof {
        lemma_pieces(text@, separator, len as int, start as int);
        let whole = pieces(text@.take(len as int), separator);
        assert(text@.take(len as int) =~= text@);
        assert(texts(parts@) =~= before.push(part@));
        assert(whole =~= whole.drop_last().push(whole.last()));
    }
    parts
}

/// `k` is where the separator first occurs.
pub open spec fn first_at(s: Seq<char>, separator: char, k: int) -> bool {
    0 <= k < s.len() && s[k] == separator && forall|j: int| 0 <= j < k ==> s[j] != separator
}

/// What stands before and after the first separator; `None` if there is none.
pub open spec fn halves(s: Seq<char>, separator: char) -> Option<(Seq<char>, Seq<char>)> {
    if s.contains(separator) {
        let k = choose|k: int| first_at(s, separator, k);
        Some((s.take(k), s.skip(k + 1)))
    } else {
        None
    }
}

/// Splits a text at the first separator.
pub fn split_once(text: &str, separator: char) -> (r: Option<(String, String)>)
    ensures
        match r {
            Some((before, after)) => halves(text@, separator) == Some((before@, after@)),
            None => halves(text@, separator) is None,
        },
{
    let len = text.unicode_len();
    for i in 0..len
        invariant
            len == text@.len(),
            forall|j: int| 0 <= j < i ==> text@[j] != separator,
    {
        if text.get_char(i) == separator {
            let before = text.substring_char(0, i).to_owned();
            let after = text.substring_char(i + 1, len).to_owned();
            proof {
                assert(first_at(text@, separator, i as int));
                let k = choose|k: int| first_at(text@, separator, k);
                assert(first_at(text@, separator, k));
                assert(k == i);
                assert(before@ =~= text@.take(k));
                assert(after@ =~= text@.skip(k + 1));
                assert(text@.contains(separator));
            }
            return Some((before, after));
        }
    }
    None
}

/// The ten digits count from zero, and no other character is one.
pub proof fn digits_count_from_zero(c: char, d: nat)
    ensures
        digit_value(c) == Some(d) <==> d < 10 && c as int == '0' as int + d,
        d < 10 ==> digit_value(digit(d)) == Some(d),
{
}

/// A digit behind a row of digits counts once and makes the others count
/// tenfold; anything else behind it, or before it, makes it no number.
pub proof fn places_count_tenfold(s: Seq<char>, c: char)
    ensures
        digits_value(Seq::empty()) == Some(0nat),
        match (digits_value(s), digit_value(c)) {
            (Some(high), Some(low)) => digits_value(s.push(c)) == Some(10 * high + low),
            _ => digits_value(s.push(c)) is None,
        },
{
    assert(s.push(c).drop_last() =~= s);
}

/// A row of characters stands for a number exactly if all of them are digits.
pub proof fn only_digits_make_a_number(s: Seq<char>)
    ensures
        digits_value(s) is Some <==> forall|i: int|
            0 <= i < s.len() ==> digit_value(#[trigger] s[i]) is Some,
    decreases s.len(),
{
    if s.len() > 0 {
        let before = s.drop_last();
        only_digits_make_a_number(before);
        assert(forall|i: int| 0 <= i < before.len() ==> before[i] == s[i]);
        if digits_value(s) is None && digit_value(s.last()) is Some {
            let i = choose|i: int|
                0 <= i < before.len() && digit_value(#[trigger] before[i]) is None;
            assert(digit_value(s[i]) is None);
        }
        if digits_value(s) is Some {
            assert forall|i: int| 0 <= i < s.len() implies digit_value(#[trigger] s[i]) is Some by {
                if i < before.len() {
                    assert(digit_value(before[i]) is Some);
                }
            }
        }
    }
}

/// Digits are read as their number up to 32 bits, with a plus sign in front or
/// without. Without a digit, with anything else among them, or beyond 32 bits,
/// there is no number.
pub proof fn numbers_are_digits(digits: Seq<char>)
    ensures
        number(Seq::empty()) is None,
        number(seq!['+']) is None,
        digits.len() > 0 ==> match digits_value(digits) {
            Some(n) => if n <= u32::MAX {
                number(digits) == Some(n as u32) && number(seq!['+'] + digits) == Some(n as u32)
            } else {
                number(digits) is None && number(seq!['+'] + digits) is None
            },
            None => {
                &&& number(seq!['+'] + digits) is None
                &&& digits[0] != '+' ==> number(digits) is None
            },
        },
{
    assert((seq!['+'] + digits).skip(1) =~= digits);
    assert(seq!['+'].skip(1) =~= Seq::<char>::empty());
    if digits.len() > 0 && digits[0] == '+' {
        only_digits_make_a_number(digits);
        assert(digit_value(digits[0]) is None);
    }
}

/// A number is written in digits only, and does not start with a zero unless it
/// is zero.
pub proof fn decimals_are_plain(n: nat, i: int)
    requires
        0 <= i < decimal(n).len(),
    ensures
        digit_value(decimal(n)[i]) is Some,
        digits_value(decimal(n)) == Some(n),
        n > 0 ==> decimal(n)[0] != '0',
        n < 10 ==> decimal(n).len() == 1,
    decreases n,
{
    lemma_decimal(n);
    only_digits_make_a_number(decimal(n));
    lemma_no_leading_zero(n);
}

proof fn lemma_no_leading_zero(n: nat)
    ensures
        decimal(n).len() > 0,
        n > 0 ==> decimal(n)[0] != '0',
    decreases n,
{
    if n >= 10 {
        lemma_no_leading_zero(n / 10);
    }
}

/// A text without separators is one piece. What stands before the first
/// separator is the first piece, and the pieces of what stands behind it follow.
pub proof fn separators_end_pieces(first: Seq<char>, rest: Seq<char>, separator: char)
    requires
        !first.contains(separator),
    ensures
        pieces(first, separator) == seq![first],
        pieces(first + seq![separator] + rest, separator) == seq![first] + pieces(rest, separator),
    decreases rest.len(),
{
    lemma_one_piece(first, separator);
    let s = first + seq![separator] + rest;
    if rest.len() == 0 {
        assert(s.drop_last() =~= first);
        assert(pieces(s, separator) =~= seq![first] + pieces(rest, separator));
    } else {
        let fewer = rest.drop_last();
        separators_end_pieces(first, fewer, separator);
        assert(s.drop_last() =~= first + seq![separator] + fewer);
        lemma_some_piece(fewer, separator);
        let before = pieces(fewer, separator);
        let all = seq![first] + before;
        assert(all.drop_last() =~= seq![first] + before.drop_last());
        assert(all.last() == before.last());
        assert(pieces(s, separator) =~= seq![first] + pieces(rest, separator));
    }
}

proof fn lemma_one_piece(s: Seq<char>, separator: char)
    requires
        !s.contains(separator),
    ensures
        pieces(s, separator) == seq![s],
    decreases s.len(),
{
    if s.len() == 0 {
        assert(s =~= Seq::<char>::empty());
    } else {
        assert(s[s.len() - 1] != separator);
        assert(!s.drop_last().contains(separator)) by {
            assert(forall|i: int| 0 <= i < s.drop_last().len() ==> s.drop_last()[i] == s[i]);
        }
        lemma_one_piece(s.drop_last(), separator);
        assert(s.drop_last().push(s.last()) =~= s);
        assert(pieces(s, separator) =~= seq![s]);
    }
}

proof fn lemma_some_piece(s: Seq<char>, separator: char)
    ensures
        pieces(s, separator).len() > 0,
    decreases s.len(),
{
    if s.len() > 0 {
        lemma_some_piece(s.drop_last(), separator);
    }
}

/// A text is split at its first separator, and whatever separators come later
/// stay in the second half. Without a separator there are no halves.
pub proof fn first_separators_split(before: Seq<char>, after: Seq<char>, separator: char)
    requires
        !before.contains(separator),
    ensures
        halves(before + seq![separator] + after, separator) == Some((before, after)),
        halves(before, separator) is None,
{
    let s = before + seq![separator] + after;
    let at = before.len() as int;
    assert(s[at] == separator);
    assert forall|j: int| 0 <= j < at implies s[j] != separator by {
        assert(s[j] == before[j]);
    }
    assert(first_at(s, separator, at));
    let k = choose|k: int| first_at(s, separator, k);
    assert(first_at(s, separator, k));
    if k < at {
        assert(s[k] == before[k]);
    }
    assert(k == at);
    assert(s.take(k) =~= before);
    assert(s.skip(k + 1) =~= after);
}

/// A list of strings stands for all of its texts.
pub proof fn lists_stand_for_all_texts(strings: Seq<String>, i: int)
    requires
        0 <= i < strings.len(),
    ensures
        texts(strings).len() == strings.len(),
        texts(strings)[i] == strings[i]@,
{
}

} // verus!
