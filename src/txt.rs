//! Compact text notation for the leap second list.
//!
//! A list is written as one token per entry after the epoch: the gap in
//! months as a decimal number from 1 to 999 without leading zeros, then
//! `-` for a negative leap second, `+` for a positive one, or `?` for the
//! expiry date, which ends the text.
use vstd::prelude::*;
use vstd::std_specs::iter::IteratorSpec;
use vstd::string::{axiom_spec_iter, next_postcondition};

use crate::{
    epoch, finish_spec, finished, lemma_wf_at, list_result, push_gap_spec, Entry, Error, Leap,
    LeapSecs, MJD,
};

verus! {

/// The decimal digit for `d`, from 0 to 9.
pub open spec fn digit_char(d: int) -> char {
    if d == 0 {
        '0'
    } else if d == 1 {
        '1'
    } else if d == 2 {
        '2'
    } else if d == 3 {
        '3'
    } else if d == 4 {
        '4'
    } else if d == 5 {
        '5'
    } else if d == 6 {
        '6'
    } else if d == 7 {
        '7'
    } else if d == 8 {
        '8'
    } else {
        '9'
    }
}

pub open spec fn is_digit(c: char) -> bool {
    '0' <= c <= '9'
}

/// The value of a decimal digit.
pub open spec fn digit_value(c: char) -> int {
    c as int - '0' as int
}

/// The decimal notation of `n`, without leading zeros.
pub open spec fn decimal(n: int) -> Seq<char>
    decreases n,
{
    if n < 10 {
        seq![digit_char(n)]
    } else {
        decimal(n / 10).push(digit_char(n % 10))
    }
}

/// The character that ends a token of the given kind.
pub open spec fn sign_char(sign: Leap) -> char {
    match sign {
        Leap::Neg => '-',
        Leap::Pos => '+',
        _ => '?',
    }
}

pub open spec fn is_sign(c: char) -> bool {
    c == '-' || c == '+' || c == '?'
}

/// The kind of entry that a sign character ends.
pub open spec fn char_sign(c: char) -> Leap {
    if c == '-' {
        Leap::Neg
    } else if c == '+' {
        Leap::Pos
    } else {
        Leap::Exp
    }
}

/// The token of one entry; the epoch has none.
pub open spec fn entry_text(e: Entry) -> Seq<char> {
    if e.sign == Leap::Zero {
        seq![]
    } else {
        decimal(e.gap).push(sign_char(e.sign))
    }
}

/// The text notation of a list.
pub open spec fn list_text(s: Seq<Entry>) -> Seq<char>
    decreases s.len(),
{
    if s.len() == 0 {
        seq![]
    } else {
        list_text(s.drop_last()) + entry_text(s.last())
    }
}

/// The result of reading the characters `cs`, with the builder at `b`
/// and `digits` digits of value `gap` read of the current token.
pub open spec fn parse_chars(
    b: Seq<Entry>,
    digits: int,
    gap: int,
    cs: Seq<char>,
    today: int,
) -> Result<Seq<Entry>, Error>
    decreases cs.len(),
{
    if cs.len() == 0 {
        if digits != 0 {
            Err(Error::Truncated)
        } else {
            finish_spec(b, today)
        }
    } else {
        let c = cs[0];
        if is_digit(c) && (digits == 1 || digits == 2 || (digits == 0 && c != '0')) {
            parse_chars(b, digits + 1, gap * 10 + digit_value(c), cs.drop_first(), today)
        } else if is_sign(c) && 1 <= digits <= 3 {
            match push_gap_spec(b, gap, char_sign(c)) {
                Ok(t) => parse_chars(t, 0, 0, cs.drop_first(), today),
                Err(e) => Err(e),
            }
        } else if digits == 0 {
            Err(Error::FromStr("[1-9]", c))
        } else if digits < 3 {
            Err(Error::FromStr("[0-9?+-]", c))
        } else {
            Err(Error::FromStr("[?+-]", c))
        }
    }
}

/// The list that a text reads as, on the given current date.
pub open spec fn parse_text(cs: Seq<char>, today: int) -> Result<Seq<Entry>, Error> {
    parse_chars(Seq::empty(), 0, 0, cs, today)
}

fn push_char(out: &mut String, c: char)
    requires
        is_digit(c) || is_sign(c),
    ensures
        final(out)@ == old(out)@.push(c),
{
    proof {
        reveal_strlit("0");
        reveal_strlit("1");
        reveal_strlit("2");
        reveal_strlit("3");
        reveal_strlit("4");
        reveal_strlit("5");
        reveal_strlit("6");
        reveal_strlit("7");
        reveal_strlit("8");
        reveal_strlit("9");
        reveal_strlit("-");
        reveal_strlit("+");
        reveal_strlit("?");
    }
    let s = match c {
        '0' => "0",
        '1' => "1",
        '2' => "2",
        '3' => "3",
        '4' => "4",
        '5' => "5",
        '6' => "6",
        '7' => "7",
        '8' => "8",
        '9' => "9",
        '-' => "-",
        '+' => "+",
        _ => "?",
    };
    let ghost before = out@;
    out.append(s);
    assert(out@ =~= before.push(c));
}

fn digit(d: u16) -> (c: char)
    requires
        d < 10,
    ensures
        c == digit_char(d as int),
        is_digit(c),
{
    match d {
        0 => '0',
        1 => '1',
        2 => '2',
        3 => '3',
        4 => '4',
        5 => '5',
        6 => '6',
        7 => '7',
        8 => '8',
        _ => '9',
    }
}

fn push_decimal(out: &mut String, n: u16)
    requires
        1 <= n <= 999,
    ensures
        final(out)@ == old(out)@ + decimal(n as int),
{
    let ghost before = out@;
    if n >= 100 {
        push_char(out, digit(n / 100));
    }
    if n >= 10 {
        push_char(out, digit(n / 10 % 10));
    }
    push_char(out, digit(n % 10));
    proof {
        let m = n as int;
        if m >= 100 {
            assert(decimal(m / 100) == seq![digit_char(m / 100)]);
            assert(decimal(m / 10) == seq![digit_char(m / 100)].push(digit_char(m / 10 % 10)));
        } else if m >= 10 {
            assert(decimal(m / 10) == seq![digit_char(m / 10)]);
        }
        assert(out@ =~= before + decimal(m));
    }
}

fn sign_of(c: char) -> (r: Option<Leap>)
    ensures
        is_sign(c) ==> r == Some(char_sign(c)),
        !is_sign(c) ==> r is None,
{
    match c {
        '-' => Some(Leap::Neg),
        '+' => Some(Leap::Pos),
        '?' => Some(Leap::Exp),
        _ => None,
    }
}

fn digit_of(c: char) -> (r: Option<i32>)
    ensures
        is_digit(c) ==> r == Some(digit_value(c) as i32),
        !is_digit(c) ==> r is None,
{
    if '0' <= c && c <= '9' {
        Some((c as u32 - '0' as u32) as i32)
    } else {
        None
    }
}

impl LeapSecs {
    /// The text notation of the list.
    pub fn to_text(&self) -> (r: String)
        ensures
            r@ == list_text(self@),
    {
        let n = self.len();
        let mut out = String::new();
        let mut i: usize = 0;
        while i < n
            invariant
                n == self@.len(),
                crate::finished(self@),
                i <= n,
                out@ == list_text(self@.take(i as int)),
            decreases n - i,
        {
            let e = self.get(i);
            proof {
                crate::lemma_wf_at(self@, i as int);
            }
            assert(self@.take(i + 1).drop_last() =~= self@.take(i as int));
            let sign = e.sign();
            if sign != Leap::Zero {
                push_decimal(&mut out, e.gap());
                let c = match sign {
                    Leap::Neg => '-',
                    Leap::Pos => '+',
                    _ => '?',
                };
                push_char(&mut out, c);
            }
            i = i + 1;
        }
        assert(self@.take(n as int) =~= self@);
        out
    }

    /// Read a list from its text notation, checking that it has not
    /// expired by `today`.
    pub fn from_text(text: &str, today: MJD) -> (r: Result<LeapSecs, Error>)
        ensures
            list_result(r) == parse_text(text@, today.0 as int),
    {
        broadcast use {axiom_spec_iter, next_postcondition};

        let mut list = LeapSecs::builder();
        let mut digits: u8 = 0;
        let mut gap: i32 = 0;
        let mut chars = text.chars();
        loop
            invariant
                list.wf(),
                digits <= 3,
                0 <= gap,
                digits == 0 ==> gap == 0,
                digits <= 1 ==> gap < 10,
                digits <= 2 ==> gap < 100,
                gap < 1000,
                parse_chars(list@, digits as int, gap as int, chars.remaining(), today.0 as int)
                    == parse_text(text@, today.0 as int),
                chars.decrease() is Some,
            ensures
                chars.remaining().len() == 0,
            decreases chars.decrease()->0,
        {
            let c = match chars.next() {
                Some(c) => c,
                None => break,
            };
            match (digit_of(c), sign_of(c)) {
                (Some(d), _) if digits < 3 && (digits > 0 || d > 0) => {
                    digits = digits + 1;
                    gap = gap * 10 + d;
                },
                (_, Some(sign)) if digits > 0 => {
                    match list.push_gap(gap, sign) {
                        Ok(()) => {},
                        Err(e) => return Err(e),
                    }
                    digits = 0;
                    gap = 0;
                },
                _ => {
                    return if digits == 0 {
                        Err(Error::FromStr("[1-9]", c))
                    } else if digits < 3 {
                        Err(Error::FromStr("[0-9?+-]", c))
                    } else {
                        Err(Error::FromStr("[?+-]", c))
                    };
                },
            }
        }
        if digits != 0 {
            Err(Error::Truncated)
        } else {
            list.finish(today)
        }
    }
}

proof fn lemma_digit(n: int)
    requires
        0 <= n <= 9,
    ensures
        is_digit(digit_char(n)),
        digit_value(digit_char(n)) == n,
        n > 0 ==> digit_char(n) != '0',
        !is_sign(digit_char(n)),
{
}

/// Reading one token `gap` and its sign character pushes that gap and sign.
proof fn lemma_parse_token(b: Seq<Entry>, gap: int, sign: Leap, rest: Seq<char>, today: int)
    requires
        1 <= gap <= 999,
        sign != Leap::Zero,
    ensures
        parse_chars(b, 0, 0, decimal(gap).push(sign_char(sign)) + rest, today) == match push_gap_spec(
            b,
            gap,
            sign,
        ) {
            Ok(t) => parse_chars(t, 0, 0, rest, today),
            Err(e) => Err(e),
        },
{
    let sc = sign_char(sign);
    assert(is_sign(sc) && !is_digit(sc) && char_sign(sc) == sign);
    let tail = seq![sc] + rest;
    let done = match push_gap_spec(b, gap, sign) {
        Ok(t) => parse_chars(t, 0, 0, rest, today),
        Err(e) => Err(e),
    };
    let ones = gap % 10;
    lemma_digit(ones);
    // the sign ends the token whatever the number of digits
    assert(tail[0] == sc);
    assert(tail.drop_first() =~= rest);
    if gap < 10 {
        assert(decimal(gap) == seq![digit_char(gap)]);
        let cs = decimal(gap).push(sc) + rest;
        assert(cs =~= seq![digit_char(gap)] + tail);
        assert(cs.drop_first() =~= tail);
        assert(parse_chars(b, 1, gap, tail, today) == done);
        assert(parse_chars(b, 0, 0, cs, today) == parse_chars(b, 1, gap, tail, today));
    } else if gap < 100 {
        let tens = gap / 10;
        lemma_digit(tens);
        assert(decimal(tens) == seq![digit_char(tens)]);
        assert(decimal(gap) == seq![digit_char(tens), digit_char(ones)]);
        let cs = decimal(gap).push(sc) + rest;
        assert(cs =~= seq![digit_char(tens), digit_char(ones)] + tail);
        assert(cs.drop_first() =~= seq![digit_char(ones)] + tail);
        assert(cs.drop_first().drop_first() =~= tail);
        assert(tens * 10 + ones == gap);
        assert(parse_chars(b, 2, gap, tail, today) == done);
        assert(parse_chars(b, 1, tens, cs.drop_first(), today) == parse_chars(b, 2, gap, tail, today));
        assert(parse_chars(b, 0, 0, cs, today) == parse_chars(b, 1, tens, cs.drop_first(), today));
    } else {
        let hundreds = gap / 100;
        let tens = gap / 10 % 10;
        lemma_digit(tens);
        lemma_digit(hundreds);
        assert(gap / 10 / 10 == hundreds);
        assert(decimal(gap / 10 / 10) == seq![digit_char(hundreds)]);
        assert(decimal(gap / 10) == seq![digit_char(hundreds), digit_char(tens)]);
        assert(decimal(gap) == seq![digit_char(hundreds), digit_char(tens), digit_char(ones)]);
        let cs = decimal(gap).push(sc) + rest;
        assert(cs =~= seq![digit_char(hundreds), digit_char(tens), digit_char(ones)] + tail);
        assert(cs.drop_first() =~= seq![digit_char(tens), digit_char(ones)] + tail);
        assert(cs.drop_first().drop_first() =~= seq![digit_char(ones)] + tail);
        assert(cs.drop_first().drop_first().drop_first() =~= tail);
        assert((hundreds * 10 + tens) * 10 + ones == gap);
        assert(parse_chars(b, 3, gap, tail, today) == done);
        assert(parse_chars(b, 2, hundreds * 10 + tens, cs.drop_first().drop_first(), today)
            == parse_chars(b, 3, gap, tail, today));
        assert(parse_chars(b, 1, hundreds, cs.drop_first(), today) == parse_chars(
            b,
            2,
            hundreds * 10 + tens,
            cs.drop_first().drop_first(),
            today,
        ));
        assert(parse_chars(b, 0, 0, cs, today) == parse_chars(b, 1, hundreds, cs.drop_first(), today));
    }
}

/// Reading the text of the first `k` entries of a finished list, from a
/// builder holding the epoch, leaves the builder holding those entries.
proof fn lemma_parse_prefix(s: Seq<Entry>, k: int, rest: Seq<char>, today: int)
    requires
        finished(s),
        1 <= k <= s.len(),
    ensures
        parse_chars(seq![epoch()], 0, 0, list_text(s.take(k)) + rest, today) == parse_chars(
            s.take(k),
            0,
            0,
            rest,
            today,
        ),
    decreases k,
{
    lemma_wf_at(s, 0);
    if k == 1 {
        assert(s.take(1) =~= seq![epoch()]);
        assert(s.take(1).drop_last() =~= Seq::<Entry>::empty());
        assert(list_text(Seq::<Entry>::empty()) == Seq::<char>::empty());
        assert(entry_text(epoch()) == Seq::<char>::empty());
        assert(list_text(s.take(1)) =~= Seq::<char>::empty());
        assert(list_text(s.take(1)) + rest =~= rest);
    } else {
        let t = s.take(k - 1);
        let e = s[k - 1];
        lemma_wf_at(s, k - 1);
        assert(s.take(k).drop_last() =~= t);
        assert(list_text(s.take(k)) + rest =~= list_text(t) + (entry_text(e) + rest));
        lemma_parse_prefix(s, k - 1, entry_text(e) + rest, today);
        lemma_wf_at(s, k - 2);
        assert(e.sign != Leap::Zero);
        assert(entry_text(e) + rest =~= decimal(e.gap).push(sign_char(e.sign)) + rest);
        lemma_parse_token(t, e.gap, e.sign, rest, today);
        assert(t.last() == s[k - 2]);
        assert(push_gap_spec(t, e.gap, e.sign) == Ok::<Seq<Entry>, Error>(s.take(k))) by {
            assert(t.push(e) =~= s.take(k));
            if s[k - 2].sign == Leap::Zero {
                assert(k - 2 == 0);
            }
        }
    }
}

/// Reading the text notation of a finished list gives back the same list,
/// on any current date before its expiry.
pub proof fn text_round_trip(s: Seq<Entry>, today: int)
    requires
        finished(s),
        crate::entry_mjd(s.last()) > today,
    ensures
        parse_text(list_text(s), today) == Ok::<Seq<Entry>, Error>(s),
{
    let n = s.len() as int;
    lemma_wf_at(s, n - 1);
    assert(s.take(n) =~= s);
    assert(list_text(s) + Seq::<char>::empty() =~= list_text(s));
    lemma_parse_prefix(s, n, Seq::empty(), today);
    // the first token seeds the epoch, as the builder does on its first push
    let t = s.take(n - 1);
    let e = s[n - 1];
    assert(s.drop_last() =~= t);
    assert(list_text(s) =~= list_text(t) + entry_text(e));
    assert(list_text(s).len() > 0) by {
        assert(entry_text(e).len() > 0);
    }
    lemma_first_char_seeds(list_text(s), today);
}

/// A non-empty text is read the same from an empty builder as from one
/// that holds only the epoch.
proof fn lemma_first_char_seeds(cs: Seq<char>, today: int)
    requires
        cs.len() > 0,
    ensures
        parse_chars(Seq::empty(), 0, 0, cs, today) == parse_chars(seq![epoch()], 0, 0, cs, today),
{
    lemma_parse_seeded(0, 0, cs, today);
}

proof fn lemma_parse_seeded(digits: int, gap: int, cs: Seq<char>, today: int)
    requires
        cs.len() > 0,
    ensures
        parse_chars(Seq::empty(), digits, gap, cs, today) == parse_chars(
            seq![epoch()],
            digits,
            gap,
            cs,
            today,
        ),
    decreases cs.len(),
{
    let c = cs[0];
    assert(push_gap_spec(Seq::empty(), gap, char_sign(c)) == push_gap_spec(
        seq![epoch()],
        gap,
        char_sign(c),
    ));
    if cs.len() > 1 {
        lemma_parse_seeded(digits + 1, gap * 10 + digit_value(c), cs.drop_first(), today);
    } else {
        assert(finish_spec(Seq::empty(), today) == Err::<Seq<Entry>, Error>(Error::Empty));
    }
}

} // verus!
