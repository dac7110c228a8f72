//! Position lists: the text form `1,7,3-5` and the half-open, zero-based
//! ranges that it stands for.

use std::ops::Range;
use vstd::prelude::*;
use vstd::string::*;
use crate::text::{chars_of, decimal, decimal_string, digit_char};

verus! {

/// Why a position list was refused.
#[derive(Debug, PartialEq, Eq)]
pub enum ParseError {
    /// The text was empty.
    EmptySpecification,
    /// A token was neither `digits` nor `digits-digits`, or held a number
    /// that no `usize` can hold. Carries the token as it was written.
    InvalidToken(String),
    /// A number of a token was zero.
    ZeroValue,
    /// The first number of a pair was not below the second.
    RangeOrderViolation(usize, usize),
}

/// The mathematical value of a `ParseError`.
pub enum ParseFailure {
    EmptySpecification,
    InvalidToken(Seq<char>),
    ZeroValue,
    RangeOrderViolation(nat, nat),
}

impl View for ParseError {
    type V = ParseFailure;

    open spec fn view(&self) -> ParseFailure {
        match *self {
            ParseError::EmptySpecification => ParseFailure::EmptySpecification,
            ParseError::InvalidToken(token) => ParseFailure::InvalidToken(token@),
            ParseError::ZeroValue => ParseFailure::ZeroValue,
            ParseError::RangeOrderViolation(first, second) => ParseFailure::RangeOrderViolation(
                first as nat,
                second as nat,
            ),
        }
    }
}

/// The message that reports a failure: it repeats the token, or the two
/// numbers, that caused it.
pub open spec fn failure_message(failure: ParseFailure) -> Seq<char> {
    match failure {
        ParseFailure::EmptySpecification => Seq::empty(),
        ParseFailure::InvalidToken(token) => "illegal list value: \""@ + token + "\""@,
        ParseFailure::ZeroValue => "illegal list value: \""@ + "0"@ + "\""@,
        ParseFailure::RangeOrderViolation(first, second) => "First number in range ("@ + decimal(
            first,
        ) + ") must be lower than second number ("@ + decimal(second) + ")"@,
    }
}

impl ParseError {
    /// The message that reports this error.
    pub fn message(&self) -> (text: String)
        ensures
            text@ == failure_message(self@),
    {
        match self {
            ParseError::EmptySpecification => String::new(),
            ParseError::InvalidToken(token) => String::from_str("illegal list value: \"").concat(
                token.as_str(),
            ).concat("\""),
            ParseError::ZeroValue => String::from_str("illegal list value: \"").concat(
                "0",
            ).concat("\""),
            ParseError::RangeOrderViolation(first, second) => String::from_str(
                "First number in range (",
            ).concat(decimal_string(*first).as_str()).concat(
                ") must be lower than second number (",
            ).concat(decimal_string(*second).as_str()).concat(")"),
        }
    }
}

/// `c` is one of `0` to `9`.
pub open spec fn is_digit(c: char) -> bool {
    '0' <= c && c <= '9'
}

/// The value of the digit `c`.
pub open spec fn digit_value(c: char) -> nat
    recommends
        is_digit(c),
{
    (c as u32 - '0' as u32) as nat
}

/// `s` is one digit or more, and nothing else.
pub open spec fn is_number(s: Seq<char>) -> bool {
    s.len() > 0 && forall|i: int| 0 <= i < s.len() ==> is_digit(#[trigger] s[i])
}

/// The value of the decimal numeral `s`; leading zeros do not count.
pub open spec fn number_value(s: Seq<char>) -> nat
    decreases s.len(),
{
    if s.len() == 0 {
        0
    } else {
        10 * number_value(s.drop_last()) + digit_value(s.last())
    }
}

/// The index of the first `c` in `s`, or the length of `s` if it holds none.
pub open spec fn position_of(s: Seq<char>, c: char) -> int
    decreases s.len(),
{
    if s.len() == 0 || s[0] == c {
        0
    } else {
        1 + position_of(s.drop_first(), c)
    }
}

/// The pieces of `s` between its commas. A text without a comma is one piece.
pub open spec fn split_tokens(s: Seq<char>) -> Seq<Seq<char>>
    decreases s.len(),
{
    let p = position_of(s, ',');
    if 0 <= p < s.len() {
        seq![s.subrange(0, p)] + split_tokens(s.subrange(p + 1, s.len() as int))
    } else {
        seq![s]
    }
}

/// What two numbers of a token give, `first` written before `second`.
pub open spec fn pair_outcome(token: Seq<char>, first: nat, second: nat) -> Result<
    (nat, nat),
    ParseFailure,
> {
    if first == 0 || second == 0 {
        Err(ParseFailure::ZeroValue)
    } else if first > usize::MAX || second > usize::MAX {
        Err(ParseFailure::InvalidToken(token))
    } else if first >= second {
        Err(ParseFailure::RangeOrderViolation(first, second))
    } else {
        Ok(((first - 1) as nat, second))
    }
}

/// What one token gives: the range `(start, end)` that it stands for, or
/// the reason why it stands for none.
pub open spec fn token_outcome(token: Seq<char>) -> Result<(nat, nat), ParseFailure> {
    let h = position_of(token, '-');
    if 0 <= h < token.len() {
        let first = token.subrange(0, h);
        let second = token.subrange(h + 1, token.len() as int);
        if is_number(first) && is_number(second) {
            pair_outcome(token, number_value(first), number_value(second))
        } else {
            Err(ParseFailure::InvalidToken(token))
        }
    } else if is_number(token) {
        let n = number_value(token);
        if n == 0 {
            Err(ParseFailure::ZeroValue)
        } else if n > usize::MAX {
            Err(ParseFailure::InvalidToken(token))
        } else {
            Ok(((n - 1) as nat, n))
        }
    } else {
        Err(ParseFailure::InvalidToken(token))
    }
}

/// The ranges of `tokens`, one for each and in their order, or the failure
/// of the first token that has one.
pub open spec fn tokens_outcome(tokens: Seq<Seq<char>>) -> Result<Seq<(nat, nat)>, ParseFailure>
    decreases tokens.len(),
{
    if tokens.len() == 0 {
        Ok(Seq::empty())
    } else {
        match tokens_outcome(tokens.drop_last()) {
            Err(e) => Err(e),
            Ok(ranges) => match token_outcome(tokens.last()) {
                Err(e) => Err(e),
                Ok(r) => Ok(ranges.push(r)),
            },
        }
    }
}

/// What the position list `list` gives.
pub open spec fn parse_outcome(list: Seq<char>) -> Result<Seq<(nat, nat)>, ParseFailure> {
    if list.len() == 0 {
        Err(ParseFailure::EmptySpecification)
    } else {
        tokens_outcome(split_tokens(list))
    }
}

/// The ranges of a position list as pairs `(start, end)`.
pub open spec fn ranges_view(ranges: Seq<Range<usize>>) -> Seq<(nat, nat)> {
    Seq::new(ranges.len(), |i: int| (ranges[i].start as nat, ranges[i].end as nat))
}

/// The mathematical value of what `parse_pos` returns.
pub open spec fn result_view(res: Result<Vec<Range<usize>>, ParseError>) -> Result<
    Seq<(nat, nat)>,
    ParseFailure,
> {
    match res {
        Ok(ranges) => Ok(ranges_view(ranges@)),
        Err(e) => Err(e@),
    }
}

/// `position_of` is the one index before which `s` has no `c` and at
/// which it has one or ends.
pub proof fn lemma_position_of(s: Seq<char>, c: char, p: int)
    requires
        0 <= p <= s.len(),
        forall|j: int| 0 <= j < p ==> s[j] != c,
        p < s.len() ==> s[p] == c,
    ensures
        position_of(s, c) == p,
    decreases s.len(),
{
    if s.len() == 0 || s[0] == c {
    } else {
        let t = s.drop_first();
        assert forall|j: int| 0 <= j < p - 1 implies t[j] != c by {
            assert(t[j] == s[j + 1]);
        }
        lemma_position_of(t, c, p - 1);
    }
}

/// A number read from text: its value, or the fact that no `usize` holds it.
enum Numeral {
    Fits(usize),
    TooLarge,
}

/// Reads `chars[from..to]` as a decimal numeral.
fn parse_number(chars: &Vec<char>, from: usize, to: usize) -> (res: Option<Numeral>)
    requires
        from <= to <= chars.len(),
    ensures
        res is Some <==> is_number(chars@.subrange(from as int, to as int)),
        match res {
            Some(Numeral::Fits(n)) => number_value(chars@.subrange(from as int, to as int)) == n,
            Some(Numeral::TooLarge) => number_value(chars@.subrange(from as int, to as int))
                > usize::MAX,
            None => true,
        },
{
    let ghost whole = chars@.subrange(from as int, to as int);
    if from == to {
        return None;
    }
    let mut acc: usize = 0;
    let mut too_large = false;
    let mut i: usize = from;
    while i < to
        invariant
            from <= i <= to <= chars.len(),
            whole == chars@.subrange(from as int, to as int),
            forall|j: int| 0 <= j < i - from ==> is_digit(#[trigger] whole[j]),
            !too_large ==> number_value(chars@.subrange(from as int, i as int)) == acc,
            too_large ==> number_value(chars@.subrange(from as int, i as int)) > usize::MAX,
        decreases to - i,
    {
        let c = chars[i];
        assert(whole[i - from] == c);
        if !('0' <= c && c <= '9') {
            return None;
        }
        let d: usize = (c as u32 - '0' as u32) as usize;
        proof {
            let upto = chars@.subrange(from as int, i + 1);
            assert(upto.drop_last() =~= chars@.subrange(from as int, i as int));
            assert(upto.last() == c);
        }
        if too_large || acc > (usize::MAX - d) / 10 {
            too_large = true;
        } else {
            acc = 10 * acc + d;
        }
        i += 1;
    }
    assert(chars@.subrange(from as int, i as int) == whole);
    if too_large {
        Some(Numeral::TooLarge)
    } else {
        Some(Numeral::Fits(acc))
    }
}

/// The first index in `from..to` at which `chars` holds `c`, or `to`.
fn find_char(chars: &Vec<char>, from: usize, to: usize, c: char) -> (p: usize)
    requires
        from <= to <= chars.len(),
    ensures
        from <= p <= to,
        p - from == position_of(chars@.subrange(from as int, to as int), c),
{
    let mut p: usize = from;
    while p < to && chars[p] != c
        invariant
            from <= p <= to <= chars.len(),
            forall|j: int| from <= j < p ==> chars@[j] != c,
        decreases to - p,
    {
        p += 1;
    }
    proof {
        lemma_position_of(chars@.subrange(from as int, to as int), c, p - from);
    }
    p
}

/// Once a token has failed, the tokens after it change nothing.
pub proof fn lemma_failure_stays(done: Seq<Seq<char>>, more: Seq<Seq<char>>)
    requires
        tokens_outcome(done) is Err,
    ensures
        tokens_outcome(done + more) == tokens_outcome(done),
    decreases more.len(),
{
    if more.len() == 0 {
        assert(done + more =~= done);
    } else {
        assert((done + more).drop_last() =~= done + more.drop_last());
        lemma_failure_stays(done, more.drop_last());
    }
}

/// Reads the token `chars[from..to]` of `list`.
fn parse_token(list: &str, chars: &Vec<char>, from: usize, to: usize) -> (res: Result<
    Range<usize>,
    ParseError,
>)
    requires
        chars@ == list@,
        from <= to <= chars.len(),
    ensures
        match res {
            Ok(r) => token_outcome(chars@.subrange(from as int, to as int)) == Ok::<
                (nat, nat),
                ParseFailure,
            >((r.start as nat, r.end as nat)),
            Err(e) => token_outcome(chars@.subrange(from as int, to as int)) == Err::<
                (nat, nat),
                ParseFailure,
            >(e@),
        },
{
    let ghost token = chars@.subrange(from as int, to as int);
    let hyphen = find_char(chars, from, to, '-');
    if hyphen < to {
        assert(token.subrange(0, hyphen - from) =~= chars@.subrange(from as int, hyphen as int));
        assert(token.subrange(hyphen - from + 1, token.len() as int) =~= chars@.subrange(
            hyphen + 1,
            to as int,
        ));
        let first = parse_number(chars, from, hyphen);
        let second = parse_number(chars, hyphen + 1, to);
        match (first, second) {
            (Some(Numeral::Fits(f)), Some(Numeral::Fits(s))) => {
                if f == 0 || s == 0 {
                    Err(ParseError::ZeroValue)
                } else if f >= s {
                    Err(ParseError::RangeOrderViolation(f, s))
                } else {
                    Ok(Range { start: f - 1, end: s })
                }
            },
            (Some(Numeral::Fits(f)), Some(Numeral::TooLarge)) => {
                if f == 0 {
                    Err(ParseError::ZeroValue)
                } else {
                    Err(ParseError::InvalidToken(list.substring_char(from, to).to_owned()))
                }
            },
            (Some(Numeral::TooLarge), Some(Numeral::Fits(s))) => {
                if s == 0 {
                    Err(ParseError::ZeroValue)
                } else {
                    Err(ParseError::InvalidToken(list.substring_char(from, to).to_owned()))
                }
            },
            _ => Err(ParseError::InvalidToken(list.substring_char(from, to).to_owned())),
        }
    } else {
        match parse_number(chars, from, to) {
            Some(Numeral::Fits(n)) => {
                if n == 0 {
                    Err(ParseError::ZeroValue)
                } else {
                    Ok(Range { start: n - 1, end: n })
                }
            },
            _ => Err(ParseError::InvalidToken(list.substring_char(from, to).to_owned())),
        }
    }
}

/// Parses a position list: tokens between commas, each a number from 1 on
/// or a pair `first-second` with `first` below `second`. The token `n`
/// gives the range from `n - 1` to `n`, the pair the range from
/// `first - 1` to `second`; the ranges come in the order of the tokens.
/// The first token that gives no range decides the failure.
pub fn parse_pos(range: String) -> (res: Result<Vec<Range<usize>>, ParseError>)
    ensures
        result_view(res) == parse_outcome(range@),
        res matches Ok(ranges) ==> forall|i: int|
            0 <= i < ranges.len() ==> (#[trigger] ranges[i]).start < ranges[i].end,
{
    let list = range.as_str();
    let chars = chars_of(list);
    let len = chars.len();
    if len == 0 {
        return Err(ParseError::EmptySpecification);
    }
    let mut ranges: Vec<Range<usize>> = Vec::new();
    let mut start: usize = 0;
    let ghost mut done: Seq<Seq<char>> = Seq::empty();
    proof {
        assert(chars@.subrange(0, len as int) =~= chars@);
        assert(done + split_tokens(chars@) =~= split_tokens(chars@));
        assert(ranges_view(ranges@) =~= Seq::empty());
    }
    loop
        invariant
            chars@ == list@,
            list@ == range@,
            len == chars.len(),
            len > 0,
            start <= len,
            split_tokens(chars@) == done + split_tokens(chars@.subrange(start as int, len as int)),
            tokens_outcome(done) == Ok::<Seq<(nat, nat)>, ParseFailure>(ranges_view(ranges@)),
        decreases len - start,
    {
        let end = find_char(&chars, start, len, ',');
        let ghost rest = chars@.subrange(start as int, len as int);
        let ghost token = chars@.subrange(start as int, end as int);
        let ghost after = if end < len {
            split_tokens(chars@.subrange(end + 1, len as int))
        } else {
            Seq::empty()
        };
        proof {
            if end < len {
                assert(rest.subrange(0, end - start) =~= token);
                assert(rest.subrange(end - start + 1, rest.len() as int) =~= chars@.subrange(
                    end + 1,
                    len as int,
                ));
            } else {
                assert(rest =~= token);
            }
            assert(split_tokens(rest) =~= seq![token] + after);
            assert(split_tokens(chars@) =~= done.push(token) + after);
            assert(done.push(token).drop_last() =~= done);
        }
        match parse_token(list, &chars, start, end) {
            Err(e) => {
                proof {
                    lemma_failure_stays(done.push(token), after);
                }
                return Err(e);
            },
            Ok(r) => {
                proof {
                    assert(ranges_view(ranges@.push(r)) =~= ranges_view(ranges@).push(
                        (r.start as nat, r.end as nat),
                    ));
                    done = done.push(token);
                }
                ranges.push(r);
            },
        }
        if end == len {
            proof {
                assert(done + after =~= done);
                lemma_accepted_list(range@);
                assert forall|i: int| 0 <= i < ranges.len() implies (#[trigger] ranges[i]).start
                    < ranges[i].end by {
                    assert(ranges_view(ranges@)[i] == parse_outcome(range@)->Ok_0[i]);
                }
            }
            return Ok(ranges);
        }
        start = end + 1;
    }
}

/// The decimal numeral of `n` is a number, and its value is `n`.
pub proof fn lemma_decimal_read_back(n: nat)
    ensures
        is_number(decimal(n)),
        number_value(decimal(n)) == n,
    decreases n,
{
    let last = digit_char(n % 10);
    assert(is_digit(last) && digit_value(last) == n % 10);
    if n < 10 {
        assert(decimal(n).drop_last() =~= Seq::<char>::empty());
        assert(number_value(decimal(n).drop_last()) == 0);
    } else {
        lemma_decimal_read_back(n / 10);
        assert(decimal(n).drop_last() =~= decimal(n / 10));
        assert(decimal(n).last() == last);
    }
}

/// A number from 1 on that `usize` holds, written in decimal, is a token
/// that is accepted: it gives the range from `n - 1` to `n`.
pub proof fn lemma_decimal_token_accepted(n: nat)
    requires
        1 <= n <= usize::MAX,
    ensures
        token_outcome(decimal(n)) == Ok::<(nat, nat), ParseFailure>(((n - 1) as nat, n)),
{
    lemma_decimal_read_back(n);
    lemma_token_accepted(decimal(n), ((n - 1) as nat, n));
}

/// `token` is a numeral of the value `n`, which is 1 or more.
pub open spec fn is_single(token: Seq<char>, n: nat) -> bool {
    is_number(token) && number_value(token) == n && 1 <= n <= usize::MAX
}

/// `token` is two numerals with a hyphen at index `h` between them, of the
/// values `first` and `second`, and `first` is 1 or more and below `second`.
pub open spec fn is_pair(token: Seq<char>, h: int, first: nat, second: nat) -> bool {
    &&& 0 <= h < token.len()
    &&& token[h] == '-'
    &&& is_number(token.subrange(0, h))
    &&& is_number(token.subrange(h + 1, token.len() as int))
    &&& number_value(token.subrange(0, h)) == first
    &&& number_value(token.subrange(h + 1, token.len() as int)) == second
    &&& 1 <= first < second <= usize::MAX
}

/// `token` is well formed and `r` is the range that it asks for: from
/// `n - 1` to `n` for the number `n`, from `first - 1` to `second` for a
/// pair.
pub open spec fn stands_for(token: Seq<char>, r: (nat, nat)) -> bool {
    ||| r.0 + 1 == r.1 && is_single(token, r.1)
    ||| exists|h: int| #[trigger] is_pair(token, h, r.0 + 1, r.1)
}

/// A well-formed token is accepted, with the range that it asks for.
pub proof fn lemma_token_accepted(token: Seq<char>, r: (nat, nat))
    requires
        stands_for(token, r),
    ensures
        token_outcome(token) == Ok::<(nat, nat), ParseFailure>(r),
{
    if r.0 + 1 == r.1 && is_single(token, r.1) {
        lemma_position_of(token, '-', token.len() as int);
    } else {
        let h = choose|h: int| #[trigger] is_pair(token, h, r.0 + 1, r.1);
        let first = token.subrange(0, h);
        assert forall|j: int| 0 <= j < h implies token[j] != '-' by {
            assert(is_digit(first[j]));
        }
        lemma_position_of(token, '-', h);
    }
}

/// Well-formed tokens are accepted together, each with its range and in
/// their order.
pub proof fn lemma_tokens_accepted(tokens: Seq<Seq<char>>, ranges: Seq<(nat, nat)>)
    requires
        tokens.len() == ranges.len(),
        forall|i: int| 0 <= i < tokens.len() ==> stands_for(#[trigger] tokens[i], ranges[i]),
    ensures
        tokens_outcome(tokens) == Ok::<Seq<(nat, nat)>, ParseFailure>(ranges),
    decreases tokens.len(),
{
    if tokens.len() == 0 {
        assert(ranges =~= Seq::empty());
    } else {
        let head = tokens.drop_last();
        assert forall|i: int| 0 <= i < head.len() implies stands_for(
            #[trigger] head[i],
            ranges.drop_last()[i],
        ) by {
            assert(stands_for(tokens[i], ranges[i]));
        }
        lemma_tokens_accepted(head, ranges.drop_last());
        assert(stands_for(tokens[tokens.len() - 1], ranges[tokens.len() - 1]));
        lemma_token_accepted(tokens.last(), ranges.last());
        assert(ranges.drop_last().push(ranges.last()) =~= ranges);
    }
}

/// A list that is not empty and whose tokens are all numbers from 1 on or
/// rising pairs, none above `usize::MAX`, is accepted: it gives one range
/// for each token, the range that the token asks for, in the order of the
/// tokens.
pub proof fn lemma_valid_list_accepted(list: Seq<char>, ranges: Seq<(nat, nat)>)
    requires
        list.len() > 0,
        split_tokens(list).len() == ranges.len(),
        forall|i: int|
            0 <= i < ranges.len() ==> stands_for(#[trigger] split_tokens(list)[i], ranges[i]),
    ensures
        parse_outcome(list) == Ok::<Seq<(nat, nat)>, ParseFailure>(ranges),
{
    lemma_tokens_accepted(split_tokens(list), ranges);
}

/// The ranges of accepted tokens: one for each token, with its start below
/// its end and its end within `usize`.
pub proof fn lemma_tokens_ranges(tokens: Seq<Seq<char>>)
    requires
        tokens_outcome(tokens) is Ok,
    ensures
        tokens_outcome(tokens)->Ok_0.len() == tokens.len(),
        forall|i: int|
            0 <= i < tokens.len() ==> {
                let r = #[trigger] tokens_outcome(tokens)->Ok_0[i];
                token_outcome(tokens[i]) == Ok::<(nat, nat), ParseFailure>(r) && r.0 < r.1
                    <= usize::MAX
            },
    decreases tokens.len(),
{
    if tokens.len() > 0 {
        lemma_tokens_ranges(tokens.drop_last());
    }
}

/// Tokens that are accepted one by one are accepted together.
pub proof fn lemma_tokens_all_accepted(tokens: Seq<Seq<char>>)
    requires
        forall|j: int| 0 <= j < tokens.len() ==> token_outcome(#[trigger] tokens[j]) is Ok,
    ensures
        tokens_outcome(tokens) is Ok,
    decreases tokens.len(),
{
    if tokens.len() > 0 {
        let head = tokens.drop_last();
        assert forall|j: int| 0 <= j < head.len() implies token_outcome(#[trigger] head[j]) is Ok by {
            assert(head[j] == tokens[j]);
        }
        lemma_tokens_all_accepted(head);
        assert(token_outcome(tokens[tokens.len() - 1]) is Ok);
    }
}

/// A list is refused with the failure of its first token that gives no
/// range, whatever comes after that token.
pub proof fn lemma_first_failure_decides(list: Seq<char>, i: int)
    requires
        list.len() > 0,
        0 <= i < split_tokens(list).len(),
        forall|j: int| 0 <= j < i ==> token_outcome(#[trigger] split_tokens(list)[j]) is Ok,
        token_outcome(split_tokens(list)[i]) is Err,
    ensures
        parse_outcome(list) == Err::<Seq<(nat, nat)>, ParseFailure>(
            token_outcome(split_tokens(list)[i])->Err_0,
        ),
{
    let tokens = split_tokens(list);
    let before = tokens.take(i);
    let upto = tokens.take(i + 1);
    assert forall|j: int| 0 <= j < before.len() implies token_outcome(#[trigger] before[j]) is Ok by {
        assert(before[j] == tokens[j]);
    }
    lemma_tokens_all_accepted(before);
    assert(upto.drop_last() =~= before);
    assert(upto.last() == tokens[i]);
    lemma_failure_stays(upto, tokens.skip(i + 1));
    assert(upto + tokens.skip(i + 1) =~= tokens);
}

/// In an accepted list every range is the one of its token, in the order
/// of the tokens, and none is empty.
pub proof fn lemma_accepted_list(list: Seq<char>)
    requires
        parse_outcome(list) is Ok,
    ensures
        parse_outcome(list)->Ok_0.len() == split_tokens(list).len(),
        forall|i: int|
            0 <= i < split_tokens(list).len() ==> {
                let r = #[trigger] parse_outcome(list)->Ok_0[i];
                token_outcome(split_tokens(list)[i]) == Ok::<(nat, nat), ParseFailure>(r) && r.0
                    < r.1 <= usize::MAX
            },
{
    lemma_tokens_ranges(split_tokens(list));
}

/// Parsing one text twice gives the same: both results are lists, and
/// then equal range for range, or both are errors, and then the same error.
pub proof fn lemma_parse_repeatable(
    list: Seq<char>,
    first: Result<Vec<Range<usize>>, ParseError>,
    second: Result<Vec<Range<usize>>, ParseError>,
)
    requires
        result_view(first) == parse_outcome(list),
        result_view(second) == parse_outcome(list),
    ensures
        first is Ok <==> second is Ok,
        first is Ok ==> first->Ok_0@ == second->Ok_0@,
        first is Err ==> first->Err_0@ == second->Err_0@,
{
    if first is Ok {
        let a = first->Ok_0@;
        let b = second->Ok_0@;
        assert(ranges_view(a) == ranges_view(b));
        assert(a.len() == b.len());
        assert forall|i: int| 0 <= i < a.len() implies a[i] == b[i] by {
            assert(ranges_view(a)[i] == ranges_view(b)[i]);
        }
        assert(a =~= b);
    }
}

} // verus!
