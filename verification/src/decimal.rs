//! Unsigned decimal numbers: reading them from text and writing them out.

use vstd::prelude::*;
use vstd::string::*;

use crate::text;

verus! {

/// Why a text is not an unsigned decimal number.
#[derive(Clone, Copy, Debug, PartialEq, Eq, Structural)]
pub enum IntParseError {
    /// There is nothing to read.
    Empty,
    /// A character is not a decimal digit, or no digit follows the sign.
    InvalidDigit,
    /// The number exceeds the largest value of the target type.
    PosOverflow,
}

impl IntParseError {
    /// The text of the error, as a spec function.
    pub open spec fn spec_message(self) -> Seq<char> {
        match self {
            IntParseError::Empty => "cannot parse integer from empty string"@,
            IntParseError::InvalidDigit => "invalid digit found in string"@,
            IntParseError::PosOverflow => "number too large to fit in target type"@,
        }
    }

    /// The text of the error.
    pub fn message(&self) -> (r: &'static str)
        ensures
            r@ == self.spec_message(),
    {
        match self {
            IntParseError::Empty => "cannot parse integer from empty string",
            IntParseError::InvalidDigit => "invalid digit found in string",
            IntParseError::PosOverflow => "number too large to fit in target type",
        }
    }
}

/// Whether `c` is a decimal digit.
pub open spec fn is_digit(c: char) -> bool {
    '0' <= c <= '9'
}

/// The predicate that holds of decimal digits.
pub open spec fn digits() -> spec_fn(char) -> bool {
    |c: char| is_digit(c)
}

/// The number that a digit stands for.
pub open spec fn digit_value(c: char) -> int {
    c as int - '0' as int
}

/// The digit that stands for `n`.
pub open spec fn digit_char(n: int) -> char {
    ('0' as int + n) as char
}

/// The number that a sequence of digits denotes.
pub open spec fn value(s: Seq<char>) -> int
    decreases s.len(),
{
    if s.len() == 0 {
        0
    } else {
        value(s.drop_last()) * 10 + digit_value(s.last())
    }
}

/// The shortest sequence of digits that denotes `n`.
pub open spec fn rendered(n: nat) -> Seq<char>
    decreases n,
{
    if n < 10 {
        seq![digit_char(n as int)]
    } else {
        rendered(n / 10).push(digit_char((n % 10) as int))
    }
}

/// `s` without the plus sign it may start with.
pub open spec fn unsigned(s: Seq<char>) -> Seq<char> {
    if s.len() > 0 && s[0] == '+' {
        s.skip(1)
    } else {
        s
    }
}

/// What reading `s` as a number of at most `max` gives. Digits are read from the left, and the
/// first thing that goes wrong decides the error: a number that is too large already, or a
/// character that is no digit.
pub open spec fn parsed(s: Seq<char>, max: int) -> Result<int, IntParseError> {
    let body = unsigned(s);
    let run = body.take(text::span(body, digits()) as int);
    if s.len() == 0 {
        Err(IntParseError::Empty)
    } else if value(run) > max {
        Err(IntParseError::PosOverflow)
    } else if body.len() == 0 || run.len() < body.len() {
        Err(IntParseError::InvalidDigit)
    } else {
        Ok(value(body))
    }
}

/// Digits denote a number that is not negative, and more digits denote no smaller one.
pub proof fn lemma_value_grows(s: Seq<char>, n: int)
    requires
        0 <= n <= s.len(),
        forall|i: int| 0 <= i < s.len() ==> is_digit(#[trigger] s[i]),
    ensures
        0 <= value(s.take(n)) <= value(s),
    decreases s.len(),
{
    if n < s.len() {
        lemma_value_grows(s.drop_last(), n);
        assert(s.drop_last().take(n) =~= s.take(n));
        assert(is_digit(s.last()));
    } else {
        assert(s.take(n) =~= s);
        if n > 0 {
            lemma_value_grows(s.drop_last(), n - 1);
            assert(s.drop_last().take(n - 1) =~= s.drop_last());
            assert(is_digit(s.last()));
        }
    }
}

/// A rendered number is a run of digits, and denotes that number.
pub proof fn lemma_rendered(n: nat)
    ensures
        rendered(n).len() > 0,
        forall|i: int| 0 <= i < rendered(n).len() ==> is_digit(#[trigger] rendered(n)[i]),
        value(rendered(n)) == n,
    decreases n,
{
    let s = rendered(n);
    if n < 10 {
        assert(s.drop_last() =~= seq![]);
        assert(value(s.drop_last()) == 0);
    } else {
        lemma_rendered(n / 10);
        assert(s.drop_last() =~= rendered(n / 10));
    }
}

/// Reading back a rendered number gives that number.
pub proof fn law_render_then_parse(n: nat, max: int)
    requires
        n <= max,
    ensures
        parsed(rendered(n), max) == Ok::<int, IntParseError>(n as int),
{
    let s = rendered(n);
    lemma_rendered(n);
    assert(is_digit(s[0]));
    assert(forall|i: int| 0 <= i < s.len() ==> digits()(#[trigger] s[i]));
    text::lemma_span_is(s, digits(), s.len() as int);
    assert(s.take(s.len() as int) =~= s);
}

/// Reads `s` as a number of at most `max`.
pub fn parse_bounded(s: &str, max: u64) -> (r: Result<u64, IntParseError>)
    ensures
        match r {
            Ok(n) => parsed(s@, max as int) == Ok::<int, IntParseError>(n as int),
            Err(e) => parsed(s@, max as int) == Err::<int, IntParseError>(e),
        },
{
    let chars: Vec<char> = text::chars_of(s);
    if chars.len() == 0 {
        return Err(IntParseError::Empty);
    }
    let from: usize = if chars[0] == '+' { 1 } else { 0 };
    let ghost body = unsigned(s@);
    let ghost run = text::span(body, digits());
    proof {
        text::lemma_span_bound(body, digits());
    }
    if from == chars.len() {
        assert(body.take(run as int) =~= seq![]);
        return Err(IntParseError::InvalidDigit);
    }
    let mut i: usize = from;
    let mut n: u64 = 0;
    assert(body.take(0) =~= seq![]);
    while i < chars.len()
        invariant
            from <= i <= chars.len(),
            from < chars.len(),
            from <= 1,
            chars@ == s@,
            body == s@.skip(from as int),
            body == unsigned(s@),
            run == text::span(body, digits()),
            run <= body.len(),
            forall|j: int| 0 <= j < i - from ==> is_digit(#[trigger] body[j]),
            n == value(body.take(i - from)),
            n <= max,
        decreases chars.len() - i,
    {
        let c = chars[i];
        let ghost k = (i - from) as int;
        assert(c == body[k]);
        if !('0' <= c && c <= '9') {
            proof {
                assert(forall|j: int| 0 <= j < k ==> digits()(#[trigger] body[j]));
                text::lemma_span_is(body, digits(), k);
            }
            return Err(IntParseError::InvalidDigit);
        }
        let d: u32 = c as u32 - 48;
        let next: u128 = n as u128 * 10 + d as u128;
        proof {
            assert(body.take(k + 1).drop_last() =~= body.take(k));
            assert(next == value(body.take(k + 1)));
        }
        if next > max as u128 {
            proof {
                lemma_span_covers(body, k + 1);
                let digits_run = body.take(run as int);
                text::lemma_span_all(body, digits());
                assert(forall|j: int| 0 <= j < run ==> is_digit(#[trigger] digits_run[j]));
                lemma_value_grows(digits_run, k + 1);
                assert(digits_run.take(k + 1) =~= body.take(k + 1));
            }
            return Err(IntParseError::PosOverflow);
        }
        n = next as u64;
        i += 1;
    }
    proof {
        let len = body.len() as int;
        assert(forall|j: int| 0 <= j < len ==> digits()(#[trigger] body[j]));
        text::lemma_span_is(body, digits(), len);
        assert(body.take(len) =~= body);
    }
    Ok(n)
}

/// The leading run of digits is at least as long as any prefix made of digits.
proof fn lemma_span_covers(s: Seq<char>, n: int)
    requires
        0 <= n <= s.len(),
        forall|i: int| 0 <= i < n ==> is_digit(#[trigger] s[i]),
    ensures
        n <= text::span(s, digits()),
    decreases n,
{
    if n > 0 {
        assert(is_digit(s[0]));
        let rest = s.skip(1);
        assert forall|i: int| 0 <= i < n - 1 implies is_digit(#[trigger] rest[i]) by {
            assert(rest[i] == s[i + 1]);
        }
        lemma_span_covers(rest, n - 1);
    }
}

/// Reads `s` as a `u64`.
pub fn parse_u64(s: &str) -> (r: Result<u64, IntParseError>)
    ensures
        match r {
            Ok(n) => parsed(s@, u64::MAX as int) == Ok::<int, IntParseError>(n as int),
            Err(e) => parsed(s@, u64::MAX as int) == Err::<int, IntParseError>(e),
        },
{
    parse_bounded(s, u64::MAX)
}

/// Reads `s` as a `usize`.
pub fn parse_usize(s: &str) -> (r: Result<usize, IntParseError>)
    ensures
        match r {
            Ok(n) => parsed(s@, usize::MAX as int) == Ok::<int, IntParseError>(n as int),
            Err(e) => parsed(s@, usize::MAX as int) == Err::<int, IntParseError>(e),
        },
{
    match parse_bounded(s, usize::MAX as u64) {
        Ok(n) => {
            proof {
                let body = unsigned(s@);
                text::lemma_span_bound(body, digits());
                assert(body.take(body.len() as int) =~= body);
            }
            Ok(n as usize)
        },
        Err(e) => Err(e),
    }
}

/// The digit that stands for `d`, as text.
fn digit_text(d: u64) -> (r: &'static str)
    requires
        d < 10,
    ensures
        r@ == seq![digit_char(d as int)],
{
    proof {
        reveal_strlit("0");
        reveal_strlit("1");
        reveal_strlit("2");
        reveal_strlit("3");
        reveal_strlit("4");
        reveal_strlit("5");
        reveal_strlit("6");
        reveal_strlit("7");
        reveal_strlit("8");
        reveal_strlit("9");
    }
    if d == 0 {
        "0"
    } else if d == 1 {
        "1"
    } else if d == 2 {
        "2"
    } else if d == 3 {
        "3"
    } else if d == 4 {
        "4"
    } else if d == 5 {
        "5"
    } else if d == 6 {
        "6"
    } else if d == 7 {
        "7"
    } else if d == 8 {
        "8"
    } else {
        "9"
    }
}

/// Writes `n` in decimal.
pub fn render(n: u64) -> (r: String)
    ensures
        r@ == rendered(n as nat),
    decreases n,
{
    if n < 10 {
        digit_text(n).to_owned()
    } else {
        let mut r: String = render(n / 10);
        let ghost head = r@;
        r.append(digit_text(n % 10));
        assert(r@ =~= head.push(digit_char((n % 10) as int)));
        r
    }
}

/// A number that is read lies within the limit.
pub proof fn lemma_parsed_bound(s: Seq<char>, max: int)
    ensures
        parsed(s, max) matches Ok(n) ==> 0 <= n <= max,
{
    let body = unsigned(s);
    let run = body.take(text::span(body, digits()) as int);
    text::lemma_span_all(body, digits());
    if parsed(s, max) is Ok {
        assert(run =~= body);
        assert(forall|i: int| 0 <= i < body.len() ==> digits()(#[trigger] body[i]));
        lemma_value_grows(body, 0);
        assert(body.take(0) =~= seq![]);
    }
}

/// Digits weigh ten times as much with each digit that follows, and `0` to `9` stand for nought
/// to nine.
pub proof fn law_digits_are_decimal(s: Seq<char>, d: int)
    requires
        0 <= d < 10,
    ensures
        value(Seq::<char>::empty()) == 0,
        digit_value(digit_char(d)) == d,
        is_digit(digit_char(d)),
        digit_char(0) == '0' && digit_char(9) == '9',
        value(s.push(digit_char(d))) == 10 * value(s) + d,
{
    assert(s.push(digit_char(d)).drop_last() =~= s);
}

/// A run of digits is read as the number it denotes, with or without a plus sign, unless that
/// number is too large.
pub proof fn law_digits_are_read(s: Seq<char>, max: int)
    requires
        s.len() > 0,
        forall|i: int| 0 <= i < s.len() ==> '0' <= #[trigger] s[i] <= '9',
        max >= 0,
    ensures
        parsed(s, max) == if value(s) <= max {
            Ok::<int, IntParseError>(value(s))
        } else {
            Err::<int, IntParseError>(IntParseError::PosOverflow)
        },
        parsed(seq!['+'] + s, max) == parsed(s, max),
{
    let n = s.len() as int;
    assert(forall|i: int| 0 <= i < n ==> digits()(#[trigger] s[i]));
    text::lemma_span_is(s, digits(), n);
    assert(s.take(n) =~= s);
    assert('0' <= s[0] <= '9');
    assert((seq!['+'] + s).skip(1) =~= s);
}

/// What is not a run of digits, with or without a plus sign, is not read. Nothing at all is told
/// apart, and digits that are too many already are reported before what follows them.
pub proof fn law_other_text_is_not_read(run: Seq<char>, c: char, tail: Seq<char>, max: int)
    requires
        forall|i: int| 0 <= i < run.len() ==> '0' <= #[trigger] run[i] <= '9',
        !('0' <= c <= '9'),
        run.len() > 0 || c != '+',
        max >= 0,
    ensures
        parsed(Seq::<char>::empty(), max) == Err::<int, IntParseError>(IntParseError::Empty),
        parsed(seq!['+'], max) == Err::<int, IntParseError>(IntParseError::InvalidDigit),
        parsed(seq!['+', '+'] + tail, max) == Err::<int, IntParseError>(
            IntParseError::InvalidDigit,
        ),
        parsed(run + seq![c] + tail, max) == if value(run) > max {
            Err::<int, IntParseError>(IntParseError::PosOverflow)
        } else {
            Err::<int, IntParseError>(IntParseError::InvalidDigit)
        },
        parsed(seq!['+'] + run + seq![c] + tail, max) == if value(run) > max {
            Err::<int, IntParseError>(IntParseError::PosOverflow)
        } else {
            Err::<int, IntParseError>(IntParseError::InvalidDigit)
        },
{
    let s = run + seq![c] + tail;
    let n = run.len() as int;
    assert forall|i: int| 0 <= i < n implies digits()(#[trigger] s[i]) by {
        assert(s[i] == run[i]);
    }
    assert(s[n] == c);
    assert(n > 0 ==> s[0] == run[0]);
    text::lemma_span_is(s, digits(), n);
    assert(s.take(n) =~= run);
    let signed = seq!['+'] + run + seq![c] + tail;
    assert(signed.skip(1) =~= s);
    let plus = seq!['+'];
    assert(plus.skip(1) =~= seq![]);
    let none = Seq::<char>::empty();
    let rest = plus + tail;
    assert((seq!['+', '+'] + tail).skip(1) =~= rest);
    assert(rest[0] == '+');
    text::lemma_span_is(rest, digits(), 0);
    assert(rest.take(0) =~= none);
    assert(none.take(text::span(none, digits()) as int) =~= none);
}

/// A number is written with digits alone and without leading zeros, and the digits denote it.
pub proof fn law_rendered(n: nat)
    ensures
        rendered(n).len() > 0,
        forall|i: int| 0 <= i < rendered(n).len() ==> '0' <= #[trigger] rendered(n)[i] <= '9',
        rendered(n).len() > 1 ==> rendered(n)[0] != '0',
        value(rendered(n)) == n,
    decreases n,
{
    lemma_rendered(n);
    assert forall|i: int| 0 <= i < rendered(n).len() implies '0' <= #[trigger] rendered(n)[i]
        <= '9' by {
        assert(is_digit(rendered(n)[i]));
    }
    if n >= 10 {
        lemma_leading_digit(n);
    }
}

/// The first digit of a positive number is not zero.
proof fn lemma_leading_digit(n: nat)
    requires
        n > 0,
    ensures
        rendered(n).len() > 0,
        rendered(n)[0] != '0',
    decreases n,
{
    if n >= 10 {
        lemma_leading_digit(n / 10);
    }
}

/// What an unreadable number is said to suffer from.
pub proof fn law_parse_messages()
    ensures
        IntParseError::Empty.spec_message() == "cannot parse integer from empty string"@,
        IntParseError::InvalidDigit.spec_message() == "invalid digit found in string"@,
        IntParseError::PosOverflow.spec_message() == "number too large to fit in target type"@,
{
}

} // verus!
