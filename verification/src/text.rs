//! Text handling shared by the game: decimal rendering of numbers, the
//! whitespace trimming that input lines go through, and the reading of an
//! unsigned decimal number.
use vstd::prelude::*;
use vstd::string::{StrSliceExecFns, StringExecFns};

verus! {

/// The character of a decimal digit.
pub open spec fn digit_char(d: nat) -> char {
    if d == 0 {
        '0'
    } else if d == 1 {
        '1'
    } else if d == 2 {
        '2'
    } else if d == 3 {
        '3'
    } else if d == 4 {
        '4'
    } else if d == 5 {
        '5'
    } else if d == 6 {
        '6'
    } else if d == 7 {
        '7'
    } else if d == 8 {
        '8'
    } else {
        '9'
    }
}

/// The decimal representation of `n`, without sign or leading zeros.
pub open spec fn decimal(n: nat) -> Seq<char>
    decreases n,
{
    if n < 10 {
        seq![digit_char(n)]
    } else {
        decimal(n / 10).push(digit_char(n % 10))
    }
}

/// `char::is_whitespace`: the characters with the Unicode `White_Space` property.
pub open spec fn is_whitespace(c: char) -> bool {
    let u = c as u32;
    ||| 9 <= u <= 13
    ||| u == 32
    ||| u == 0x85
    ||| u == 0xA0
    ||| u == 0x1680
    ||| 0x2000 <= u <= 0x200A
    ||| u == 0x2028
    ||| u == 0x2029
    ||| u == 0x202F
    ||| u == 0x205F
    ||| u == 0x3000
}

/// `s` without its leading whitespace.
pub open spec fn trim_start(s: Seq<char>) -> Seq<char>
    decreases s.len(),
{
    if s.len() > 0 && is_whitespace(s[0]) {
        trim_start(s.drop_first())
    } else {
        s
    }
}

/// `s` without its trailing whitespace.
pub open spec fn trim_end(s: Seq<char>) -> Seq<char>
    decreases s.len(),
{
    if s.len() > 0 && is_whitespace(s.last()) {
        trim_end(s.drop_last())
    } else {
        s
    }
}

/// `s` without leading and trailing whitespace, as `str::trim` gives it.
pub open spec fn trim(s: Seq<char>) -> Seq<char> {
    trim_end(trim_start(s))
}

pub open spec fn is_ascii_digit(c: char) -> bool {
    48 <= (c as u32) <= 57
}

pub open spec fn digit_value(c: char) -> int {
    (c as u32) - 48
}

/// The number that a string of decimal digits denotes.
pub open spec fn digits_value(d: Seq<char>) -> int
    decreases d.len(),
{
    if d.len() == 0 {
        0
    } else {
        digits_value(d.drop_last()) * 10 + digit_value(d.last())
    }
}

pub open spec fn all_digits(d: Seq<char>) -> bool {
    forall|i: int| 0 <= i < d.len() ==> is_ascii_digit(#[trigger] d[i])
}

/// The digits of an unsigned number: one leading `+` is allowed.
pub open spec fn unsigned_digits(t: Seq<char>) -> Seq<char> {
    if t.len() > 0 && t[0] == '+' {
        t.drop_first()
    } else {
        t
    }
}

/// What `str::parse::<u32>` accepts: an optional `+`, then at least one ASCII
/// digit, nothing else, and a value that fits in a `u32`.
pub open spec fn parse_u32(t: Seq<char>) -> Option<u32> {
    let d = unsigned_digits(t);
    if d.len() > 0 && all_digits(d) && digits_value(d) <= u32::MAX {
        Some(digits_value(d) as u32)
    } else {
        None
    }
}

/// The number written on a line, surrounded by whitespace or not.
pub open spec fn parse_guess_spec(line: Seq<char>) -> Option<u32> {
    parse_u32(trim(line))
}

fn digit(d: u32) -> (c: char)
    requires
        d < 10,
    ensures
        c == digit_char(d as nat),
{
    if d == 0 {
        '0'
    } else if d == 1 {
        '1'
    } else if d == 2 {
        '2'
    } else if d == 3 {
        '3'
    } else if d == 4 {
        '4'
    } else if d == 5 {
        '5'
    } else if d == 6 {
        '6'
    } else if d == 7 {
        '7'
    } else if d == 8 {
        '8'
    } else {
        '9'
    }
}

/// `String::push`: appends one character.
#[verifier::external_body]
fn push_char(text: &mut String, c: char)
    ensures
        final(text)@ == old(text)@.push(c),
{
    text.push(c);
}

/// Appends the decimal representation of `n` to `text`.
pub fn push_decimal(text: &mut String, n: u32)
    ensures
        final(text)@ == old(text)@ + decimal(n as nat),
    decreases n,
{
    let ghost before = text@;
    if n >= 10 {
        push_decimal(text, n / 10);
    }
    let d = digit(n % 10);
    let ghost mid = text@;
    push_char(text, d);
    proof {
        if n >= 10 {
            assert(mid == before + decimal((n / 10) as nat));
            assert(text@ =~= before + decimal((n / 10) as nat).push(digit_char((n % 10) as nat)));
        } else {
            assert(text@ =~= before + decimal(n as nat));
        }
    }
}

/// The decimal representation of `n`, as `n.to_string()` gives it.
pub fn decimal_string(n: u32) -> (s: String)
    ensures
        s@ == decimal(n as nat),
{
    let mut s = String::new();
    push_decimal(&mut s, n);
    assert(s@ =~= decimal(n as nat));
    s
}

fn whitespace(c: char) -> (b: bool)
    ensures
        b == is_whitespace(c),
{
    let u = c as u32;
    (9 <= u && u <= 13) || u == 32 || u == 0x85 || u == 0xA0 || u == 0x1680 || (0x2000 <= u && u
        <= 0x200A) || u == 0x2028 || u == 0x2029 || u == 0x202F || u == 0x205F || u == 0x3000
}

proof fn lemma_trim_start_step(s: Seq<char>, i: int)
    requires
        0 <= i < s.len(),
        is_whitespace(s[i]),
    ensures
        trim_start(s.subrange(i, s.len() as int)) == trim_start(s.subrange(i + 1, s.len() as int)),
{
    assert(s.subrange(i, s.len() as int).drop_first() =~= s.subrange(i + 1, s.len() as int));
}

proof fn lemma_trim_end_step(s: Seq<char>, lo: int, hi: int)
    requires
        0 <= lo < hi <= s.len(),
        is_whitespace(s[hi - 1]),
    ensures
        trim_end(s.subrange(lo, hi)) == trim_end(s.subrange(lo, hi - 1)),
{
    assert(s.subrange(lo, hi).drop_last() =~= s.subrange(lo, hi - 1));
}

/// The bounds of `s` after trimming: `trim(s@)` is the characters from
/// `start` up to `end`.
pub fn trim_bounds(s: &str) -> (bounds: (usize, usize))
    ensures
        bounds.0 <= bounds.1 <= s@.len(),
        trim(s@) == s@.subrange(bounds.0 as int, bounds.1 as int),
{
    let n = s.unicode_len();
    let ghost full = s@;
    let mut start: usize = 0;
    assert(full.subrange(0, n as int) =~= full);
    loop
        invariant
            start <= n,
            n == full.len(),
            full == s@,
            trim_start(full) == trim_start(full.subrange(start as int, n as int)),
        ensures
            start <= n,
            start == n || !is_whitespace(full[start as int]),
            trim_start(full) == trim_start(full.subrange(start as int, n as int)),
        decreases n - start,
    {
        if start == n {
            break;
        }
        let c = s.get_char(start);
        if !whitespace(c) {
            break;
        }
        proof {
            lemma_trim_start_step(full, start as int);
        }
        start = start + 1;
    }
    if start < n {
        assert(full.subrange(start as int, n as int)[0] == full[start as int]);
    }
    assert(trim_start(full) =~= full.subrange(start as int, n as int));
    let mut end: usize = n;
    loop
        invariant
            start <= end <= n,
            n == full.len(),
            full == s@,
            trim_start(full) == full.subrange(start as int, n as int),
            trim_end(full.subrange(start as int, n as int)) == trim_end(
                full.subrange(start as int, end as int),
            ),
        ensures
            start <= end <= n,
            end == start || !is_whitespace(full[end - 1]),
            trim_end(full.subrange(start as int, n as int)) == trim_end(
                full.subrange(start as int, end as int),
            ),
        decreases end,
    {
        if end == start {
            break;
        }
        let c = s.get_char(end - 1);
        if !whitespace(c) {
            break;
        }
        proof {
            lemma_trim_end_step(full, start as int, end as int);
        }
        end = end - 1;
    }
    if start < end {
        assert(full.subrange(start as int, end as int).last() == full[end - 1]);
    }
    assert(trim_end(full.subrange(start as int, end as int)) =~= full.subrange(
        start as int,
        end as int,
    ));
    (start, end)
}

proof fn lemma_digits_value_step(s: Seq<char>, lo: int, hi: int)
    requires
        0 <= lo < hi <= s.len(),
    ensures
        digits_value(s.subrange(lo, hi)) == digits_value(s.subrange(lo, hi - 1)) * 10 + digit_value(
            s[hi - 1],
        ),
{
    assert(s.subrange(lo, hi).drop_last() =~= s.subrange(lo, hi - 1));
}

/// Reads the unsigned decimal number that the characters of `s` from `lo`
/// up to `hi` spell, as `str::parse::<u32>` does.
fn parse_u32_range(s: &str, lo: usize, hi: usize) -> (r: Option<u32>)
    requires
        lo <= hi <= s@.len(),
    ensures
        r == parse_u32(s@.subrange(lo as int, hi as int)),
{
    let ghost full = s@;
    let ghost t = full.subrange(lo as int, hi as int);
    let mut first = lo;
    if lo < hi && s.get_char(lo) == '+' {
        first = lo + 1;
    }
    let ghost d = unsigned_digits(t);
    assert(d =~= full.subrange(first as int, hi as int));
    if first == hi {
        return None;
    }
    let ghost limit: int = u32::MAX as int + 1;
    let mut value: u64 = 0;
    let mut i = first;
    assert(full.subrange(first as int, first as int) =~= Seq::<char>::empty());
    while i < hi
        invariant
            first <= i <= hi,
            hi <= full.len(),
            full == s@,
            d == full.subrange(first as int, hi as int),
            d == unsigned_digits(full.subrange(lo as int, hi as int)),
            all_digits(full.subrange(first as int, i as int)),
            digits_value(full.subrange(first as int, i as int)) >= 0,
            value == (if digits_value(full.subrange(first as int, i as int)) >= limit {
                limit
            } else {
                digits_value(full.subrange(first as int, i as int))
            }),
            limit == u32::MAX as int + 1,
        decreases hi - i,
    {
        let c = s.get_char(i);
        let u = c as u32;
        if u < 48 || u > 57 {
            assert(!is_ascii_digit(d[i - first]));
            return None;
        }
        proof {
            lemma_digits_value_step(full, first as int, i + 1);
            assert(full.subrange(first as int, i + 1).drop_last() =~= full.subrange(
                first as int,
                i as int,
            ));
            assert forall|k: int|
                0 <= k < (i + 1 - first) implies is_ascii_digit(
                #[trigger] full.subrange(first as int, i + 1)[k],
            ) by {
                if k < i - first {
                    assert(full.subrange(first as int, i + 1)[k] == full.subrange(
                        first as int,
                        i as int,
                    )[k]);
                }
            }
        }
        let next = value * 10 + (u as u64 - 48);
        if next >= 4294967296 {
            value = 4294967296;
        } else {
            value = next;
        }
        i = i + 1;
    }
    assert(full.subrange(first as int, hi as int) == full.subrange(first as int, i as int));
    if value >= 4294967296 {
        None
    } else {
        Some(value as u32)
    }
}

/// The number written on `line`, which may be surrounded by whitespace:
/// `line.trim().parse::<u32>().ok()`.
pub fn parse_guess(line: &str) -> (r: Option<u32>)
    ensures
        r == parse_guess_spec(line@),
{
    let (start, end) = trim_bounds(line);
    parse_u32_range(line, start, end)
}

} // verus!

verus! {

proof fn lemma_digit_char(d: nat)
    requires
        d < 10,
    ensures
        is_ascii_digit(digit_char(d)),
        digit_value(digit_char(d)) == d,
        !is_whitespace(digit_char(d)),
        digit_char(d) != '+',
{
}

/// The decimal representation of `n` is a nonempty string of digits that
/// denotes `n`, with no whitespace or sign around it.
pub proof fn lemma_decimal_digits(n: nat)
    ensures
        decimal(n).len() > 0,
        all_digits(decimal(n)),
        digits_value(decimal(n)) == n,
        !is_whitespace(decimal(n)[0]),
        !is_whitespace(decimal(n).last()),
        decimal(n)[0] != '+',
    decreases n,
{
    lemma_digit_char(n % 10);
    if n >= 10 {
        lemma_decimal_digits(n / 10);
        let d = decimal(n);
        assert(d.drop_last() =~= decimal(n / 10));
        assert(d.last() == digit_char(n % 10));
        assert((n / 10) * 10 + n % 10 == n) by (nonlinear_arith);
        assert(digits_value(d) == digits_value(d.drop_last()) * 10 + digit_value(d.last()));
        assert(d[0] == decimal(n / 10)[0]);
        assert forall|i: int| 0 <= i < d.len() implies is_ascii_digit(#[trigger] d[i]) by {
            if i < d.len() - 1 {
                assert(d[i] == decimal(n / 10)[i]);
            }
        }
    } else {
        lemma_digit_char(n);
        let d = decimal(n);
        assert(d.drop_last() =~= Seq::<char>::empty());
        assert(digits_value(d.drop_last()) == 0);
        assert(d.last() == digit_char(n));
        assert(digits_value(d) == digits_value(d.drop_last()) * 10 + digit_value(d.last()));
    }
}

/// Every number reads back from its decimal representation, also when the
/// line ends with a newline: `n.to_string()` typed on a line gives `n`.
pub proof fn law_decimal_reads_back(n: u32)
    ensures
        parse_guess_spec(decimal(n as nat)) == Some(n),
        parse_guess_spec(decimal(n as nat).push('\n')) == Some(n),
{
    let d = decimal(n as nat);
    lemma_decimal_digits(n as nat);
    assert(trim_start(d) == d);
    assert(trim_end(d) == d);
    assert(unsigned_digits(d) == d);
    let line = d.push('\n');
    assert(line[0] == d[0]);
    assert(trim_start(line) == line);
    assert(line.drop_last() =~= d);
    assert(is_whitespace(line.last()));
    assert(trim_end(line) == trim_end(d));
}

} // verus!

verus! {

/// Why a line holds no `u32`, in the kinds `str::parse::<u32>` reports.
#[derive(Clone, Copy, PartialEq, Eq, Structural, Debug)]
pub enum ParseFailure {
    Empty,
    InvalidDigit,
    PosOverflow,
}

/// The first failure met reading the first `k` characters of `d` as
/// digits, left to right: a character that is no digit, or a value grown
/// past `u32::MAX`.
pub open spec fn first_failure(d: Seq<char>, k: int) -> Option<ParseFailure>
    decreases k,
{
    if k <= 0 {
        None
    } else {
        match first_failure(d, k - 1) {
            Some(f) => Some(f),
            None => if !is_ascii_digit(d[k - 1]) {
                Some(ParseFailure::InvalidDigit)
            } else if digits_value(d.take(k)) > u32::MAX {
                Some(ParseFailure::PosOverflow)
            } else {
                None
            },
        }
    }
}

/// Why `str::parse::<u32>` refuses `t`, if it does: nothing at all, a lone
/// sign, or the first failure among the digits.
pub open spec fn parse_failure_spec(t: Seq<char>) -> Option<ParseFailure> {
    if t.len() == 0 {
        Some(ParseFailure::Empty)
    } else if t.len() == 1 && (t[0] == '+' || t[0] == '-') {
        Some(ParseFailure::InvalidDigit)
    } else {
        first_failure(unsigned_digits(t), unsigned_digits(t).len() as int)
    }
}

proof fn lemma_first_failure_stays(d: Seq<char>, k: int, m: int)
    requires
        0 <= k <= m,
        first_failure(d, k) is Some,
    ensures
        first_failure(d, m) == first_failure(d, k),
    decreases m - k,
{
    if m > k {
        lemma_first_failure_stays(d, k, m - 1);
    }
}

/// Why the number on `line`, trimmed, cannot be read, if it cannot.
pub fn parse_failure(line: &str) -> (r: Option<ParseFailure>)
    ensures
        r == parse_failure_spec(trim(line@)),
{
    let (lo, hi) = trim_bounds(line);
    let ghost full = line@;
    let ghost t = full.subrange(lo as int, hi as int);
    if lo == hi {
        return Some(ParseFailure::Empty);
    }
    let c0 = line.get_char(lo);
    if hi - lo == 1 && (c0 == '+' || c0 == '-') {
        return Some(ParseFailure::InvalidDigit);
    }
    let first = if c0 == '+' {
        lo + 1
    } else {
        lo
    };
    let ghost d = unsigned_digits(t);
    assert(d =~= full.subrange(first as int, hi as int));
    let mut value: u64 = 0;
    let mut i = first;
    assert(full.subrange(first as int, first as int) =~= Seq::<char>::empty());
    while i < hi
        invariant
            first <= i <= hi,
            hi <= full.len(),
            full == line@,
            d == full.subrange(first as int, hi as int),
            first_failure(d, i - first) is None,
            parse_failure_spec(trim(line@)) == first_failure(d, d.len() as int),
            value == digits_value(d.take(i - first)),
            value <= u32::MAX,
        decreases hi - i,
    {
        let c = line.get_char(i);
        let u = c as u32;
        assert(d[i - first] == c);
        if u < 48 || u > 57 {
            proof {
                lemma_first_failure_stays(d, i + 1 - first, d.len() as int);
            }
            return Some(ParseFailure::InvalidDigit);
        }
        proof {
            assert(d.take(i + 1 - first).drop_last() =~= d.take(i - first));
            assert(d.take(i + 1 - first).last() == c);
        }
        let next = value * 10 + (u as u64 - 48);
        if next > 4294967295 {
            proof {
                lemma_first_failure_stays(d, i + 1 - first, d.len() as int);
            }
            return Some(ParseFailure::PosOverflow);
        }
        value = next;
        i = i + 1;
    }
    assert(d.take(d.len() as int) =~= d);
    None
}

/// The message `str::parse::<u32>` gives for each kind of failure.
pub open spec fn failure_message(f: ParseFailure) -> Seq<char> {
    match f {
        ParseFailure::Empty => "cannot parse integer from empty string"@,
        ParseFailure::InvalidDigit => "invalid digit found in string"@,
        ParseFailure::PosOverflow => "number too large to fit in target type"@,
    }
}

/// The message for a kind of failure, as `ParseIntError` displays it.
pub fn failure_text(f: ParseFailure) -> (text: String)
    ensures
        text@ == failure_message(f),
{
    match f {
        ParseFailure::Empty => String::from_str("cannot parse integer from empty string"),
        ParseFailure::InvalidDigit => String::from_str("invalid digit found in string"),
        ParseFailure::PosOverflow => String::from_str("number too large to fit in target type"),
    }
}

} // verus!

verus! {

proof fn lemma_digits_value_nonneg(d: Seq<char>)
    requires
        all_digits(d),
    ensures
        digits_value(d) >= 0,
    decreases d.len(),
{
    if d.len() > 0 {
        assert(all_digits(d.drop_last())) by {
            assert forall|i: int| 0 <= i < d.drop_last().len() implies is_ascii_digit(
                #[trigger] d.drop_last()[i],
            ) by {
                assert(d.drop_last()[i] == d[i]);
            }
        }
        lemma_digits_value_nonneg(d.drop_last());
        assert(is_ascii_digit(d[d.len() - 1]));
    }
}

proof fn lemma_first_failure_none(d: Seq<char>, k: int)
    requires
        0 <= k <= d.len(),
    ensures
        first_failure(d, k) is None <==> (all_digits(d.take(k)) && digits_value(d.take(k))
            <= u32::MAX),
    decreases k,
{
    if k > 0 {
        lemma_first_failure_none(d, k - 1);
        let p = d.take(k - 1);
        let q = d.take(k);
        assert(q.drop_last() =~= p);
        assert(q.last() == d[k - 1]);
        if all_digits(q) {
            assert(all_digits(p)) by {
                assert forall|i: int| 0 <= i < p.len() implies is_ascii_digit(#[trigger] p[i]) by {
                    assert(p[i] == q[i]);
                }
            }
            lemma_digits_value_nonneg(p);
            assert(is_ascii_digit(q[k - 1]));
        }
        if all_digits(p) && is_ascii_digit(d[k - 1]) {
            assert(all_digits(q)) by {
                assert forall|i: int| 0 <= i < q.len() implies is_ascii_digit(#[trigger] q[i]) by {
                    if i < k - 1 {
                        assert(q[i] == p[i]);
                    }
                }
            }
        }
        if all_digits(q) {
            assert(is_ascii_digit(q[k - 1]));
        }
    } else {
        assert(d.take(0) =~= Seq::<char>::empty());
    }
}

/// A line names a failure exactly when it holds no number: `parse_failure`
/// and `parse_guess` never both answer, and one of them always does.
pub proof fn law_failure_exactly_when_no_number(line: Seq<char>)
    ensures
        parse_failure_spec(trim(line)) is None <==> parse_guess_spec(line) is Some,
{
    let t = trim(line);
    let d = unsigned_digits(t);
    lemma_first_failure_none(d, d.len() as int);
    assert(d.take(d.len() as int) =~= d);
    if t.len() == 1 && t[0] == '-' {
        assert(!is_ascii_digit(d[0]));
    }
}

} // verus!
