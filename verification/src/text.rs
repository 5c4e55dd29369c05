use vstd::prelude::*;
use vstd::std_specs::iter::IteratorSpec;

verus! {

/// The character that stands for a single decimal digit.
pub open spec fn digit_char(d: nat) -> char {
    if d == 0 {
        '0'
    } else if d == 1 {
        '1'
    } else if d == 2 {
        '2'
    } else if d == 3 {
        '3'
    } else if d == 4 {
        '4'
    } else if d == 5 {
        '5'
    } else if d == 6 {
        '6'
    } else if d == 7 {
        '7'
    } else if d == 8 {
        '8'
    } else {
        '9'
    }
}

/// The decimal numeral of `n`, most significant digit first, without
/// leading zeros.
pub open spec fn decimal(n: nat) -> Seq<char>
    decreases n,
{
    if n < 10 {
        seq![digit_char(n)]
    } else {
        decimal(n / 10).push(digit_char(n % 10))
    }
}

/// `String::push` of the standard library: the text grows by exactly the
/// one character.
#[verifier::external_body]
pub(crate) fn push_char(text: &mut String, c: char)
    ensures
        final(text)@ == old(text)@.push(c),
{
    text.push(c)
}

/// Whether two texts hold the same characters.
pub fn str_equal(a: &str, b: &str) -> (same: bool)
    ensures
        same == (a@ == b@),
{
    let mut left = a.chars();
    let mut right = b.chars();
    let ghost seen = Seq::<char>::empty();
    proof {
        assert(seen + left.remaining() =~= a@);
        assert(seen + right.remaining() =~= b@);
    }
    loop
        invariant
            left.decrease() is Some,
            right.decrease() is Some,
            a@ == seen + left.remaining(),
            b@ == seen + right.remaining(),
        decreases left.decrease()->0,
    {
        let ghost l = left.remaining();
        let ghost r = right.remaining();
        match left.next() {
            None => {
                let ended = right.next().is_none();
                proof {
                    assert(seen + l =~= seen);
                    if ended {
                        assert(seen + r =~= seen);
                    } else {
                        assert((seen + r).len() > seen.len());
                    }
                }
                return ended;
            },
            Some(ca) => match right.next() {
                None => {
                    proof {
                        assert(seen + r =~= seen);
                        assert((seen + l).len() > seen.len());
                    }
                    return false;
                },
                Some(cb) => {
                    proof {
                        assert((seen + l)[seen.len() as int] == ca);
                        assert((seen + r)[seen.len() as int] == cb);
                    }
                    if ca != cb {
                        return false;
                    }
                    proof {
                        assert(seen.push(ca) + left.remaining() =~= seen + l);
                        assert(seen.push(ca) + right.remaining() =~= seen + r);
                        seen = seen.push(ca);
                    }
                },
            },
        }
    }
}

fn digit_of(d: usize) -> (c: char)
    requires
        d < 10,
    ensures
        c == digit_char(d as nat),
{
    if d == 0 {
        '0'
    } else if d == 1 {
        '1'
    } else if d == 2 {
        '2'
    } else if d == 3 {
        '3'
    } else if d == 4 {
        '4'
    } else if d == 5 {
        '5'
    } else if d == 6 {
        '6'
    } else if d == 7 {
        '7'
    } else if d == 8 {
        '8'
    } else {
        '9'
    }
}

/// Appends the decimal numeral of `n` to `text`.
pub fn push_decimal(text: &mut String, n: usize)
    ensures
        final(text)@ == old(text)@ + decimal(n as nat),
{
    let mut digits: Vec<char> = Vec::new();
    let mut rest: usize = n;
    digits.push(digit_of(rest % 10));
    rest = rest / 10;
    proof {
        if n >= 10 {
            lemma_decimal_prefix((n / 10) as nat);
        }
        assert(digits@.reverse() =~= seq![digit_char((n % 10) as nat)]);
        assert(decimal_prefix((n / 10) as nat) + seq![digit_char((n % 10) as nat)]
            =~= decimal_prefix((n / 10) as nat).push(digit_char((n % 10) as nat)));
        assert(decimal_prefix(0).push(digit_char((n % 10) as nat)) =~= seq![
            digit_char((n % 10) as nat),
        ]);
    }
    while rest > 0
        invariant
            digits@.len() >= 1,
            decimal(n as nat) == decimal_prefix(rest as nat) + digits@.reverse(),
        decreases rest,
    {
        proof {
            assert(decimal_prefix(rest as nat) == decimal_prefix((rest / 10) as nat).push(
                digit_char((rest % 10) as nat),
            ));
            assert(digits@.push(digit_char((rest % 10) as nat)).reverse() =~= seq![
                digit_char((rest % 10) as nat),
            ] + digits@.reverse());
            assert(decimal_prefix((rest / 10) as nat).push(digit_char((rest % 10) as nat))
                + digits@.reverse() =~= decimal_prefix((rest / 10) as nat) + (seq![
                digit_char((rest % 10) as nat),
            ] + digits@.reverse()));
        }
        digits.push(digit_of(rest % 10));
        rest = rest / 10;
    }
    let mut i: usize = digits.len();
    while i > 0
        invariant
            i <= digits@.len(),
            text@ == old(text)@ + digits@.reverse().take(digits@.len() - i),
        decreases i,
    {
        i = i - 1;
        push_char(text, digits[i]);
        proof {
            let r = digits@.reverse();
            assert(r.take(digits@.len() - i) =~= r.take(digits@.len() - i - 1).push(digits@[i as int]));
            assert(old(text)@ + r.take(digits@.len() - i - 1).push(digits@[i as int]) =~= (old(text)@
                + r.take(digits@.len() - i - 1)).push(digits@[i as int]));
        }
    }
    proof {
        assert(digits@.reverse().take(digits@.len() as int) =~= digits@.reverse());
        assert(decimal_prefix(0) + digits@.reverse() =~= digits@.reverse());
    }
}

proof fn lemma_decimal_prefix(n: nat)
    requires
        n > 0,
    ensures
        decimal(n) == decimal_prefix(n),
    decreases n,
{
    if n < 10 {
        assert(n / 10 == 0);
        assert(decimal_prefix(0).push(digit_char(n % 10)) =~= seq![digit_char(n)]);
    } else {
        lemma_decimal_prefix(n / 10);
    }
}

/// The decimal numeral of `n`, but nothing at all for zero.
pub open spec fn decimal_prefix(n: nat) -> Seq<char>
    decreases n,
{
    if n == 0 {
        Seq::empty()
    } else {
        decimal_prefix(n / 10).push(digit_char(n % 10))
    }
}

/// The characters of a text.
pub fn chars_of(text: &str) -> (chars: Vec<char>)
    ensures
        chars@ == text@,
{
    let mut chars: Vec<char> = Vec::new();
    let mut rest = text.chars();
    proof {
        assert(chars@ + rest.remaining() =~= text@);
    }
    loop
        invariant
            rest.decrease() is Some,
            text@ == chars@ + rest.remaining(),
        ensures
            chars@ == text@,
        decreases rest.decrease()->0,
    {
        let ghost before = rest.remaining();
        let ghost so_far = chars@;
        match rest.next() {
            Some(c) => {
                chars.push(c);
                proof {
                    assert(so_far.push(c) + rest.remaining() =~= so_far + before);
                }
            },
            None => {
                proof {
                    assert(so_far + before =~= so_far);
                }
                break ;
            },
        }
    }
    chars
}

/// Whether `text` ends in `suffix`.
pub open spec fn ends_with(text: Seq<char>, suffix: Seq<char>) -> bool {
    suffix.len() <= text.len() && text.subrange(text.len() - suffix.len(), text.len() as int)
        == suffix
}

/// Whether `text` starts with `prefix`.
pub open spec fn starts_with(text: Seq<char>, prefix: Seq<char>) -> bool {
    prefix.len() <= text.len() && text.subrange(0, prefix.len() as int) == prefix
}

/// Whether the characters `text` hold the characters `part` from position
/// `at` on.
pub fn holds_at(text: &Vec<char>, at: usize, part: &Vec<char>) -> (holds: bool)
    ensures
        holds == (at + part.len() <= text.len() && text@.subrange(
            at as int,
            at + part.len(),
        ) == part@),
{
    if part.len() > text.len() || at > text.len() - part.len() {
        return false;
    }
    let mut i: usize = 0;
    while i < part.len()
        invariant
            i <= part.len(),
            at + part.len() <= text.len(),
            forall|k: int| 0 <= k < i ==> text[at + k] == part[k],
        decreases part.len() - i,
    {
        if text[at + i] != part[i] {
            assert(text@.subrange(at as int, at + part.len())[i as int] != part@[i as int]);
            return false;
        }
        i += 1;
    }
    assert(text@.subrange(at as int, at + part.len()) =~= part@);
    true
}

/// Whether `text` ends in `suffix`.
pub fn text_ends_with(text: &str, suffix: &str) -> (ends: bool)
    ensures
        ends == ends_with(text@, suffix@),
{
    let chars = chars_of(text);
    let part = chars_of(suffix);
    if part.len() > chars.len() {
        return false;
    }
    holds_at(&chars, chars.len() - part.len(), &part)
}

/// A line without the carriage return at its end, if it has one.
pub open spec fn strip_cr(line: Seq<char>) -> Seq<char> {
    if line.len() > 0 && line.last() == '\r' {
        line.drop_last()
    } else {
        line
    }
}

/// The characters of a text behind its last line feed.
pub open spec fn tail_line(text: Seq<char>) -> Seq<char>
    decreases text.len(),
{
    if text.len() == 0 || text.last() == '\n' {
        Seq::empty()
    } else {
        tail_line(text.drop_last()).push(text.last())
    }
}

/// The lines of a text that end in a line feed, each without its line feed
/// and without a carriage return before it.
pub open spec fn complete_lines(text: Seq<char>) -> Seq<Seq<char>>
    decreases text.len(),
{
    if text.len() == 0 {
        Seq::empty()
    } else if text.last() == '\n' {
        complete_lines(text.drop_last()).push(strip_cr(tail_line(text.drop_last())))
    } else {
        complete_lines(text.drop_last())
    }
}

/// The lines of a text: the lines that end in a line feed, and what stands
/// behind the last line feed if anything does.
pub open spec fn lines_of(text: Seq<char>) -> Seq<Seq<char>> {
    if tail_line(text).len() > 0 {
        complete_lines(text).push(tail_line(text))
    } else {
        complete_lines(text)
    }
}

/// The lines that a list of lines stands for.
pub open spec fn lines_view(lines: Seq<Vec<char>>) -> Seq<Seq<char>> {
    lines.map_values(|l: Vec<char>| l@)
}

/// Splits a text into its lines.
pub fn split_lines(text: &str) -> (lines: Vec<Vec<char>>)
    ensures
        lines_view(lines@) == lines_of(text@),
{
    let mut lines: Vec<Vec<char>> = Vec::new();
    let mut current: Vec<char> = Vec::new();
    let mut rest = text.chars();
    let ghost seen = Seq::<char>::empty();
    proof {
        assert(seen + rest.remaining() =~= text@);
        assert(lines_view(lines@) =~= Seq::<Seq<char>>::empty());
    }
    loop
        invariant_except_break
            lines_view(lines@) == complete_lines(seen),
            current@ == tail_line(seen),
        invariant
            rest.decrease() is Some,
            text@ == seen + rest.remaining(),
        ensures
            lines_view(lines@) == lines_of(text@),
        decreases rest.decrease()->0,
    {
        let ghost before = rest.remaining();
        match rest.next() {
            Some(c) => {
                proof {
                    assert(seen.push(c) + rest.remaining() =~= seen + before);
                    assert(seen.push(c).drop_last() =~= seen);
                }
                if c == '\n' {
                    if current.len() > 0 && current[current.len() - 1] == '\r' {
                        current.pop();
                    }
                    proof {
                        assert(current@ == strip_cr(tail_line(seen)));
                        assert(lines_view(lines@.push(current)) =~= lines_view(lines@).push(
                            current@,
                        ));
                    }
                    lines.push(current);
                    current = Vec::new();
                } else {
                    current.push(c);
                }
                proof {
                    seen = seen.push(c);
                }
            },
            None => {
                proof {
                    assert(seen + before =~= seen);
                }
                if current.len() > 0 {
                    proof {
                        assert(lines_view(lines@.push(current)) =~= lines_view(lines@).push(
                            current@,
                        ));
                    }
                    lines.push(current);
                }
                break ;
            },
        }
    }
    lines
}

/// The number that decimal digits stand for.
pub open spec fn digits_value(digits: Seq<char>) -> nat
    decreases digits.len(),
{
    if digits.len() == 0 {
        0
    } else {
        digits_value(digits.drop_last()) * 10 + (digits.last() as u32 - '0' as u32) as nat
    }
}

/// Whether every character is a decimal digit.
pub open spec fn all_digits(digits: Seq<char>) -> bool {
    forall|i: int| 0 <= i < digits.len() ==> '0' <= #[trigger] digits[i] <= '9'
}

/// The number, not greater than `limit`, that a text is the numeral of:
/// decimal digits, at least one, after at most one plus sign.
pub open spec fn numeral(text: Seq<char>, limit: nat) -> Option<nat> {
    let digits = if text.len() > 0 && text[0] == '+' {
        text.skip(1)
    } else {
        text
    };
    if digits.len() > 0 && all_digits(digits) && digits_value(digits) <= limit {
        Some(digits_value(digits))
    } else {
        None
    }
}

/// The number that a decimal digit stands for.
fn digit_value(c: char) -> (d: usize)
    requires
        '0' <= c <= '9',
    ensures
        d == (c as u32 - '0' as u32),
        d < 10,
{
    if c == '0' {
        0
    } else if c == '1' {
        1
    } else if c == '2' {
        2
    } else if c == '3' {
        3
    } else if c == '4' {
        4
    } else if c == '5' {
        5
    } else if c == '6' {
        6
    } else if c == '7' {
        7
    } else if c == '8' {
        8
    } else {
        9
    }
}

/// The number that the first digits of a numeral stand for is not greater
/// than the number that the numeral stands for.
proof fn lemma_digits_value_grows(digits: Seq<char>, upto: int)
    requires
        0 <= upto <= digits.len(),
    ensures
        digits_value(digits.take(upto)) <= digits_value(digits),
    decreases digits.len() - upto,
{
    if upto < digits.len() {
        lemma_digits_value_grows(digits, upto + 1);
        assert(digits.take(upto + 1).drop_last() =~= digits.take(upto));
    } else {
        assert(digits.take(upto) =~= digits);
    }
}

/// Reads the characters from `from` up to `to` as the numeral of a number
/// not greater than `limit`.
#[verifier::loop_isolation(false)]
pub fn read_numeral(chars: &Vec<char>, from: usize, to: usize, limit: usize) -> (value: Option<usize>)
    requires
        from <= to <= chars.len(),
    ensures
        match value {
            Some(v) => numeral(chars@.subrange(from as int, to as int), limit as nat) == Some(
                v as nat,
            ),
            None => numeral(chars@.subrange(from as int, to as int), limit as nat) is None,
        },
{
    let ghost text = chars@.subrange(from as int, to as int);
    let mut start: usize = from;
    if start < to && chars[start] == '+' {
        start += 1;
    }
    let ghost digits = chars@.subrange(start as int, to as int);
    proof {
        if start > from {
            assert(text[0] == '+');
            assert(text.skip(1) =~= digits);
        } else if text.len() > 0 {
            assert(text[0] == chars[from as int]);
        }
    }
    if start >= to {
        return None;
    }
    let mut value: usize = 0;
    let mut i: usize = start;
    proof {
        assert(digits.take(0) =~= Seq::<char>::empty());
    }
    while i < to
        invariant
            start <= i <= to,
            all_digits(digits.take(i - start)),
            value == digits_value(digits.take(i - start)),
            value <= limit,
        decreases to - i,
    {
        let c = chars[i];
        let ghost next = digits.take(i - start + 1);
        proof {
            assert(next.drop_last() =~= digits.take(i - start));
            assert(next.last() == c);
            assert(digits[i - start] == c);
        }
        if !('0' <= c && c <= '9') {
            assert(!all_digits(digits));
            return None;
        }
        let d = digit_value(c);
        if d > limit || value > (limit - d) / 10 {
            proof {
                assert(digits_value(next) > limit);
                lemma_digits_value_grows(digits, i - start + 1);
            }
            return None;
        }
        value = value * 10 + d;
        proof {
            assert forall|k: int| 0 <= k < next.len() implies '0' <= #[trigger] next[k] <= '9' by {
                if k < next.len() - 1 {
                    assert(next[k] == digits.take(i - start)[k]);
                }
            }
        }
        i += 1;
    }
    proof {
        assert(digits.take(to - start) =~= digits);
    }
    Some(value)
}

/// Whether text `a` comes before text `b` in the order of a dictionary that
/// goes by the characters' numbers.
pub open spec fn text_before(a: Seq<char>, b: Seq<char>) -> bool
    decreases a.len(),
{
    if b.len() == 0 {
        false
    } else if a.len() == 0 {
        true
    } else if a[0] != b[0] {
        a[0] < b[0]
    } else {
        text_before(a.drop_first(), b.drop_first())
    }
}

/// Whether text `a` comes before text `b`.
pub fn is_text_before(a: &str, b: &str) -> (before: bool)
    ensures
        before == text_before(a@, b@),
{
    let mut left = a.chars();
    let mut right = b.chars();
    loop
        invariant
            left.decrease() is Some,
            right.decrease() is Some,
            text_before(a@, b@) == text_before(left.remaining(), right.remaining()),
        decreases left.decrease()->0,
    {
        let ghost l = left.remaining();
        let ghost r = right.remaining();
        match right.next() {
            None => {
                return false;
            },
            Some(cb) => match left.next() {
                None => {
                    return true;
                },
                Some(ca) => {
                    if ca != cb {
                        return ca < cb;
                    }
                },
            },
        }
    }
}

/// The first position from `from` on that holds the letter `e`, small or
/// capital, or the length of the text.
pub open spec fn exponent_mark(text: Seq<char>, from: int) -> int
    decreases text.len() - from,
{
    if from < 0 || from >= text.len() {
        text.len() as int
    } else if text[from] == 'e' || text[from] == 'E' {
        from
    } else {
        exponent_mark(text, from + 1)
    }
}

/// How many of the first `upto` characters are `c`.
pub open spec fn count_char(text: Seq<char>, c: char, upto: int) -> nat
    decreases upto,
{
    if upto <= 0 || upto > text.len() {
        0
    } else if text[upto - 1] == c {
        count_char(text, c, upto - 1) + 1
    } else {
        count_char(text, c, upto - 1)
    }
}

/// Whether the first `upto` characters write zero: they are zeros and at
/// most one point, and at least one is a zero.
pub open spec fn is_zero_mantissa(text: Seq<char>, upto: int) -> bool {
    &&& count_char(text, '0', upto) >= 1
    &&& count_char(text, '.', upto) <= 1
    &&& count_char(text, '0', upto) + count_char(text, '.', upto) == upto
}

/// Whether a text is an exponent: decimal digits, at least one, after at
/// most one sign.
pub open spec fn is_exponent(text: Seq<char>) -> bool {
    let digits = if text.len() > 0 && (text[0] == '+' || text[0] == '-') {
        text.skip(1)
    } else {
        text
    };
    digits.len() > 0 && all_digits(digits)
}

/// Whether a text writes the number zero, in whatever spelling: after at
/// most one minus sign, only zeros before and behind at most one point, and
/// then any exponent or none.
pub open spec fn is_zero_numeral(text: Seq<char>) -> bool {
    let body = if text.len() > 0 && text[0] == '-' {
        text.skip(1)
    } else {
        text
    };
    let mark = exponent_mark(body, 0);
    is_zero_mantissa(body, mark) && (mark == body.len() || is_exponent(body.skip(mark + 1)))
}

/// Zeros and points are counted apart, and their numbers do not go down as
/// more characters are taken.
proof fn lemma_counts(text: Seq<char>, a: int, b: int)
    requires
        0 <= a <= b <= text.len(),
    ensures
        count_char(text, '0', a) <= count_char(text, '0', b),
        count_char(text, '.', a) <= count_char(text, '.', b),
        count_char(text, '0', b) + count_char(text, '.', b) - (count_char(text, '0', a)
            + count_char(text, '.', a)) <= b - a,
    decreases b - a,
{
    if a < b {
        lemma_counts(text, a, b - 1);
    }
}

/// The exponent's mark, sought from `from` on, stands at a position from
/// `from` on, and no mark stands between `from` and it.
proof fn lemma_exponent_mark(text: Seq<char>, from: int)
    requires
        0 <= from <= text.len(),
    ensures
        from <= exponent_mark(text, from) <= text.len(),
        exponent_mark(text, from) < text.len() ==> text[exponent_mark(text, from)] == 'e'
            || text[exponent_mark(text, from)] == 'E',
        forall|k: int|
            from <= k < exponent_mark(text, from) ==> #[trigger] text[k] != 'e' && text[k] != 'E',
    decreases text.len() - from,
{
    if from < text.len() && !(text[from] == 'e' || text[from] == 'E') {
        lemma_exponent_mark(text, from + 1);
    }
}

/// Whether a text writes the number zero.
#[verifier::loop_isolation(false)]
pub fn writes_zero(text: &str) -> (zero: bool)
    ensures
        zero == is_zero_numeral(text@),
{
    let chars = chars_of(text);
    let start: usize = if chars.len() > 0 && chars[0] == '-' {
        1
    } else {
        0
    };
    let ghost body = chars@.skip(start as int);
    proof {
        assert(text@.skip(0) =~= text@);
        assert(body == (if text@.len() > 0 && text@[0] == '-' {
            text@.skip(1)
        } else {
            text@
        }));
    }
    let ghost mark = exponent_mark(body, 0);
    proof {
        lemma_exponent_mark(body, 0);
    }
    let mut zeros: usize = 0;
    let mut points: usize = 0;
    let mut i: usize = start;
    while i < chars.len() && chars[i] != 'e' && chars[i] != 'E'
        invariant
            start <= i <= chars.len(),
            i - start <= mark,
            mark == exponent_mark(body, i - start),
            zeros == count_char(body, '0', i - start),
            points == count_char(body, '.', i - start),
            zeros + points == i - start,
            points <= 1,
        decreases chars.len() - i,
    {
        let c = chars[i];
        proof {
            assert(body[i - start] == c);
            lemma_exponent_mark(body, i - start + 1);
            lemma_counts(body, i - start + 1, mark);
        }
        if c == '0' {
            zeros += 1;
        } else if c == '.' && points == 0 {
            points = 1;
        } else {
            return false;
        }
        i += 1;
    }
    proof {
        assert(body.len() == chars.len() - start);
        if i < chars.len() {
            assert(body[i - start] == chars[i as int]);
        }
        assert(mark == i - start);
    }
    if zeros == 0 {
        return false;
    }
    if i == chars.len() {
        return true;
    }
    let mut from: usize = i + 1;
    let ghost tail = body.skip(mark + 1);
    proof {
        assert(tail =~= chars@.skip(i as int + 1));
    }
    if from < chars.len() && (chars[from] == '+' || chars[from] == '-') {
        from += 1;
    }
    let ghost digits = chars@.skip(from as int);
    proof {
        if from > i + 1 {
            assert(tail[0] == chars[i as int + 1]);
            assert(tail.skip(1) =~= digits);
        } else if tail.len() > 0 {
            assert(tail[0] == chars[i as int + 1]);
        }
    }
    if from >= chars.len() {
        return false;
    }
    let mut k: usize = from;
    while k < chars.len()
        invariant
            from <= k <= chars.len(),
            forall|m: int| 0 <= m < k - from ==> '0' <= #[trigger] digits[m] <= '9',
        decreases chars.len() - k,
    {
        let c = chars[k];
        proof {
            assert(digits[k - from] == c);
        }
        if !('0' <= c && c <= '9') {
            return false;
        }
        k += 1;
    }
    true
}

/// A text with each character `from` exchanged for the character `to`.
pub open spec fn replaced(text: Seq<char>, from: char, to: char) -> Seq<char> {
    Seq::new(
        text.len(),
        |i: int|
            if text[i] == from {
                to
            } else {
                text[i]
            },
    )
}

/// A copy of a text with each character `from` exchanged for `to`.
pub fn replace_char(text: &str, from: char, to: char) -> (copy: String)
    ensures
        copy@ == replaced(text@, from, to),
{
    let chars = chars_of(text);
    let mut copy = String::new();
    let mut i: usize = 0;
    while i < chars.len()
        invariant
            i <= chars.len(),
            chars@ == text@,
            copy@ == replaced(text@, from, to).take(i as int),
        decreases chars.len() - i,
    {
        let c = if chars[i] == from {
            to
        } else {
            chars[i]
        };
        push_char(&mut copy, c);
        proof {
            let all = replaced(text@, from, to);
            assert(all.take(i as int + 1) =~= all.take(i as int).push(c));
        }
        i += 1;
    }
    proof {
        let all = replaced(text@, from, to);
        assert(all.take(chars.len() as int) =~= all);
    }
    copy
}

} // verus!
