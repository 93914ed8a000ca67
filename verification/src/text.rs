//! Character-level text handling: Unicode white space, trimming,
//! splitting on a separator and decimal integers.

use vstd::prelude::*;
use vstd::utf8::*;

verus! {

/// The Unicode `White_Space` property, as `char::is_whitespace` defines it.
pub open spec fn is_white_space(c: char) -> bool {
    let v = c as u32;
    ||| 0x09 <= v <= 0x0D
    ||| v == 0x20
    ||| v == 0x85
    ||| v == 0xA0
    ||| v == 0x1680
    ||| 0x2000 <= v <= 0x200A
    ||| v == 0x2028
    ||| v == 0x2029
    ||| v == 0x202F
    ||| v == 0x205F
    ||| v == 0x3000
}

/// Whether `c` is Unicode white space.
pub fn is_whitespace(c: char) -> (r: bool)
    ensures
        r == is_white_space(c),
{
    let v = c as u32;
    (0x09 <= v && v <= 0x0D) || v == 0x20 || v == 0x85 || v == 0xA0 || v == 0x1680
        || (0x2000 <= v && v <= 0x200A) || v == 0x2028 || v == 0x2029 || v == 0x202F
        || v == 0x205F || v == 0x3000
}


/// `s` without its leading white space.
pub open spec fn trim_start(s: Seq<char>) -> Seq<char>
    decreases s.len(),
{
    if s.len() > 0 && is_white_space(s[0]) {
        trim_start(s.drop_first())
    } else {
        s
    }
}

/// `s` without its trailing white space.
pub open spec fn trim_end(s: Seq<char>) -> Seq<char>
    decreases s.len(),
{
    if s.len() > 0 && is_white_space(s.last()) {
        trim_end(s.drop_last())
    } else {
        s
    }
}

/// `s` without leading and trailing white space (`str::trim`).
pub open spec fn trim(s: Seq<char>) -> Seq<char> {
    trim_end(trim_start(s))
}

proof fn lemma_trim_start_at(s: Seq<char>, i: int)
    requires
        0 <= i <= s.len(),
        forall|j: int| 0 <= j < i ==> is_white_space(#[trigger] s[j]),
        i == s.len() || !is_white_space(s[i]),
    ensures
        trim_start(s) == s.skip(i),
    decreases i,
{
    if i == 0 {
        assert(s.skip(0) =~= s);
    } else {
        let t = s.drop_first();
        assert forall|j: int| 0 <= j < i - 1 implies is_white_space(#[trigger] t[j]) by {
            assert(t[j] == s[j + 1]);
        }
        if i - 1 < t.len() {
            assert(t[i - 1] == s[i]);
        }
        lemma_trim_start_at(t, i - 1);
        assert(t.skip(i - 1) =~= s.skip(i));
    }
}

proof fn lemma_trim_end_at(s: Seq<char>, e: int)
    requires
        0 <= e <= s.len(),
        forall|j: int| e <= j < s.len() ==> is_white_space(#[trigger] s[j]),
        e == 0 || !is_white_space(s[e - 1]),
    ensures
        trim_end(s) == s.take(e),
    decreases s.len() - e,
{
    if e == s.len() {
        assert(s.take(e) =~= s);
    } else {
        let t = s.drop_last();
        assert forall|j: int| e <= j < t.len() implies is_white_space(#[trigger] t[j]) by {
            assert(t[j] == s[j]);
        }
        if e > 0 {
            assert(t[e - 1] == s[e - 1]);
        }
        lemma_trim_end_at(t, e);
        assert(t.take(e) =~= s.take(e));
    }
}

/// Trimming text that starts and ends with a non-white-space character and
/// is followed only by white space gives back that text.
pub proof fn lemma_trim_text(body: Seq<char>, trailing: Seq<char>)
    requires
        body.len() > 0,
        !is_white_space(body[0]),
        !is_white_space(body.last()),
        forall|i: int| 0 <= i < trailing.len() ==> is_white_space(#[trigger] trailing[i]),
    ensures
        trim(body + trailing) == body,
{
    let text = body + trailing;
    assert(text[0] == body[0]);
    lemma_trim_start_at(text, 0);
    assert(text.skip(0) =~= text);
    assert forall|j: int| body.len() <= j < text.len() implies is_white_space(#[trigger] text[j]) by {
        assert(text[j] == trailing[j - body.len()]);
    }
    assert(text[body.len() - 1] == body.last());
    lemma_trim_end_at(text, body.len() as int);
    assert(text.take(body.len() as int) =~= body);
}

proof fn lemma_trim_start_shape(s: Seq<char>)
    ensures
        trim_start(s).len() == 0 || !is_white_space(trim_start(s)[0]),
        trim_start(s).len() <= s.len(),
        trim_start(s).len() > 0 ==> trim_start(s).last() == s.last(),
    decreases s.len(),
{
    if s.len() > 0 && is_white_space(s[0]) {
        lemma_trim_start_shape(s.drop_first());
    }
}

proof fn lemma_trim_end_shape(s: Seq<char>)
    ensures
        trim_end(s).len() == 0 || !is_white_space(trim_end(s).last()),
        trim_end(s).len() <= s.len(),
        trim_end(s).len() > 0 ==> trim_end(s)[0] == s[0],
    decreases s.len(),
{
    if s.len() > 0 && is_white_space(s.last()) {
        lemma_trim_end_shape(s.drop_last());
        let t = s.drop_last();
        if trim_end(t).len() > 0 {
            assert(t[0] == s[0]);
        }
    }
}

/// Trimmed text neither starts nor ends with white space.
pub proof fn lemma_trimmed_has_no_surrounding_white_space(s: Seq<char>)
    ensures
        trim(s).len() > 0 ==> !is_white_space(trim(s)[0]) && !is_white_space(trim(s).last()),
{
    lemma_trim_start_shape(s);
    lemma_trim_end_shape(trim_start(s));
}

/// Trimming twice is trimming once.
pub proof fn lemma_trim_is_idempotent(s: Seq<char>)
    ensures
        trim(trim(s)) == trim(s),
{
    let t = trim(s);
    lemma_trimmed_has_no_surrounding_white_space(s);
    if t.len() > 0 {
        lemma_trim_text(t, Seq::<char>::empty());
        assert(t + Seq::<char>::empty() =~= t);
    } else {
        assert(t =~= Seq::<char>::empty());
    }
}

/// `s` with leading and trailing Unicode white space removed, as `str::trim` does.
pub fn trim_whitespace(s: &str) -> (r: &str)
    ensures
        r@ == trim(s@),
{
    let n = s.unicode_len();
    let mut start: usize = 0;
    while start < n && is_whitespace(s.get_char(start))
        invariant
            n == s@.len(),
            start <= n,
            forall|j: int| 0 <= j < start ==> is_white_space(#[trigger] s@[j]),
        decreases n - start,
    {
        start = start + 1;
    }
    let mut end: usize = n;
    while end > start && is_whitespace(s.get_char(end - 1))
        invariant
            n == s@.len(),
            start <= end <= n,
            forall|j: int| end <= j < n ==> is_white_space(#[trigger] s@[j]),
        decreases end - start,
    {
        end = end - 1;
    }
    proof {
        lemma_trim_start_at(s@, start as int);
        let t = s@.skip(start as int);
        assert forall|j: int| end - start <= j < t.len() implies is_white_space(#[trigger] t[j]) by {
            assert(t[j] == s@[j + start]);
        }
        if end > start {
            assert(t[end - start - 1] == s@[end - 1]);
        }
        lemma_trim_end_at(t, end - start);
        assert(t.take(end - start) =~= s@.subrange(start as int, end as int));
    }
    s.substring_char(start, end)
}


/// The characters of `s`, in order.
pub fn chars_of(s: &str) -> (r: Vec<char>)
    ensures
        r@ == s@,
{
    let mut out: Vec<char> = Vec::new();
    for c in it: s.chars()
        invariant
            it.seq() == s@,
            out@ == it.seq().take(it.index() as int),
    {
        out.push(c);
        assert(it.seq().take(it.index() + 1) =~= out@);
    }
    assert(out@ =~= s@);
    out
}


/// The pieces of `s` between occurrences of `sep`, as `str::split` yields them
/// for a single-character pattern (an empty `s` gives one empty piece).
pub open spec fn split_on(s: Seq<char>, sep: char) -> Seq<Seq<char>>
    decreases s.len(),
{
    if s.len() == 0 {
        seq![Seq::<char>::empty()]
    } else {
        let p = split_on(s.drop_last(), sep);
        if s.last() == sep {
            p.push(Seq::<char>::empty())
        } else {
            p.update(p.len() - 1, p.last().push(s.last()))
        }
    }
}

/// Splitting always yields at least one piece.
pub proof fn lemma_split_nonempty(s: Seq<char>, sep: char)
    ensures
        split_on(s, sep).len() >= 1,
    decreases s.len(),
{
    if s.len() > 0 {
        lemma_split_nonempty(s.drop_last(), sep);
    }
}

/// A text without the separator is a single piece.
pub proof fn lemma_split_without_separator(a: Seq<char>, sep: char)
    requires
        !a.contains(sep),
    ensures
        split_on(a, sep) == seq![a],
    decreases a.len(),
{
    if a.len() == 0 {
        assert(a =~= Seq::<char>::empty());
        assert(split_on(a, sep) =~= seq![a]);
    } else {
        let d = a.drop_last();
        assert(!d.contains(sep)) by {
            if d.contains(sep) {
                let k = choose|k: int| 0 <= k < d.len() && d[k] == sep;
                assert(a[k] == sep);
            }
        }
        lemma_split_without_separator(d, sep);
        assert(a.last() != sep) by {
            assert(a[a.len() - 1] == a.last());
        }
        assert(d.push(a.last()) =~= a);
        assert(split_on(a, sep) =~= seq![a]);
    }
}

/// Text up to the first separator is the first piece; the rest splits on.
pub proof fn lemma_split_first_piece(a: Seq<char>, sep: char, b: Seq<char>)
    requires
        !a.contains(sep),
    ensures
        split_on(a + seq![sep] + b, sep) == seq![a] + split_on(b, sep),
    decreases b.len(),
{
    let s = a + seq![sep] + b;
    if b.len() == 0 {
        assert(s.drop_last() =~= a);
        lemma_split_without_separator(a, sep);
        assert(split_on(s, sep) =~= seq![a] + split_on(b, sep));
    } else {
        let bd = b.drop_last();
        assert(s.drop_last() =~= a + seq![sep] + bd);
        lemma_split_first_piece(a, sep, bd);
        lemma_split_nonempty(bd, sep);
        let p = split_on(bd, sep);
        assert(s.last() == b.last());
        if b.last() == sep {
            assert(split_on(s, sep) =~= seq![a] + split_on(b, sep));
        } else {
            assert((seq![a] + p).update(p.len() as int, p.last().push(b.last())) =~= seq![a] + p.update(
                p.len() - 1,
                p.last().push(b.last()),
            ));
            assert(split_on(s, sep) =~= seq![a] + split_on(b, sep));
        }
    }
}

/// The pieces of `s` between occurrences of `sep`.
pub fn split_chars(s: &[char], sep: char) -> (r: Vec<Vec<char>>)
    ensures
        r.len() == split_on(s@, sep).len(),
        forall|i: int| 0 <= i < r.len() ==> #[trigger] r[i]@ == split_on(s@, sep)[i],
{
    let mut parts: Vec<Vec<char>> = Vec::new();
    let mut cur: Vec<char> = Vec::new();
    let n = s.len();
    assert(s@.take(0) =~= Seq::<char>::empty());
    for i in 0..n
        invariant
            n == s@.len(),
            parts.len() + 1 == split_on(s@.take(i as int), sep).len(),
            forall|j: int|
                0 <= j < parts.len() ==> #[trigger] parts[j]@ == split_on(
                    s@.take(i as int),
                    sep,
                )[j],
            cur@ == split_on(s@.take(i as int), sep).last(),
    {
        let c = s[i];
        let ghost prev = s@.take(i as int);
        let ghost next = s@.take(i + 1);
        assert(next.drop_last() =~= prev);
        assert(next.last() == c);
        proof {
            lemma_split_nonempty(prev, sep);
        }
        if c == sep {
            parts.push(cur);
            cur = Vec::new();
        } else {
            cur.push(c);
        }
    }
    assert(s@.take(n as int) =~= s@);
    parts.push(cur);
    parts
}

/// Whether `c` is an ASCII decimal digit.
pub open spec fn is_digit(c: char) -> bool {
    48 <= (c as u32) <= 57
}

/// The value of the decimal digit `c`.
pub open spec fn digit_value(c: char) -> int {
    (c as u32) - 48
}

/// Whether every character of `s` is a decimal digit.
pub open spec fn all_digits(s: Seq<char>) -> bool {
    forall|i: int| 0 <= i < s.len() ==> is_digit(#[trigger] s[i])
}

/// The number that the digits `s` write in base ten (0 for no digits).
pub open spec fn digits_value(s: Seq<char>) -> int
    decreases s.len(),
{
    if s.len() == 0 {
        0
    } else {
        10 * digits_value(s.drop_last()) + digit_value(s.last())
    }
}

/// What `str::parse::<i32>` gives for `s`: an optional sign (`+` or `-`)
/// followed by at least one decimal digit, and a value that fits in `i32`.
pub open spec fn parse_i32_spec(s: Seq<char>) -> Option<i32> {
    if s.len() == 0 {
        None
    } else {
        let negative = s[0] == '-';
        let body = if s[0] == '+' || s[0] == '-' {
            s.drop_first()
        } else {
            s
        };
        if body.len() == 0 || !all_digits(body) {
            None
        } else {
            let v = if negative {
                -digits_value(body)
            } else {
                digits_value(body)
            };
            if i32::MIN <= v <= i32::MAX {
                Some(v as i32)
            } else {
                None
            }
        }
    }
}

proof fn lemma_digits_value_nonneg(s: Seq<char>)
    requires
        all_digits(s),
    ensures
        digits_value(s) >= 0,
    decreases s.len(),
{
    if s.len() > 0 {
        lemma_digits_value_nonneg(s.drop_last());
    }
}

proof fn lemma_digits_value_monotone(s: Seq<char>, k: int)
    requires
        all_digits(s),
        0 <= k <= s.len(),
    ensures
        digits_value(s.take(k)) <= digits_value(s),
    decreases s.len() - k,
{
    if k < s.len() {
        let t = s.take(k + 1);
        assert(t.drop_last() =~= s.take(k));
        assert(all_digits(t));
        lemma_digits_value_nonneg(s.take(k));
        lemma_digits_value_monotone(s, k + 1);
    } else {
        assert(s.take(k) =~= s);
    }
}

/// Parses a decimal `i32` as `str::parse::<i32>` does.
pub fn parse_i32(s: &[char]) -> (r: Option<i32>)
    ensures
        r == parse_i32_spec(s@),
{
    let n = s.len();
    if n == 0 {
        return None;
    }
    let negative = s[0] == '-';
    let start: usize = if s[0] == '+' || s[0] == '-' {
        1
    } else {
        0
    };
    let ghost body = if s@[0] == '+' || s@[0] == '-' {
        s@.drop_first()
    } else {
        s@
    };
    assert(body =~= s@.skip(start as int));
    if start == n {
        return None;
    }
    let limit: u64 = if negative {
        2147483648
    } else {
        2147483647
    };
    let mut acc: u64 = 0;
    let mut i: usize = start;
    assert(body.take(0) =~= Seq::<char>::empty());
    while i < n
        invariant
            n == s@.len(),
            0 < n,
            start < n,
            start <= i <= n,
            negative == (s@[0] == '-'),
            body == (if s@[0] == '+' || s@[0] == '-' {
                s@.drop_first()
            } else {
                s@
            }),
            body == s@.skip(start as int),
            all_digits(body.take(i - start)),
            acc == digits_value(body.take(i - start)),
            acc <= limit,
            limit == (if negative { 2147483648u64 } else { 2147483647u64 }),
        decreases n - i,
    {
        let c = s[i];
        let v = c as u32;
        let ghost k = i - start;
        assert(body[k] == c);
        if v < 48 || v > 57 {
            assert(!is_digit(body[k]));
            return None;
        }
        let d = (v - 48) as u64;
        assert(acc * 10 + d <= 21474836489) by (nonlinear_arith)
            requires
                acc <= 2147483648,
                d <= 9,
        ;
        acc = acc * 10 + d;
        assert(body.take(k + 1).drop_last() =~= body.take(k));
        assert(all_digits(body.take(k + 1)));
        if acc > limit {
            proof {
                if all_digits(body) {
                    lemma_digits_value_monotone(body, k + 1);
                }
            }
            return None;
        }
        i = i + 1;
    }
    assert(body.take(n - start) =~= body);
    if negative {
        Some((0 - (acc as i64)) as i32)
    } else {
        Some(acc as i32)
    }
}


/// The decimal digit character for `d` (`0 <= d < 10`).
pub open spec fn digit_char(d: int) -> char {
    (d + 48) as char
}

/// The decimal rendering of `n`, with no sign and no leading zeros,
/// as `Display` writes an unsigned integer.
pub open spec fn decimal(n: nat) -> Seq<char>
    decreases n,
{
    if n < 10 {
        seq![digit_char(n as int)]
    } else {
        decimal(n / 10).push(digit_char((n % 10) as int))
    }
}

proof fn lemma_digit_char(d: int)
    requires
        0 <= d < 10,
    ensures
        is_digit(digit_char(d)),
        digit_value(digit_char(d)) == d,
        !is_white_space(digit_char(d)),
        digit_char(d) != '+',
        digit_char(d) != '-',
        digit_char(d) != '.',
{
    assert(((d + 48) as char) as u32 == d + 48);
}

/// The decimal rendering of `n` consists of digits whose value is `n`.
pub proof fn lemma_decimal_value(n: nat)
    ensures
        decimal(n).len() >= 1,
        all_digits(decimal(n)),
        digits_value(decimal(n)) == n,
    decreases n,
{
    if n < 10 {
        lemma_digit_char(n as int);
        let s = decimal(n);
        assert(s.drop_last() =~= Seq::<char>::empty());
        assert(digits_value(Seq::<char>::empty()) == 0);
        assert(s.last() == digit_char(n as int));
        assert(digits_value(s) == 10 * digits_value(s.drop_last()) + digit_value(s.last()));
    } else {
        lemma_decimal_value(n / 10);
        lemma_digit_char((n % 10) as int);
        let s = decimal(n);
        assert(s.drop_last() =~= decimal(n / 10));
        assert(s.last() == digit_char((n % 10) as int));
        assert(digits_value(s) == 10 * digits_value(decimal(n / 10)) + digit_value(s.last()));
        assert(10 * (n / 10) + n % 10 == n);
        assert(all_digits(s)) by {
            assert forall|i: int| 0 <= i < s.len() implies is_digit(#[trigger] s[i]) by {
                if i < s.len() - 1 {
                    assert(s[i] == decimal(n / 10)[i]);
                }
            }
        }
    }
}

/// Parsing the decimal rendering of a non-negative `i32` gives it back.
pub proof fn lemma_parse_decimal(n: nat)
    requires
        n <= i32::MAX,
    ensures
        parse_i32_spec(decimal(n)) == Some(n as i32),
{
    lemma_decimal_value(n);
    let s = decimal(n);
    assert(is_digit(s[0]));
    assert(s[0] != '+' && s[0] != '-') by {
        assert((s[0] as u32) != ('+' as u32));
        assert((s[0] as u32) != ('-' as u32));
    }
}

/// Parsing a minus sign followed by the decimal rendering of `n` gives `-n`
/// whenever `-n` fits in `i32`.
pub proof fn lemma_parse_negative_decimal(n: nat)
    requires
        n <= 2147483648,
    ensures
        parse_i32_spec(seq!['-'] + decimal(n)) == Some((-n) as i32),
{
    lemma_decimal_value(n);
    let s = seq!['-'] + decimal(n);
    assert(s.drop_first() =~= decimal(n));
}


/// Name for the text that `String::from_utf8_lossy` makes of `bytes`:
/// the decoded characters, with each invalid sequence replaced by U+FFFD.
pub uninterp spec fn utf8_lossy(bytes: Seq<u8>) -> Seq<char>;

/// Calls `String::from_utf8_lossy`. Trusted: the result is the name
/// `utf8_lossy` applied to the bytes, and, as the std documentation says,
/// bytes that are valid UTF-8 decode to exactly their characters.
#[verifier::external_body]
pub(crate) fn decode_utf8_lossy(bytes: &[u8]) -> (s: String)
    ensures
        s@ == utf8_lossy(bytes@),
        valid_utf8(bytes@) ==> s@ == decode_utf8(bytes@),
{
    String::from_utf8_lossy(bytes).into_owned()
}

} // verus!
