//! Character-level helpers shared by the parsers and formatters of the crate:
//! Unicode whitespace, trimming, decimal numbers and character sequences.
use vstd::prelude::*;

verus! {

/// `String::push` appends one character.
pub assume_specification[ String::push ](s: &mut String, ch: char)
    ensures
        final(s)@ == old(s)@.push(ch),
;

/// The characters with the Unicode `White_Space` property, as `char::is_whitespace`
/// documents them.
pub open spec fn is_space(c: char) -> bool {
    ||| ('\u{9}' <= c && c <= '\u{d}')
    ||| c == ' '
    ||| c == '\u{85}'
    ||| c == '\u{a0}'
    ||| c == '\u{1680}'
    ||| ('\u{2000}' <= c && c <= '\u{200a}')
    ||| c == '\u{2028}'
    ||| c == '\u{2029}'
    ||| c == '\u{202f}'
    ||| c == '\u{205f}'
    ||| c == '\u{3000}'
}

pub fn is_space_char(c: char) -> (r: bool)
    ensures
        r == is_space(c),
{
    ('\u{9}' <= c && c <= '\u{d}') || c == ' ' || c == '\u{85}' || c == '\u{a0}' || c
        == '\u{1680}' || ('\u{2000}' <= c && c <= '\u{200a}') || c == '\u{2028}' || c
        == '\u{2029}' || c == '\u{202f}' || c == '\u{205f}' || c == '\u{3000}'
}

pub open spec fn is_digit(c: char) -> bool {
    '0' <= c && c <= '9'
}

/// Number of leading whitespace characters of `s`.
pub open spec fn leading_space(s: Seq<char>) -> nat
    decreases s.len(),
{
    if s.len() > 0 && is_space(s[0]) {
        1 + leading_space(s.drop_first())
    } else {
        0
    }
}

/// Number of trailing whitespace characters of `s`.
pub open spec fn trailing_space(s: Seq<char>) -> nat
    decreases s.len(),
{
    if s.len() > 0 && is_space(s.last()) {
        1 + trailing_space(s.drop_last())
    } else {
        0
    }
}

/// `s` without leading and trailing whitespace (`str::trim`).
pub open spec fn trim_spec(s: Seq<char>) -> Seq<char> {
    let t = s.subrange(leading_space(s) as int, s.len() as int);
    t.subrange(0, t.len() - trailing_space(t))
}

pub proof fn lemma_leading_space_bounds(s: Seq<char>)
    ensures
        leading_space(s) <= s.len(),
        forall|i: int| 0 <= i < leading_space(s) ==> is_space(#[trigger] s[i]),
        leading_space(s) < s.len() ==> !is_space(s[leading_space(s) as int]),
    decreases s.len(),
{
    if s.len() > 0 && is_space(s[0]) {
        lemma_leading_space_bounds(s.drop_first());
        assert forall|i: int| 0 <= i < leading_space(s) implies is_space(#[trigger] s[i]) by {
            if i > 0 {
                assert(s[i] == s.drop_first()[i - 1]);
            }
        }
    }
}

pub proof fn lemma_trailing_space_bounds(s: Seq<char>)
    ensures
        trailing_space(s) <= s.len(),
        forall|i: int| s.len() - trailing_space(s) <= i < s.len() ==> is_space(#[trigger] s[i]),
        trailing_space(s) < s.len() ==> !is_space(s[s.len() - trailing_space(s) - 1]),
    decreases s.len(),
{
    if s.len() > 0 && is_space(s.last()) {
        lemma_trailing_space_bounds(s.drop_last());
        assert forall|i: int| s.len() - trailing_space(s) <= i < s.len() implies is_space(
            #[trigger] s[i],
        ) by {
            if i < s.len() - 1 {
                assert(s[i] == s.drop_last()[i]);
            }
        }
    }
}

/// Leading whitespace is exactly the maximal whitespace prefix.
pub proof fn lemma_leading_space_char(s: Seq<char>, k: int)
    requires
        0 <= k <= s.len(),
        forall|i: int| 0 <= i < k ==> is_space(#[trigger] s[i]),
        k == s.len() || !is_space(s[k]),
    ensures
        leading_space(s) == k,
    decreases s.len(),
{
    if k > 0 {
        assert(is_space(s[0]));
        let t = s.drop_first();
        assert forall|i: int| 0 <= i < k - 1 implies is_space(#[trigger] t[i]) by {
            assert(t[i] == s[i + 1]);
        }
        if k - 1 < t.len() {
            assert(t[k - 1] == s[k]);
        }
        lemma_leading_space_char(t, k - 1);
    }
}

/// Trailing whitespace is exactly the maximal whitespace suffix.
pub proof fn lemma_trailing_space_char(s: Seq<char>, k: int)
    requires
        0 <= k <= s.len(),
        forall|i: int| s.len() - k <= i < s.len() ==> is_space(#[trigger] s[i]),
        k == s.len() || !is_space(s[s.len() - k - 1]),
    ensures
        trailing_space(s) == k,
    decreases s.len(),
{
    if k > 0 {
        assert(is_space(s[s.len() - 1]));
        let t = s.drop_last();
        assert forall|i: int| t.len() - (k - 1) <= i < t.len() implies is_space(
            #[trigger] t[i],
        ) by {
            assert(t[i] == s[i]);
        }
        if k - 1 < t.len() {
            assert(t[t.len() - (k - 1) - 1] == s[s.len() - k - 1]);
        }
        lemma_trailing_space_char(t, k - 1);
    }
}

/// The characters of `s`, in order.
pub fn chars_of(s: &str) -> (r: Vec<char>)
    ensures
        r@ == s@,
{
    let mut out: Vec<char> = Vec::new();
    for c in it: s.chars()
        invariant
            it.seq() == s@,
            out@ == s@.take(it.index() as int),
    {
        proof {
            assert(s@.take(it.index() + 1) == s@.take(it.index() as int).push(c));
        }
        out.push(c);
    }
    out
}

/// A `String` holding the characters `v[from..to]`.
pub fn string_from_chars(v: &Vec<char>, from: usize, to: usize) -> (r: String)
    requires
        from <= to <= v.len(),
    ensures
        r@ == v@.subrange(from as int, to as int),
{
    let mut out = String::new();
    let mut i = from;
    while i < to
        invariant
            from <= i <= to <= v.len(),
            out@ == v@.subrange(from as int, i as int),
        decreases to - i,
    {
        out.push(v[i]);
        proof {
            assert(v@.subrange(from as int, i + 1) == v@.subrange(from as int, i as int).push(
                v@[i as int],
            ));
        }
        i = i + 1;
    }
    out
}

/// `str::trim`: `s` without leading and trailing whitespace.
pub fn trim(s: &str) -> (r: String)
    ensures
        r@ == trim_spec(s@),
{
    let chars = chars_of(s);
    let n = chars.len();
    let mut start: usize = 0;
    while start < n && is_space_char(chars[start])
        invariant
            start <= n == chars@.len(),
            chars@ == s@,
            forall|i: int| 0 <= i < start ==> is_space(#[trigger] s@[i]),
        decreases n - start,
    {
        start = start + 1;
    }
    proof {
        lemma_leading_space_char(s@, start as int);
    }
    let mut end: usize = n;
    while end > start && is_space_char(chars[end - 1])
        invariant
            start <= end <= n == chars@.len(),
            chars@ == s@,
            forall|i: int| end <= i < n ==> is_space(#[trigger] s@[i]),
        decreases end,
    {
        end = end - 1;
    }
    proof {
        let t = s@.subrange(start as int, n as int);
        assert forall|i: int| t.len() - (n - end) <= i < t.len() implies is_space(
            #[trigger] t[i],
        ) by {
            assert(t[i] == s@[start + i]);
        }
        if n - end < t.len() {
            assert(t[t.len() - (n - end) - 1] == s@[end - 1]);
        }
        lemma_trailing_space_char(t, n - end);
        assert(t.subrange(0, t.len() - (n - end)) == s@.subrange(start as int, end as int));
    }
    string_from_chars(&chars, start, end)
}

/// The decimal digit character of `d < 10`.
pub open spec fn digit_char(d: nat) -> char {
    ((d + 48) as u8) as char
}

/// The decimal form of `n`, as `usize`'s `Display` writes it.
pub open spec fn decimal(n: nat) -> Seq<char>
    decreases n,
{
    if n < 10 {
        seq![digit_char(n)]
    } else {
        decimal(n / 10).push(digit_char(n % 10))
    }
}

/// The value of a sequence of decimal digits.
pub open spec fn digits_value(s: Seq<char>) -> nat
    decreases s.len(),
{
    if s.len() == 0 {
        0
    } else {
        digits_value(s.drop_last()) * 10 + ((s.last() as u32) - 48) as nat
    }
}

pub open spec fn all_digits(s: Seq<char>) -> bool {
    forall|i: int| 0 <= i < s.len() ==> is_digit(#[trigger] s[i])
}

/// `usize::from_str`: an optional `+` sign followed by at least one decimal digit,
/// whose value fits in a `usize`.
pub open spec fn parse_usize_spec(s: Seq<char>) -> Option<usize> {
    let digits = if s.len() > 0 && s[0] == '+' {
        s.drop_first()
    } else {
        s
    };
    if digits.len() == 0 || !all_digits(digits) || digits_value(digits) > usize::MAX {
        None
    } else {
        Some(digits_value(digits) as usize)
    }
}

pub fn push_decimal(n: usize, out: &mut String)
    ensures
        final(out)@ == old(out)@ + decimal(n as nat),
    decreases n,
{
    if n >= 10 {
        push_decimal(n / 10, out);
    }
    let d: u8 = (n % 10) as u8;
    out.push((d + 48) as char);
    proof {
        assert(old(out)@ + decimal(n as nat) == old(out)@ + (if n >= 10 {
            decimal((n / 10) as nat)
        } else {
            Seq::<char>::empty()
        }).push(digit_char((n % 10) as nat)));
    }
}

/// `usize::to_string`.
pub fn decimal_string(n: usize) -> (r: String)
    ensures
        r@ == decimal(n as nat),
{
    let mut out = String::new();
    push_decimal(n, &mut out);
    proof {
        assert(Seq::<char>::empty() + decimal(n as nat) == decimal(n as nat));
    }
    out
}

pub proof fn lemma_digits_value_prefix(s: Seq<char>, i: int)
    requires
        0 <= i <= s.len(),
        all_digits(s),
    ensures
        digits_value(s.take(i)) <= digits_value(s),
    decreases s.len() - i,
{
    if i < s.len() {
        lemma_digits_value_prefix(s, i + 1);
        assert(s.take(i + 1).drop_last() == s.take(i));
    } else {
        assert(s.take(i) == s);
    }
}

/// Parses `v[from..to]` as `usize::from_str` does.
pub fn parse_usize_chars(v: &Vec<char>, from: usize, to: usize) -> (r: Option<usize>)
    requires
        from <= to <= v.len(),
    ensures
        r == parse_usize_spec(v@.subrange(from as int, to as int)),
{
    let ghost s = v@.subrange(from as int, to as int);
    let mut start = from;
    if from < to && v[from] == '+' {
        start = from + 1;
    }
    let ghost digits = v@.subrange(start as int, to as int);
    proof {
        if from < to && v@[from as int] == '+' {
            assert(digits == s.drop_first());
        } else {
            assert(digits == s);
        }
    }
    if start == to {
        return None;
    }
    let mut value: usize = 0;
    let mut i = start;
    while i < to
        invariant
            from <= start <= i <= to <= v.len(),
            digits == v@.subrange(start as int, to as int),
            s == v@.subrange(from as int, to as int),
            digits == (if s.len() > 0 && s[0] == '+' {
                s.drop_first()
            } else {
                s
            }),
            all_digits(digits.take(i - start)),
            value == digits_value(digits.take(i - start)),
        decreases to - i,
    {
        let c = v[i];
        proof {
            assert(digits[i - start] == c);
        }
        if !('0' <= c && c <= '9') {
            proof {
                assert(!is_digit(digits[i - start]));
                assert(!all_digits(digits));
            }
            return None;
        }
        let d: usize = ((c as u32) - 48) as usize;
        proof {
            let p = digits.take(i - start + 1);
            assert(p.drop_last() == digits.take(i - start));
            assert(p.last() == c);
            assert forall|k: int| 0 <= k < p.len() implies is_digit(#[trigger] p[k]) by {
                if k < p.len() - 1 {
                    assert(p[k] == digits.take(i - start)[k]);
                }
            }
        }
        if value > (usize::MAX - d) / 10 {
            proof {
                let p = digits.take(i - start + 1);
                assert(digits_value(p) == value * 10 + d);
                assert(value * 10 + d > usize::MAX) by (nonlinear_arith)
                    requires
                        value > (usize::MAX - d) / 10,
                        d <= 9,
                ;
                if all_digits(digits) {
                    lemma_digits_value_prefix(digits, i - start + 1);
                    assert(digits_value(digits) > usize::MAX);
                }
                assert(digits.len() > 0);
            }
            return None;
        }
        proof {
            assert(value * 10 + d <= usize::MAX) by (nonlinear_arith)
                requires
                    value <= (usize::MAX - d) / 10,
                    d <= 9,
            ;
        }
        value = value * 10 + d;
        i = i + 1;
    }
    proof {
        assert(digits.take(i - start) == digits);
    }
    Some(value)
}

/// `usize::from_str` on a string slice.
pub fn parse_usize(s: &str) -> (r: Option<usize>)
    ensures
        r == parse_usize_spec(s@),
{
    let v = chars_of(s);
    proof {
        assert(v@.subrange(0, v@.len() as int) == v@);
    }
    parse_usize_chars(&v, 0, v.len())
}

/// The fields of `s` separated by `sep`, given that `cur` has already been read
/// of the current field (`str::split` with a character pattern).
pub open spec fn fields_from(s: Seq<char>, sep: char, cur: Seq<char>) -> Seq<Seq<char>>
    decreases s.len(),
{
    if s.len() == 0 {
        seq![cur]
    } else if s[0] == sep {
        seq![cur] + fields_from(s.drop_first(), sep, Seq::empty())
    } else {
        fields_from(s.drop_first(), sep, cur.push(s[0]))
    }
}

pub open spec fn split_spec(s: Seq<char>, sep: char) -> Seq<Seq<char>> {
    fields_from(s, sep, Seq::empty())
}

/// `parts` joined with `sep` between consecutive parts.
pub open spec fn join_spec(parts: Seq<Seq<char>>, sep: char) -> Seq<char>
    decreases parts.len(),
{
    if parts.len() == 0 {
        Seq::empty()
    } else {
        parts[0] + join_tail(parts.drop_first(), sep)
    }
}

/// Each part of `parts` preceded by `sep`.
pub open spec fn join_tail(parts: Seq<Seq<char>>, sep: char) -> Seq<char>
    decreases parts.len(),
{
    if parts.len() == 0 {
        Seq::empty()
    } else {
        seq![sep] + parts[0] + join_tail(parts.drop_first(), sep)
    }
}

pub open spec fn char_views(v: Seq<String>) -> Seq<Seq<char>> {
    v.map_values(|t: String| t@)
}

/// `str::split(sep)` collected into owned strings.
pub fn split_char(s: &str, sep: char) -> (r: Vec<String>)
    ensures
        char_views(r@) == split_spec(s@, sep),
{
    let mut out: Vec<String> = Vec::new();
    let mut cur = String::new();
    proof {
        assert(s@.skip(0) == s@);
        assert(char_views(out@) + split_spec(s@, sep) == split_spec(s@, sep));
    }
    for c in it: s.chars()
        invariant
            it.seq() == s@,
            split_spec(s@, sep) == char_views(out@) + fields_from(
                s@.skip(it.index() as int),
                sep,
                cur@,
            ),
    {
        let ghost rest = s@.skip(it.index() as int);
        let ghost old_cur = cur@;
        proof {
            assert(rest[0] == c);
            assert(rest.drop_first() == s@.skip(it.index() + 1));
        }
        if c == sep {
            let field = cur;
            cur = String::new();
            let ghost before = out@;
            out.push(field);
            proof {
                assert(char_views(out@) == char_views(before) + seq![field@]);
                assert(fields_from(rest, sep, old_cur) == seq![old_cur] + fields_from(
                    rest.drop_first(),
                    sep,
                    Seq::empty(),
                ));
                assert(split_spec(s@, sep) == char_views(out@) + fields_from(
                    s@.skip(it.index() + 1),
                    sep,
                    cur@,
                ));
            }
        } else {
            cur.push(c);
            proof {
                assert(fields_from(rest, sep, old_cur) == fields_from(
                    rest.drop_first(),
                    sep,
                    cur@,
                ));
            }
        }
    }
    proof {
        assert(s@.skip(s@.len() as int) == Seq::<char>::empty());
    }
    let ghost before = out@;
    out.push(cur);
    proof {
        assert(char_views(out@) == char_views(before) + seq![cur@]);
    }
    out
}

/// A field without the separator is read as one piece.
pub proof fn lemma_fields_no_sep(a: Seq<char>, x: Seq<char>, sep: char, cur: Seq<char>)
    requires
        forall|i: int| 0 <= i < a.len() ==> #[trigger] a[i] != sep,
    ensures
        fields_from(a + x, sep, cur) == fields_from(x, sep, cur + a),
    decreases a.len(),
{
    if a.len() > 0 {
        let rest = a.drop_first();
        assert((a + x).drop_first() == rest + x);
        assert((a + x)[0] == a[0]);
        assert(cur.push(a[0]) + rest == cur + a);
        lemma_fields_no_sep(rest, x, sep, cur.push(a[0]));
    } else {
        assert(a + x == x);
        assert(cur + a == cur);
    }
}

/// Splitting undoes joining, when no part holds the separator.
pub proof fn lemma_split_join(parts: Seq<Seq<char>>, sep: char)
    requires
        parts.len() > 0,
        forall|i: int, j: int|
            0 <= i < parts.len() && 0 <= j < parts[i].len() ==> #[trigger] parts[i][j] != sep,
    ensures
        split_spec(join_spec(parts, sep), sep) == parts,
    decreases parts.len(),
{
    let p0 = parts[0];
    let rest = parts.drop_first();
    assert forall|i: int| 0 <= i < p0.len() implies #[trigger] p0[i] != sep by {
        assert(parts[0][i] != sep);
    }
    lemma_fields_no_sep(p0, join_tail(rest, sep), sep, Seq::empty());
    assert(Seq::<char>::empty() + p0 == p0);
    if rest.len() == 0 {
        assert(join_tail(rest, sep) == Seq::<char>::empty());
        assert(p0 + Seq::<char>::empty() == p0);
        assert(parts == seq![p0]);
    } else {
        assert forall|i: int, j: int| 0 <= i < rest.len() && 0 <= j < rest[i].len() implies #[trigger] rest[i][j] != sep by {
            assert(rest[i] == parts[i + 1]);
        }
        lemma_split_join(rest, sep);
        let t = join_tail(rest, sep);
        assert(t == seq![sep] + join_spec(rest, sep));
        assert(t.drop_first() == join_spec(rest, sep));
        assert(parts == seq![p0] + rest);
    }
}

pub proof fn lemma_decimal_digits(n: nat)
    ensures
        decimal(n).len() > 0,
        all_digits(decimal(n)),
        digits_value(decimal(n)) == n,
    decreases n,
{
    if n >= 10 {
        lemma_decimal_digits(n / 10);
        let d = decimal(n);
        assert(d.drop_last() == decimal(n / 10));
        assert forall|i: int| 0 <= i < d.len() implies is_digit(#[trigger] d[i]) by {
            if i < d.len() - 1 {
                assert(d[i] == decimal(n / 10)[i]);
            }
        }
        lemma_digit_char((n % 10) as nat);
        assert(d.last() == digit_char((n % 10) as nat));
        assert(digits_value(d) == digits_value(decimal(n / 10)) * 10 + (n % 10));
        assert((n / 10) * 10 + n % 10 == n);
    } else {
        lemma_digit_char(n);
        let d = decimal(n);
        assert(d.drop_last() == Seq::<char>::empty());
        assert(digits_value(Seq::<char>::empty()) == 0);
        assert(digits_value(d) == n);
    }
}

pub proof fn lemma_digit_char(k: nat)
    requires
        k < 10,
    ensures
        (digit_char(k) as u32) - 48 == k,
        is_digit(digit_char(k)),
{
}

/// `usize::from_str` reads back what `decimal` writes.
pub proof fn lemma_parse_decimal(n: usize)
    ensures
        parse_usize_spec(decimal(n as nat)) == Some(n),
{
    lemma_decimal_digits(n as nat);
    assert(is_digit(decimal(n as nat)[0]));
}

/// The position of the first `c` in `s`.
pub open spec fn first_index_of(s: Seq<char>, c: char) -> Option<nat>
    decreases s.len(),
{
    if s.len() == 0 {
        None
    } else if s[0] == c {
        Some(0)
    } else {
        match first_index_of(s.drop_first(), c) {
            Some(k) => Some(k + 1),
            None => None,
        }
    }
}

/// `str::split_once(c)`: the text before and after the first `c`.
pub open spec fn split_once_spec(s: Seq<char>, c: char) -> Option<(Seq<char>, Seq<char>)> {
    match first_index_of(s, c) {
        Some(k) => Some((s.take(k as int), s.skip(k as int + 1))),
        None => None,
    }
}

pub proof fn lemma_first_index_of(s: Seq<char>, c: char, k: int)
    requires
        0 <= k <= s.len(),
        forall|i: int| 0 <= i < k ==> #[trigger] s[i] != c,
    ensures
        k < s.len() && s[k] == c ==> first_index_of(s, c) == Some(k as nat),
        k == s.len() ==> first_index_of(s, c) is None,
    decreases k,
{
    if k > 0 {
        let t = s.drop_first();
        assert forall|i: int| 0 <= i < k - 1 implies #[trigger] t[i] != c by {
            assert(t[i] == s[i + 1]);
        }
        if k < s.len() {
            assert(t[k - 1] == s[k]);
        }
        lemma_first_index_of(t, c, k - 1);
    } else if s.len() == 0 {
    }
}

/// `str::split_once(c)` into owned strings.
pub fn split_once_char(s: &str, c: char) -> (r: Option<(String, String)>)
    ensures
        match split_once_spec(s@, c) {
            Some((a, b)) => r matches Some((x, y)) && x@ == a && y@ == b,
            None => r is None,
        },
{
    let v = chars_of(s);
    let mut k: usize = 0;
    while k < v.len() && v[k] != c
        invariant
            k <= v@.len(),
            v@ == s@,
            forall|i: int| 0 <= i < k ==> #[trigger] s@[i] != c,
        decreases v@.len() - k,
    {
        k = k + 1;
    }
    proof {
        lemma_first_index_of(s@, c, k as int);
    }
    if k == v.len() {
        return None;
    }
    let before = string_from_chars(&v, 0, k);
    let after = string_from_chars(&v, k + 1, v.len());
    proof {
        assert(before@ == s@.take(k as int));
        assert(after@ == s@.skip(k + 1));
    }
    Some((before, after))
}

/// The word under construction, as a list of zero or one finished words.
pub open spec fn pending_word(cur: Seq<char>) -> Seq<Seq<char>> {
    if cur.len() == 0 {
        Seq::empty()
    } else {
        seq![cur]
    }
}

/// The whitespace-separated words of `s`, given that `cur` has already been read
/// of the current word.
pub open spec fn ws_words_from(s: Seq<char>, cur: Seq<char>) -> Seq<Seq<char>>
    decreases s.len(),
{
    if s.len() == 0 {
        pending_word(cur)
    } else if is_space(s[0]) {
        pending_word(cur) + ws_words_from(s.drop_first(), Seq::empty())
    } else {
        ws_words_from(s.drop_first(), cur.push(s[0]))
    }
}

/// `str::split_whitespace`: the maximal runs of non-whitespace characters.
pub open spec fn ws_words(s: Seq<char>) -> Seq<Seq<char>> {
    ws_words_from(s, Seq::empty())
}

/// `str::split_whitespace` collected into owned strings.
pub fn split_words(s: &str) -> (r: Vec<String>)
    ensures
        char_views(r@) == ws_words(s@),
{
    let mut out: Vec<String> = Vec::new();
    let mut cur = String::new();
    proof {
        assert(s@.skip(0) == s@);
        assert(char_views(out@) + ws_words(s@) == ws_words(s@));
    }
    for c in it: s.chars()
        invariant
            it.seq() == s@,
            ws_words(s@) == char_views(out@) + ws_words_from(s@.skip(it.index() as int), cur@),
    {
        let ghost rest = s@.skip(it.index() as int);
        let ghost old_cur = cur@;
        proof {
            assert(rest[0] == c);
            assert(rest.drop_first() == s@.skip(it.index() + 1));
        }
        if !is_space_char(c) {
            cur.push(c);
            proof {
                assert(ws_words_from(rest, old_cur) == ws_words_from(rest.drop_first(), cur@));
            }
        } else if !cur.as_str().is_empty() {
            let word = cur;
            cur = String::new();
            let ghost before = out@;
            out.push(word);
            proof {
                assert(char_views(out@) == char_views(before) + seq![word@]);
                assert(ws_words_from(rest, old_cur) == pending_word(word@) + ws_words_from(
                    rest.drop_first(),
                    Seq::empty(),
                ));
                assert(ws_words(s@) == char_views(out@) + ws_words_from(
                    s@.skip(it.index() + 1),
                    cur@,
                ));
            }
        } else {
            proof {
                assert(cur@ == Seq::<char>::empty());
                assert(ws_words_from(rest, old_cur) == pending_word(old_cur) + ws_words_from(
                    rest.drop_first(),
                    Seq::empty(),
                ));
                assert(pending_word(cur@) + ws_words_from(
                    s@.skip(it.index() + 1),
                    Seq::empty(),
                ) == ws_words_from(s@.skip(it.index() + 1), Seq::empty()));
            }
        }
    }
    proof {
        assert(s@.skip(s@.len() as int) == Seq::<char>::empty());
    }
    if !cur.as_str().is_empty() {
        let ghost before = out@;
        out.push(cur);
        proof {
            assert(char_views(out@) == char_views(before) + seq![cur@]);
        }
    } else {
        proof {
            assert(char_views(out@) + pending_word(cur@) == char_views(out@));
        }
    }
    out
}

/// `str::strip_prefix`: the rest of `s` after `p`, when `s` begins with `p`.
pub open spec fn strip_prefix_spec(s: Seq<char>, p: Seq<char>) -> Option<Seq<char>> {
    if p.is_prefix_of(s) {
        Some(s.skip(p.len() as int))
    } else {
        None
    }
}

/// `str::strip_prefix` into an owned string.
pub fn strip_prefix(s: &str, p: &str) -> (r: Option<String>)
    ensures
        match strip_prefix_spec(s@, p@) {
            Some(rest) => r matches Some(t) && t@ == rest,
            None => r is None,
        },
{
    let v = chars_of(s);
    let w = chars_of(p);
    if w.len() > v.len() {
        return None;
    }
    let mut i: usize = 0;
    while i < w.len()
        invariant
            v@ == s@,
            w@ == p@,
            w@.len() <= v@.len(),
            i <= w@.len(),
            forall|k: int| 0 <= k < i ==> v@[k] == w@[k],
        decreases w@.len() - i,
    {
        if v[i] != w[i] {
            proof {
                assert(!p@.is_prefix_of(s@)) by {
                    if p@.is_prefix_of(s@) {
                        assert(s@.take(p@.len() as int)[i as int] == s@[i as int]);
                    }
                }
            }
            return None;
        }
        i = i + 1;
    }
    proof {
        assert(s@.take(p@.len() as int) =~= p@);
    }
    let rest = string_from_chars(&v, w.len(), v.len());
    proof {
        assert(rest@ =~= s@.skip(p@.len() as int));
    }
    Some(rest)
}

/// The position of the first whitespace character of `s`.
pub open spec fn first_space(s: Seq<char>) -> Option<nat>
    decreases s.len(),
{
    if s.len() == 0 {
        None
    } else if is_space(s[0]) {
        Some(0)
    } else {
        match first_space(s.drop_first()) {
            Some(k) => Some(k + 1),
            None => None,
        }
    }
}

pub proof fn lemma_first_space(s: Seq<char>, k: int)
    requires
        0 <= k <= s.len(),
        forall|i: int| 0 <= i < k ==> !is_space(#[trigger] s[i]),
    ensures
        k < s.len() && is_space(s[k]) ==> first_space(s) == Some(k as nat),
        k == s.len() ==> first_space(s) is None,
    decreases k,
{
    if k > 0 {
        let t = s.drop_first();
        assert forall|i: int| 0 <= i < k - 1 implies !is_space(#[trigger] t[i]) by {
            assert(t[i] == s[i + 1]);
        }
        if k < s.len() {
            assert(t[k - 1] == s[k]);
        }
        lemma_first_space(t, k - 1);
    }
}

/// `str::split_once(char::is_whitespace)` into owned strings: the text before and
/// after the first whitespace character.
pub fn split_once_space(s: &str) -> (r: Option<(String, String)>)
    ensures
        match first_space(s@) {
            Some(k) => r matches Some((x, y)) && x@ == s@.take(k as int) && y@ == s@.skip(
                k as int + 1,
            ),
            None => r is None,
        },
{
    let v = chars_of(s);
    let mut k: usize = 0;
    while k < v.len() && !is_space_char(v[k])
        invariant
            k <= v@.len(),
            v@ == s@,
            forall|i: int| 0 <= i < k ==> !is_space(#[trigger] s@[i]),
        decreases v@.len() - k,
    {
        k = k + 1;
    }
    proof {
        lemma_first_space(s@, k as int);
    }
    if k == v.len() {
        return None;
    }
    let before = string_from_chars(&v, 0, k);
    let after = string_from_chars(&v, k + 1, v.len());
    proof {
        assert(before@ == s@.take(k as int));
        assert(after@ == s@.skip(k + 1));
    }
    Some((before, after))
}

/// A line without the carriage return of a `\r\n` ending.
pub open spec fn strip_cr(line: Seq<char>) -> Seq<char> {
    if line.len() > 0 && line.last() == '\r' {
        line.drop_last()
    } else {
        line
    }
}

/// `str::lines`: the pieces between `\n`s, each without a `\r` before its `\n`;
/// the text after the last `\n` is a line only when it is not empty, and keeps a
/// final `\r`.
pub open spec fn lines_spec(s: Seq<char>) -> Seq<Seq<char>> {
    let parts = split_spec(s, '\n');
    let ended = parts.drop_last().map_values(|l: Seq<char>| strip_cr(l));
    if parts.last().len() > 0 {
        ended.push(parts.last())
    } else {
        ended
    }
}

pub proof fn lemma_fields_nonempty(s: Seq<char>, sep: char, cur: Seq<char>)
    ensures
        fields_from(s, sep, cur).len() >= 1,
    decreases s.len(),
{
    if s.len() > 0 {
        if s[0] == sep {
            lemma_fields_nonempty(s.drop_first(), sep, Seq::empty());
        } else {
            lemma_fields_nonempty(s.drop_first(), sep, cur.push(s[0]));
        }
    }
}

fn without_cr(line: &String) -> (r: String)
    ensures
        r@ == strip_cr(line@),
{
    let v = chars_of(line.as_str());
    if v.len() > 0 && v[v.len() - 1] == '\r' {
        let r = string_from_chars(&v, 0, v.len() - 1);
        proof {
            assert(r@ =~= line@.drop_last());
        }
        r
    } else {
        let r = string_from_chars(&v, 0, v.len());
        proof {
            assert(r@ =~= line@);
        }
        r
    }
}

/// `str::lines` collected into owned strings.
pub fn lines_of(s: &str) -> (r: Vec<String>)
    ensures
        char_views(r@) == lines_spec(s@),
{
    let parts = split_char(s, '\n');
    let ghost ps = split_spec(s@, '\n');
    proof {
        lemma_fields_nonempty(s@, '\n', Seq::empty());
        assert(char_views(parts@).len() == parts@.len());
    }
    let n = parts.len();
    let mut out: Vec<String> = Vec::new();
    let mut i: usize = 0;
    while i + 1 < n
        invariant
            n == parts@.len() >= 1,
            char_views(parts@) == ps,
            i + 1 <= n,
            char_views(out@) == ps.drop_last().take(i as int).map_values(|l: Seq<char>| strip_cr(l)),
        decreases n - i,
    {
        let line = without_cr(&parts[i]);
        let ghost before = out@;
        out.push(line);
        proof {
            assert(ps[i as int] == parts@[i as int]@);
            assert(char_views(out@) == char_views(before).push(line@));
            assert(ps.drop_last().take(i + 1) == ps.drop_last().take(i as int).push(ps[i as int]));
            assert(char_views(out@) =~= ps.drop_last().take(i + 1).map_values(
                |l: Seq<char>| strip_cr(l),
            ));
        }
        i = i + 1;
    }
    proof {
        assert(ps.drop_last().take(i as int) == ps.drop_last());
        assert(ps.last() == parts@[n - 1]@);
    }
    if !parts[n - 1].as_str().is_empty() {
        let mut last = String::new();
        push_str(&mut last, parts[n - 1].as_str());
        let ghost before = out@;
        out.push(last);
        proof {
            assert(char_views(out@) == char_views(before).push(last@));
        }
    }
    out
}

/// The position of the first occurrence of `p` in `s`.
pub open spec fn find_str_spec(s: Seq<char>, p: Seq<char>) -> Option<nat>
    decreases s.len(),
{
    if p.is_prefix_of(s) {
        Some(0)
    } else if s.len() == 0 {
        None
    } else {
        match find_str_spec(s.drop_first(), p) {
            Some(k) => Some(k + 1),
            None => None,
        }
    }
}

/// `str::split_once` with a string pattern: the text before and after the first
/// occurrence of `p`.
pub open spec fn split_once_str_spec(s: Seq<char>, p: Seq<char>) -> Option<(Seq<char>, Seq<char>)> {
    match find_str_spec(s, p) {
        Some(k) => Some((s.take(k as int), s.skip(k as int + p.len()))),
        None => None,
    }
}

/// `str::split` with a non-empty string pattern: the pieces between the
/// occurrences of `p`, found from left to right.
pub open spec fn split_str_spec(s: Seq<char>, p: Seq<char>) -> Seq<Seq<char>>
    decreases s.len(),
{
    if p.len() == 0 {
        seq![s]
    } else {
        match find_str_spec(s, p) {
            Some(k) => if k + p.len() <= s.len() {
                seq![s.take(k as int)] + split_str_spec(s.skip(k as int + p.len()), p)
            } else {
                seq![s]
            },
            None => seq![s],
        }
    }
}

/// `parts` joined with the string `p` between consecutive parts (`[..].join(p)`).
pub open spec fn join_str_spec(parts: Seq<Seq<char>>, p: Seq<char>) -> Seq<char>
    decreases parts.len(),
{
    if parts.len() == 0 {
        Seq::empty()
    } else if parts.len() == 1 {
        parts[0]
    } else {
        parts[0] + p + join_str_spec(parts.drop_first(), p)
    }
}

/// `c` does not occur in `s`.
pub open spec fn lacks_char(s: Seq<char>, c: char) -> bool {
    forall|i: int| 0 <= i < s.len() ==> s[i] != c
}

/// Splitting on a pattern gives back the parts it joined, when no part holds the
/// pattern's first character.
pub proof fn lemma_split_str_join(parts: Seq<Seq<char>>, p: Seq<char>)
    requires
        parts.len() > 0,
        p.len() > 0,
        forall|j: int| 0 <= j < parts.len() ==> lacks_char(#[trigger] parts[j], p[0]),
    ensures
        split_str_spec(join_str_spec(parts, p), p) == parts,
    decreases parts.len(),
{
    let s = join_str_spec(parts, p);
    let first = parts[0];
    assert(lacks_char(first, p[0]));
    assert forall|i: int| 0 <= i < first.len() implies !occurs_at(s, p, i) by {
        if occurs_at(s, p, i) {
            assert(s.subrange(i, i + p.len())[0] == s[i]);
            assert(s[i] == first[i]);
        }
    }
    if parts.len() == 1 {
        assert(s == first);
        lemma_find_str(s, p, first.len() as int);
        assert(seq![s] == parts);
    } else {
        let rest = parts.drop_first();
        let t = join_str_spec(rest, p);
        assert(s == first + p + t);
        assert(occurs_at(s, p, first.len() as int)) by {
            assert(s.subrange(first.len() as int, (first.len() + p.len()) as int) =~= p);
        }
        lemma_find_str(s, p, first.len() as int);
        assert(s.take(first.len() as int) == first);
        assert(s.skip((first.len() + p.len()) as int) == t);
        assert forall|j: int| 0 <= j < rest.len() implies lacks_char(#[trigger] rest[j], p[0]) by {
            assert(rest[j] == parts[j + 1]);
        }
        lemma_split_str_join(rest, p);
        assert(seq![first] + rest == parts);
    }
}

/// `p` occurs in `s` at position `k`.
pub open spec fn occurs_at(s: Seq<char>, p: Seq<char>, k: int) -> bool {
    0 <= k && k + p.len() <= s.len() && s.subrange(k, k + p.len()) == p
}

pub proof fn lemma_find_str(s: Seq<char>, p: Seq<char>, k: int)
    requires
        0 <= k <= s.len(),
        forall|i: int| 0 <= i < k ==> !occurs_at(s, p, i),
    ensures
        occurs_at(s, p, k) ==> find_str_spec(s, p) == Some(k as nat),
        k + p.len() > s.len() ==> find_str_spec(s, p) is None,
    decreases k,
{
    if k == 0 {
        if occurs_at(s, p, 0) {
            assert(s.take(p.len() as int) == s.subrange(0, p.len() as int));
        }
        if p.len() > s.len() {
            lemma_find_none_short(s, p);
        }
    } else {
        let t = s.drop_first();
        assert(!occurs_at(s, p, 0));
        assert(!p.is_prefix_of(s)) by {
            if p.is_prefix_of(s) {
                assert(s.subrange(0, p.len() as int) == p);
            }
        }
        assert forall|i: int| 0 <= i < k - 1 implies !occurs_at(t, p, i) by {
            if occurs_at(t, p, i) {
                assert(s.subrange(i + 1, i + 1 + p.len()) == t.subrange(i, i + p.len()));
                assert(occurs_at(s, p, i + 1));
            }
        }
        if occurs_at(s, p, k) {
            assert(t.subrange(k - 1, k - 1 + p.len()) == s.subrange(k, k + p.len()));
        }
        lemma_find_str(t, p, k - 1);
    }
}

pub proof fn lemma_find_none_short(s: Seq<char>, p: Seq<char>)
    requires
        p.len() > s.len(),
    ensures
        find_str_spec(s, p) is None,
    decreases s.len(),
{
    if s.len() > 0 {
        lemma_find_none_short(s.drop_first(), p);
    }
}

pub proof fn lemma_find_str_bound(s: Seq<char>, p: Seq<char>)
    ensures
        find_str_spec(s, p) matches Some(k) ==> k + p.len() <= s.len() && occurs_at(s, p, k as int),
    decreases s.len(),
{
    if p.is_prefix_of(s) {
        assert(s.subrange(0, p.len() as int) == s.take(p.len() as int));
    } else if s.len() > 0 {
        let t = s.drop_first();
        lemma_find_str_bound(t, p);
        if let Some(k) = find_str_spec(t, p) {
            assert(s.subrange(k as int + 1, k as int + 1 + p.len()) == t.subrange(k as int, k as int + p.len()));
        }
    }
}

/// Whether `w` occurs in the characters `v` at position `k`.
fn occurs_at_exec(v: &Vec<char>, w: &Vec<char>, k: usize) -> (r: bool)
    requires
        k <= v@.len(),
    ensures
        r == occurs_at(v@, w@, k as int),
{
    let n = v.len();
    if w.len() > n - k {
        return false;
    }
    let mut i: usize = 0;
    while i < w.len()
        invariant
            n == v@.len(),
            k + w@.len() <= n,
            i <= w@.len(),
            forall|j: int| 0 <= j < i ==> v@[k + j] == w@[j],
        decreases w@.len() - i,
    {
        if v[k + i] != w[i] {
            proof {
                assert(v@.subrange(k as int, k + w@.len())[i as int] == v@[k + i]);
            }
            return false;
        }
        i = i + 1;
    }
    proof {
        assert(v@.subrange(k as int, k + w@.len()) =~= w@);
    }
    true
}

/// The position of the first occurrence of `w` in `v` at or after `from`.
fn find_from(v: &Vec<char>, w: &Vec<char>, from: usize) -> (r: Option<usize>)
    requires
        from <= v@.len(),
    ensures
        match find_str_spec(v@.skip(from as int), w@) {
            Some(k) => r == Some((from + k) as usize) && from + k + w@.len() <= v@.len(),
            None => r is None,
        },
{
    let n = v.len();
    let ghost t = v@.skip(from as int);
    let mut k: usize = from;
    while k < n
        invariant
            from <= k <= n,
            n == v@.len(),
            t == v@.skip(from as int),
            forall|i: int| 0 <= i < k - from ==> !occurs_at(t, w@, i),
        decreases n - k,
    {
        let found = occurs_at_exec(v, w, k);
        proof {
            if k + w@.len() <= n {
                assert(t.subrange(k - from, k - from + w@.len()) == v@.subrange(
                    k as int,
                    k + w@.len(),
                ));
            }
        }
        if found {
            proof {
                lemma_find_str(t, w@, k - from);
            }
            return Some(k);
        }
        k = k + 1;
    }
    let found = occurs_at_exec(v, w, k);
    proof {
        if k + w@.len() <= n {
            assert(t.subrange(k - from, k - from + w@.len()) == v@.subrange(k as int, k + w@.len()));
        }
        lemma_find_str(t, w@, k - from);
    }
    if found {
        return Some(k);
    }
    proof {
        assert(w@.len() > 0) by {
            if w@.len() == 0 {
                assert(t.subrange(k - from, k - from) =~= w@);
            }
        }
    }
    None
}

/// `str::split_once` with a string pattern, into owned strings.
pub fn split_once_str(s: &str, p: &str) -> (r: Option<(String, String)>)
    ensures
        match split_once_str_spec(s@, p@) {
            Some((a, b)) => r matches Some((x, y)) && x@ == a && y@ == b,
            None => r is None,
        },
{
    let v = chars_of(s);
    let w = chars_of(p);
    proof {
        assert(v@.skip(0) == v@);
    }
    match find_from(&v, &w, 0) {
        Some(k) => {
            proof {
                assert(find_str_spec(s@, p@) == Some(k as nat));
            }
            let before = string_from_chars(&v, 0, k);
            let after = string_from_chars(&v, k + w.len(), v.len());
            proof {
                assert(before@ == s@.take(k as int));
                assert(after@ == s@.skip(k + p@.len()));
            }
            Some((before, after))
        },
        None => None,
    }
}

/// `str::split` with a non-empty string pattern, into owned strings.
pub fn split_str(s: &str, p: &str) -> (r: Vec<String>)
    requires
        p@.len() > 0,
    ensures
        char_views(r@) == split_str_spec(s@, p@),
{
    let v = chars_of(s);
    let w = chars_of(p);
    let mut out: Vec<String> = Vec::new();
    let mut from: usize = 0;
    proof {
        assert(v@.skip(0) == v@);
    }
    loop
        invariant
            v@ == s@,
            w@ == p@,
            w@.len() > 0,
            from <= v@.len(),
            split_str_spec(s@, p@) == char_views(out@) + split_str_spec(v@.skip(from as int), p@),
        decreases v@.len() - from,
    {
        let ghost rest = v@.skip(from as int);
        match find_from(&v, &w, from) {
            Some(k) => {
                let piece = string_from_chars(&v, from, k);
                proof {
                    let kk = (k - from) as nat;
                    assert(find_str_spec(rest, p@) == Some(kk));
                    assert(kk + p@.len() <= rest.len());
                    assert(piece@ == rest.take(kk as int));
                    assert(rest.skip(kk as int + p@.len()) == v@.skip(k + w@.len()));
                    assert(split_str_spec(rest, p@) == seq![piece@] + split_str_spec(
                        v@.skip(k + w@.len()),
                        p@,
                    ));
                }
                let ghost before = out@;
                out.push(piece);
                proof {
                    assert(char_views(out@) == char_views(before) + seq![piece@]);
                }
                from = k + w.len();
            },
            None => {
                let piece = string_from_chars(&v, from, v.len());
                proof {
                    assert(piece@ == rest);
                    assert(split_str_spec(rest, p@) == seq![rest]);
                }
                let ghost before = out@;
                out.push(piece);
                proof {
                    assert(char_views(out@) == char_views(before) + seq![piece@]);
                }
                return out;
            },
        }
    }
}

/// `str::strip_suffix` with a character, into an owned string.
pub fn strip_suffix_char(s: &str, c: char) -> (r: Option<String>)
    ensures
        s@.len() > 0 && s@.last() == c ==> (r matches Some(t) && t@ == s@.drop_last()),
        !(s@.len() > 0 && s@.last() == c) ==> r is None,
{
    let v = chars_of(s);
    if v.len() > 0 && v[v.len() - 1] == c {
        let t = string_from_chars(&v, 0, v.len() - 1);
        proof {
            assert(t@ =~= s@.drop_last());
        }
        Some(t)
    } else {
        None
    }
}

/// The lowercase form of a string, by the Unicode `Lowercase` mapping.
pub uninterp spec fn lowercase_spec(s: Seq<char>) -> Seq<char>;

/// `str::to_lowercase`: the string's lowercase equivalent as a new `String`.
#[verifier::external_body]
pub fn to_lowercase(s: &str) -> (r: String)
    ensures
        r@ == lowercase_spec(s@),
{
    s.to_lowercase()
}

/// Appends the characters of `s`.
pub fn push_str(out: &mut String, s: &str)
    ensures
        final(out)@ == old(out)@ + s@,
{
    let chars = chars_of(s);
    let mut i: usize = 0;
    while i < chars.len()
        invariant
            i <= chars@.len(),
            chars@ == s@,
            out@ == old(out)@ + s@.take(i as int),
        decreases chars@.len() - i,
    {
        out.push(chars[i]);
        proof {
            assert(s@.take(i + 1) == s@.take(i as int).push(s@[i as int]));
        }
        i = i + 1;
    }
    proof {
        assert(s@.take(i as int) == s@);
    }
}

} // verus!
