//! Text as sequences of characters: trimming, searching, splitting and numerals.
use vstd::prelude::*;
use vstd::slice::slice_subrange;

verus! {

/// The characters of `s`.
pub fn chars_of(s: &str) -> (r: Vec<char>)
    ensures
        r@ == s@,
{
    let mut out: Vec<char> = Vec::new();
    for c in it: s.chars()
        invariant
            out@ == it.seq().take(it.index() as int),
            it.seq() == s@,
    {
        out.push(c);
    }
    out
}

/// The text made of `chars`, by `String::from_iter`: the string holds the given
/// characters in order.
#[verifier::external_body]
pub(crate) fn text_of(chars: &[char]) -> (r: String)
    ensures
        r@ == chars@,
{
    String::from_iter(chars)
}

/// Whether a character has the Unicode property White_Space.
pub open spec fn is_space(c: char) -> bool {
    ||| '\u{9}' <= c <= '\u{d}'
    ||| c == ' '
    ||| c == '\u{85}'
    ||| c == '\u{a0}'
    ||| c == '\u{1680}'
    ||| '\u{2000}' <= c <= '\u{200a}'
    ||| c == '\u{2028}'
    ||| c == '\u{2029}'
    ||| c == '\u{202f}'
    ||| c == '\u{205f}'
    ||| c == '\u{3000}'
}

/// Whether `c` has the Unicode property White_Space.
pub fn is_white_space(c: char) -> (r: bool)
    ensures
        r == is_space(c),
{
    ('\u{9}' <= c && c <= '\u{d}') || c == ' ' || c == '\u{85}' || c == '\u{a0}' || c == '\u{1680}'
        || ('\u{2000}' <= c && c <= '\u{200a}') || c == '\u{2028}' || c == '\u{2029}' || c
        == '\u{202f}' || c == '\u{205f}' || c == '\u{3000}'
}

/// Whether a character is an ASCII decimal digit.
pub open spec fn is_digit(c: char) -> bool {
    '0' <= c <= '9'
}

/// Whether `c` is an ASCII decimal digit.
pub fn is_ascii_digit(c: char) -> (r: bool)
    ensures
        r == is_digit(c),
{
    '0' <= c && c <= '9'
}

/// Whether a character is an ASCII letter or digit.
pub open spec fn is_alphanumeric(c: char) -> bool {
    is_digit(c) || 'a' <= c <= 'z' || 'A' <= c <= 'Z'
}

/// Whether `c` is an ASCII letter or digit.
pub fn is_ascii_alphanumeric(c: char) -> (r: bool)
    ensures
        r == is_alphanumeric(c),
{
    ('0' <= c && c <= '9') || ('a' <= c && c <= 'z') || ('A' <= c && c <= 'Z')
}

/// The text without the white space at its start.
pub open spec fn without_leading_space(s: Seq<char>) -> Seq<char>
    decreases s.len(),
{
    if s.len() > 0 && is_space(s[0]) {
        without_leading_space(s.drop_first())
    } else {
        s
    }
}

/// The text without the white space at its end.
pub open spec fn without_trailing_space(s: Seq<char>) -> Seq<char>
    decreases s.len(),
{
    if s.len() > 0 && is_space(s.last()) {
        without_trailing_space(s.drop_last())
    } else {
        s
    }
}

/// The text without the white space around it.
pub open spec fn trimmed(s: Seq<char>) -> Seq<char> {
    without_trailing_space(without_leading_space(s))
}

/// The text from its `i`-th character on.
pub fn rest_from<'a>(s: &'a [char], i: usize) -> (r: &'a [char])
    requires
        i <= s@.len(),
    ensures
        r@ == s@.skip(i as int),
{
    slice_subrange(s, i, s.len())
}

/// The first `i` characters of the text.
pub fn first_part<'a>(s: &'a [char], i: usize) -> (r: &'a [char])
    requires
        i <= s@.len(),
    ensures
        r@ == s@.take(i as int),
{
    slice_subrange(s, 0, i)
}

/// The text without the white space at its start.
pub fn trim_start<'a>(s: &'a [char]) -> (r: &'a [char])
    ensures
        r@ == without_leading_space(s@),
        r@.len() <= s@.len(),
{
    let mut i: usize = 0;
    assert(s@.skip(0) =~= s@);
    while i < s.len() && is_white_space(s[i])
        invariant
            i <= s@.len(),
            without_leading_space(s@.skip(i as int)) == without_leading_space(s@),
        decreases s@.len() - i,
    {
        assert(s@.skip(i as int).drop_first() =~= s@.skip(i + 1));
        i = i + 1;
    }
    rest_from(s, i)
}

/// The text without the white space at its end.
pub fn trim_end<'a>(s: &'a [char]) -> (r: &'a [char])
    ensures
        r@ == without_trailing_space(s@),
        r@.len() <= s@.len(),
{
    let mut n: usize = s.len();
    assert(s@.take(n as int) =~= s@);
    while n > 0 && is_white_space(s[n - 1])
        invariant
            n <= s@.len(),
            without_trailing_space(s@.take(n as int)) == without_trailing_space(s@),
        decreases n,
    {
        assert(s@.take(n as int).drop_last() =~= s@.take(n - 1));
        n = n - 1;
    }
    first_part(s, n)
}

/// The text without the white space around it.
pub fn trim<'a>(s: &'a [char]) -> (r: &'a [char])
    ensures
        r@ == trimmed(s@),
        r@.len() <= s@.len(),
{
    trim_end(trim_start(s))
}

/// White space before a text is what leading white space is.
pub proof fn lemma_leading_space(space: Seq<char>, t: Seq<char>)
    requires
        forall|i: int| 0 <= i < space.len() ==> is_space(#[trigger] space[i]),
        t.len() == 0 || !is_space(t[0]),
    ensures
        without_leading_space(space + t) == t,
    decreases space.len(),
{
    if space.len() == 0 {
        assert(space + t =~= t);
    } else {
        let rest = space.drop_first();
        assert((space + t).drop_first() =~= rest + t);
        assert(is_space(space[0]));
        assert forall|i: int| 0 <= i < rest.len() implies is_space(#[trigger] rest[i]) by {
            assert(rest[i] == space[i + 1]);
        }
        lemma_leading_space(rest, t);
    }
}

/// White space behind a text is what trailing white space is.
pub proof fn lemma_trailing_space(t: Seq<char>, space: Seq<char>)
    requires
        forall|i: int| 0 <= i < space.len() ==> is_space(#[trigger] space[i]),
        t.len() == 0 || !is_space(t.last()),
    ensures
        without_trailing_space(t + space) == t,
    decreases space.len(),
{
    if space.len() == 0 {
        assert(t + space =~= t);
    } else {
        let rest = space.drop_last();
        assert((t + space).drop_last() =~= t + rest);
        assert(is_space(space[space.len() - 1]));
        assert forall|i: int| 0 <= i < rest.len() implies is_space(#[trigger] rest[i]) by {
            assert(rest[i] == space[i]);
        }
        lemma_trailing_space(t, rest);
    }
}

/// Whether `s` starts with `p`.
pub open spec fn has_prefix(s: Seq<char>, p: Seq<char>) -> bool {
    p.len() <= s.len() && s.take(p.len() as int) == p
}

/// Whether `s` ends with `p`.
pub open spec fn has_suffix(s: Seq<char>, p: Seq<char>) -> bool {
    p.len() <= s.len() && s.skip(s.len() - p.len()) == p
}

/// Whether two texts are the same.
pub fn same(a: &[char], b: &[char]) -> (r: bool)
    ensures
        r == (a@ == b@),
{
    if a.len() != b.len() {
        return false;
    }
    let mut i: usize = 0;
    while i < a.len()
        invariant
            i <= a@.len(),
            a@.len() == b@.len(),
            forall|j: int| 0 <= j < i ==> a@[j] == b@[j],
        decreases a@.len() - i,
    {
        if a[i] != b[i] {
            return false;
        }
        i = i + 1;
    }
    assert(a@ =~= b@);
    true
}

/// Whether two texts are the same.
pub fn same_text(a: &str, b: &str) -> (r: bool)
    ensures
        r == (a@ == b@),
{
    let x = chars_of(a);
    let y = chars_of(b);
    same(x.as_slice(), y.as_slice())
}

/// Whether `s` starts with `p`.
pub fn starts_with(s: &[char], p: &[char]) -> (r: bool)
    ensures
        r == has_prefix(s@, p@),
{
    p.len() <= s.len() && same(first_part(s, p.len()), p)
}

/// Whether `s` ends with `p`.
pub fn ends_with(s: &[char], p: &[char]) -> (r: bool)
    ensures
        r == has_suffix(s@, p@),
{
    p.len() <= s.len() && same(rest_from(s, s.len() - p.len()), p)
}

/// Whether `p` stands in `s` at place `i`.
pub open spec fn occurs_at(s: Seq<char>, p: Seq<char>, i: nat) -> bool {
    i + p.len() <= s.len() && s.subrange(i as int, (i + p.len()) as int) == p
}

/// The first place from `i` on at which `p` stands in `s`.
pub open spec fn next_place(s: Seq<char>, p: Seq<char>, i: nat) -> Option<nat>
    decreases s.len() + 1 - i,
{
    if i + p.len() > s.len() {
        None
    } else if occurs_at(s, p, i) {
        Some(i)
    } else {
        next_place(s, p, i + 1)
    }
}

/// The first place at which `p` stands in `s`.
pub open spec fn first_place(s: Seq<char>, p: Seq<char>) -> Option<nat> {
    next_place(s, p, 0)
}

/// Whether `p` stands anywhere in `s`.
pub open spec fn holds(s: Seq<char>, p: Seq<char>) -> bool {
    first_place(s, p) is Some
}

/// A place that the search gives lies where it should.
pub proof fn lemma_next_place(s: Seq<char>, p: Seq<char>, i: nat)
    ensures
        match next_place(s, p, i) {
            Some(k) => i <= k && occurs_at(s, p, k) && forall|j: nat|
                i <= j < k ==> !#[trigger] occurs_at(s, p, j),
            None => forall|j: nat| i <= j ==> !#[trigger] occurs_at(s, p, j),
        },
    decreases s.len() + 1 - i,
{
    if i + p.len() > s.len() {
    } else if occurs_at(s, p, i) {
    } else {
        lemma_next_place(s, p, i + 1);
    }
}

/// Whether `p` stands somewhere in `s`.
pub open spec fn has_part(s: Seq<char>, p: Seq<char>) -> bool {
    exists|i: int|
        0 <= i && i + p.len() <= s.len() && #[trigger] s.subrange(i, i + p.len()) == p
}

/// A text holds another exactly where the other stands in it.
pub proof fn law_held_is_a_part(s: Seq<char>, p: Seq<char>)
    ensures
        holds(s, p) == has_part(s, p),
{
    lemma_next_place(s, p, 0);
    if holds(s, p) {
        let k = first_place(s, p)->0;
        assert(s.subrange(k as int, k as int + p.len()) == p);
    }
    if has_part(s, p) {
        let i = choose|i: int|
            0 <= i && i + p.len() <= s.len() && #[trigger] s.subrange(i, i + p.len()) == p;
        assert(occurs_at(s, p, i as nat));
    }
}

/// The first place at which a text stands is the one before which it stands nowhere.
pub proof fn law_first_place(a: Seq<char>, p: Seq<char>, b: Seq<char>)
    requires
        forall|i: int|
            0 <= i < a.len() ==> #[trigger] (a + p + b).subrange(i, i + p.len()) != p,
    ensures
        first_place(a + p + b, p) == Some(a.len()),
{
    let s = a + p + b;
    lemma_next_place(s, p, 0);
    assert(s.subrange(a.len() as int, (a.len() + p.len()) as int) =~= p);
    assert(occurs_at(s, p, a.len()));
    let k = first_place(s, p)->0;
    if k < a.len() {
        assert(s.subrange(k as int, k as int + p.len()) == p);
    }
}

/// The first place from `from` on at which `p` stands in `s`.
pub fn find_from(s: &[char], p: &[char], from: usize) -> (r: Option<usize>)
    requires
        from <= s@.len(),
    ensures
        match (r, next_place(s@, p@, from as nat)) {
            (Some(k), Some(e)) => k == e && from <= k && k + p@.len() <= s@.len(),
            (None, None) => true,
            _ => false,
        },
{
    if p.len() > s.len() {
        return None;
    }
    let n: usize = s.len();
    let last: usize = n - p.len();
    let mut i: usize = from;
    while i <= last
        invariant
            from <= i <= s@.len(),
            n == s@.len(),
            last + p@.len() == n,
            next_place(s@, p@, i as nat) == next_place(s@, p@, from as nat),
            i <= last || i == last + 1 || i == from,
        decreases s@.len() + 1 - i,
    {
        if same(slice_subrange(s, i, i + p.len()), p) {
            return Some(i);
        }
        if i == n {
            assert(next_place(s@, p@, (i + 1) as nat) is None);
            return None;
        }
        i = i + 1;
    }
    None
}

/// The first place at which `p` stands in `s`.
pub fn find(s: &[char], p: &[char]) -> (r: Option<usize>)
    ensures
        match (r, first_place(s@, p@)) {
            (Some(k), Some(e)) => k == e && k + p@.len() <= s@.len(),
            (None, None) => true,
            _ => false,
        },
{
    find_from(s, p, 0)
}

/// Whether `p` stands anywhere in `s`.
pub fn contains(s: &[char], p: &str) -> (r: bool)
    ensures
        r == holds(s@, p@),
{
    let pattern = chars_of(p);
    find(s, pattern.as_slice()).is_some()
}

/// The text without `c` at its start, or the text where it does not start so.
pub open spec fn without_prefix_char(s: Seq<char>, c: char) -> Seq<char> {
    if s.len() > 0 && s[0] == c {
        s.drop_first()
    } else {
        s
    }
}

/// The text without `c` at its start, or the text where it does not start so.
pub fn skip_char<'a>(s: &'a [char], c: char) -> (r: &'a [char])
    ensures
        r@ == without_prefix_char(s@, c),
{
    if s.len() > 0 && s[0] == c {
        assert(s@.skip(1) =~= s@.drop_first());
        rest_from(s, 1)
    } else {
        s
    }
}

/// The number of characters before the first that `keep` does not accept.
pub open spec fn run_length(s: Seq<char>, keep: spec_fn(char) -> bool) -> nat
    decreases s.len(),
{
    if s.len() > 0 && keep(s[0]) {
        1 + run_length(s.drop_first(), keep)
    } else {
        0
    }
}

/// A run is the longest prefix that `keep` accepts throughout.
pub proof fn lemma_run_length(s: Seq<char>, keep: spec_fn(char) -> bool, n: nat)
    requires
        n <= s.len(),
        forall|j: int| 0 <= j < n ==> keep(#[trigger] s[j]),
        n < s.len() ==> !keep(s[n as int]),
    ensures
        run_length(s, keep) == n,
    decreases s.len(),
{
    if n > 0 {
        assert(keep(s[0]));
        let t = s.drop_first();
        assert forall|j: int| 0 <= j < n - 1 implies keep(#[trigger] t[j]) by {
            assert(t[j] == s[j + 1]);
        }
        lemma_run_length(t, keep, (n - 1) as nat);
    }
}

/// What a run is: all of it is accepted, and what follows it is not.
pub proof fn lemma_run_is(s: Seq<char>, keep: spec_fn(char) -> bool)
    ensures
        run_length(s, keep) <= s.len(),
        forall|j: int| 0 <= j < run_length(s, keep) ==> keep(#[trigger] s[j]),
        run_length(s, keep) < s.len() ==> !keep(s[run_length(s, keep) as int]),
    decreases s.len(),
{
    if s.len() > 0 && keep(s[0]) {
        let t = s.drop_first();
        lemma_run_is(t, keep);
        assert forall|j: int| 0 <= j < run_length(s, keep) implies keep(#[trigger] s[j]) by {
            if j > 0 {
                assert(t[j - 1] == s[j]);
            }
        }
    }
}

/// The number that a sequence of decimal digits writes.
pub open spec fn decimal_value(s: Seq<char>) -> nat
    decreases s.len(),
{
    if s.len() == 0 {
        0
    } else {
        decimal_value(s.drop_last()) * 10 + (s.last() as nat - '0' as nat) as nat
    }
}

/// Whether every character is a decimal digit.
pub open spec fn all_digits(s: Seq<char>) -> bool {
    forall|i: int| 0 <= i < s.len() ==> is_digit(#[trigger] s[i])
}

/// Whether every character is a decimal digit.
pub fn is_all_digits(s: &[char]) -> (r: bool)
    ensures
        r == all_digits(s@),
{
    let mut i: usize = 0;
    while i < s.len()
        invariant
            i <= s@.len(),
            forall|j: int| 0 <= j < i ==> is_digit(#[trigger] s@[j]),
        decreases s@.len() - i,
    {
        if !is_ascii_digit(s[i]) {
            return false;
        }
        i = i + 1;
    }
    true
}

/// The unsigned integer that a text writes, where it is no larger than `max`: an
/// optional plus sign and at least one decimal digit.
pub open spec fn unsigned_value(s: Seq<char>, max: nat) -> Option<nat> {
    let digits = without_prefix_char(s, '+');
    if digits.len() > 0 && all_digits(digits) && decimal_value(digits) <= max {
        Some(decimal_value(digits))
    } else {
        None
    }
}

proof fn lemma_decimal_grows(s: Seq<char>, n: int)
    requires
        0 <= n <= s.len(),
    ensures
        decimal_value(s.take(n)) <= decimal_value(s),
    decreases s.len() - n,
{
    if n < s.len() {
        lemma_decimal_grows(s, n + 1);
        assert(s.take(n + 1).drop_last() =~= s.take(n));
    } else {
        assert(s.take(n) =~= s);
    }
}

pub(crate) fn digit_of(c: char) -> (d: u64)
    requires
        is_digit(c),
    ensures
        d == c as nat - '0' as nat,
        d <= 9,
{
    (c as u32 - 48) as u64
}

/// The unsigned integer that a text writes, where it is no larger than `max`.
pub fn parse_unsigned(s: &[char], max: u64) -> (r: Option<u64>)
    ensures
        match (r, unsigned_value(s@, max as nat)) {
            (Some(n), Some(e)) => n == e,
            (None, None) => true,
            _ => false,
        },
{
    let digits = skip_char(s, '+');
    if digits.len() == 0 || !is_all_digits(digits) {
        return None;
    }
    let mut total: u64 = 0;
    let mut i: usize = 0;
    assert(digits@.take(0) =~= Seq::<char>::empty());
    while i < digits.len()
        invariant
            i <= digits@.len(),
            all_digits(digits@),
            digits@.len() > 0,
            digits@ == without_prefix_char(s@, '+'),
            total == decimal_value(digits@.take(i as int)),
            total <= max,
        decreases digits@.len() - i,
    {
        let d: u64 = digit_of(digits[i]);
        proof {
            assert(digits@.take(i + 1).drop_last() =~= digits@.take(i as int));
            lemma_decimal_grows(digits@, i + 1);
        }
        if d > max || total > max / 10 || total * 10 > max - d {
            return None;
        }
        total = total * 10 + d;
        i = i + 1;
    }
    assert(digits@.take(i as int) =~= digits@);
    Some(total)
}

/// A character that does not end a line.
pub open spec fn is_line_char(c: char) -> bool {
    c != '\n'
}

/// A character of a word.
pub open spec fn is_word_char(c: char) -> bool {
    !is_space(c)
}

/// The first line of a text, without its line end: a line feed, or a carriage
/// return and a line feed.
pub open spec fn first_line(s: Seq<char>) -> Seq<char> {
    let k = run_length(s, |c: char| is_line_char(c));
    if k < s.len() && k > 0 && s[k - 1] == '\r' {
        s.take(k - 1)
    } else {
        s.take(k as int)
    }
}

/// The text after the first line.
pub open spec fn after_first_line(s: Seq<char>) -> Seq<char> {
    let k = run_length(s, |c: char| is_line_char(c));
    if k < s.len() {
        s.skip((k + 1) as int)
    } else {
        Seq::empty()
    }
}

/// What stands behind whole lines changes nothing of the first of them.
pub proof fn lemma_first_line_of_lines(a: Seq<char>, b: Seq<char>)
    requires
        a.len() > 0,
        a.last() == '\n',
    ensures
        first_line(a + b) == first_line(a),
        after_first_line(a + b) == after_first_line(a) + b,
        after_first_line(a).len() < a.len(),
        after_first_line(a).len() > 0 ==> after_first_line(a).last() == '\n',
{
    let keep = |c: char| is_line_char(c);
    let k = run_length(a, keep);
    lemma_run_is(a, keep);
    assert(!keep(a[a.len() - 1]));
    assert(k < a.len());
    let s = a + b;
    assert forall|j: int| 0 <= j < k implies keep(#[trigger] s[j]) by {
        assert(s[j] == a[j]);
    }
    lemma_run_length(s, keep, k);
    assert(s.take(k as int) =~= a.take(k as int));
    if k > 0 {
        assert(s.take(k - 1) =~= a.take(k - 1));
    }
    assert(s.skip((k + 1) as int) =~= a.skip((k + 1) as int) + b);
}

/// Whether `end` ends a line before the text `b`: a line feed, or a carriage return and
/// a line feed, or nothing at the end of the text.
pub open spec fn is_line_end(line: Seq<char>, end: Seq<char>, b: Seq<char>) -> bool {
    ||| end == seq!['\r', '\n']
    ||| end == seq!['\n'] && (line.len() > 0 ==> line.last() != '\r')
    ||| end.len() == 0 && b.len() == 0
}

/// A line that is written with its line end is the first line of what follows.
pub proof fn lemma_first_line_is(line: Seq<char>, end: Seq<char>, b: Seq<char>)
    requires
        !line.contains('\n'),
        is_line_end(line, end, b),
    ensures
        first_line(line + end + b) == line,
        after_first_line(line + end + b) == b,
{
    let keep = |c: char| is_line_char(c);
    let s = line + end + b;
    let k = if end.len() == 0 {
        line.len()
    } else {
        (line.len() + end.len() - 1) as nat
    };
    assert forall|j: int| 0 <= j < k implies keep(#[trigger] s[j]) by {
        if j < line.len() {
            assert(s[j] == line[j]);
            assert(line.contains(line[j]));
        }
    }
    if end.len() > 0 {
        assert(s[k as int] == '\n');
        assert(s.skip((k + 1) as int) =~= b);
    } else {
        assert(b =~= Seq::<char>::empty());
    }
    lemma_run_length(s, keep, k);
    assert(s.take(line.len() as int) =~= line);
}

/// The first line of a text and the text after it.
pub fn split_line<'a>(s: &'a [char]) -> (r: (&'a [char], &'a [char]))
    ensures
        r.0@ == first_line(s@),
        r.1@ == after_first_line(s@),
{
    let n: usize = s.len();
    let mut k: usize = 0;
    while k < n && s[k] != '\n'
        invariant
            n == s@.len(),
            k <= n,
            forall|j: int| 0 <= j < k ==> is_line_char(#[trigger] s@[j]),
        decreases n - k,
    {
        k = k + 1;
    }
    proof {
        lemma_run_length(s@, |c: char| is_line_char(c), k as nat);
    }
    if k < n {
        let line = if k > 0 && s[k - 1] == '\r' {
            first_part(s, k - 1)
        } else {
            first_part(s, k)
        };
        (line, rest_from(s, k + 1))
    } else {
        assert(s@.skip(n as int) =~= Seq::<char>::empty());
        (first_part(s, k), rest_from(s, n))
    }
}

/// The first word of a text, empty where it has none.
pub open spec fn first_word(s: Seq<char>) -> Seq<char> {
    let t = without_leading_space(s);
    t.take(run_length(t, |c: char| is_word_char(c)) as int)
}

/// The text after the first word.
pub open spec fn after_first_word(s: Seq<char>) -> Seq<char> {
    let t = without_leading_space(s);
    t.skip(run_length(t, |c: char| is_word_char(c)) as int)
}

/// The first word of a text and the text after it.
pub fn split_word<'a>(s: &'a [char]) -> (r: (&'a [char], &'a [char]))
    ensures
        r.0@ == first_word(s@),
        r.1@ == after_first_word(s@),
{
    let t = trim_start(s);
    let mut k: usize = 0;
    while k < t.len() && !is_white_space(t[k])
        invariant
            k <= t@.len(),
            forall|j: int| 0 <= j < k ==> is_word_char(#[trigger] t@[j]),
        decreases t@.len() - k,
    {
        k = k + 1;
    }
    proof {
        lemma_run_length(t@, |c: char| is_word_char(c), k as nat);
    }
    (first_part(t, k), rest_from(t, k))
}

/// Whether a text is a given one.
pub fn is_text(s: &[char], t: &str) -> (r: bool)
    ensures
        r == (s@ == t@),
{
    let expected = chars_of(t);
    same(s, expected.as_slice())
}

// ---------------------------------------------------------------------------
// Laws
// ---------------------------------------------------------------------------
/// Digits write a number in the decimal system: one more digit makes ten times the number
/// and the digit.
pub proof fn law_digits_write_a_number(s: Seq<char>, c: char)
    requires
        '0' <= c <= '9',
    ensures
        decimal_value(Seq::empty()) == 0,
        decimal_value(s.push(c)) == 10 * decimal_value(s) + (c as nat - '0' as nat),
{
    assert(s.push(c).drop_last() =~= s);
}

/// Whether a text holds no white space.
pub open spec fn is_word(s: Seq<char>) -> bool {
    s.len() > 0 && forall|i: int| 0 <= i < s.len() ==> !is_space(#[trigger] s[i])
}

/// The first two words of a line are those that white space sets apart.
pub proof fn law_words_are_set_apart(
    name: Seq<char>,
    space: Seq<char>,
    value: Seq<char>,
    rest: Seq<char>,
)
    requires
        is_word(name),
        is_word(value),
        space.len() > 0,
        forall|i: int| 0 <= i < space.len() ==> is_space(#[trigger] space[i]),
        rest.len() == 0 || is_space(rest[0]),
    ensures
        first_word(name + space + value + rest) == name,
        first_word(after_first_word(name + space + value + rest)) == value,
{
    let line = name + space + value + rest;
    let keep = |c: char| is_word_char(c);
    assert(line[0] == name[0]);
    assert(!is_space(name[0]));
    assert forall|j: int| 0 <= j < name.len() implies keep(#[trigger] line[j]) by {
        assert(line[j] == name[j]);
    }
    assert(line[name.len() as int] == space[0]);
    assert(is_space(space[0]));
    lemma_run_length(line, keep, name.len());
    assert(line.take(name.len() as int) =~= name);
    let more = value + rest;
    assert(line.skip(name.len() as int) =~= space + more);
    assert(more[0] == value[0]);
    assert(!is_space(value[0]));
    lemma_leading_space(space, more);
    assert forall|j: int| 0 <= j < value.len() implies keep(#[trigger] more[j]) by {
        assert(more[j] == value[j]);
    }
    if rest.len() > 0 {
        assert(more[value.len() as int] == rest[0]);
    }
    lemma_run_length(more, keep, value.len());
    assert(more.take(value.len() as int) =~= value);
}

/// A word has no white space to trim.
pub proof fn lemma_word_is_trimmed(s: Seq<char>)
    requires
        is_word(s),
    ensures
        trimmed(s) == s,
{
    assert(!is_space(s[0]));
    assert(!is_space(s[s.len() - 1]));
}

/// Trimming takes away the white space around a text, and nothing else.
pub proof fn law_trimming(before: Seq<char>, s: Seq<char>, behind: Seq<char>)
    requires
        forall|i: int| 0 <= i < before.len() ==> is_space(#[trigger] before[i]),
        forall|i: int| 0 <= i < behind.len() ==> is_space(#[trigger] behind[i]),
        s.len() > 0,
        !is_space(s[0]),
        !is_space(s.last()),
    ensures
        trimmed(before + s + behind) == s,
{
    assert(before + s + behind =~= before + (s + behind));
    assert((s + behind)[0] == s[0]);
    lemma_leading_space(before, s + behind);
    lemma_trailing_space(s, behind);
}

/// Nothing is left of white space without the white space around it.
pub proof fn lemma_blank_is_trimmed(s: Seq<char>)
    requires
        forall|i: int| 0 <= i < s.len() ==> is_space(#[trigger] s[i]),
    ensures
        trimmed(s).len() == 0,
    decreases s.len(),
{
    if s.len() > 0 {
        let t = s.drop_first();
        assert(is_space(s[0]));
        assert forall|i: int| 0 <= i < t.len() implies is_space(#[trigger] t[i]) by {
            assert(t[i] == s[i + 1]);
        }
        lemma_blank_is_trimmed(t);
    }
}

/// White space is what Unicode calls so: the blanks and line ends of ASCII, and those of
/// other scripts. No letter, digit or mark of ASCII is white space.
pub proof fn law_white_space(c: char)
    ensures
        c == ' ' || c == '\t' || c == '\n' || c == '\r' ==> is_space(c),
        c == '\u{b}' || c == '\u{c}' || c == '\u{85}' || c == '\u{a0}' ==> is_space(c),
        c == '\u{1680}' || '\u{2000}' <= c <= '\u{200a}' ==> is_space(c),
        c == '\u{2028}' || c == '\u{2029}' || c == '\u{202f}' || c == '\u{205f}' || c == '\u{3000}'
            ==> is_space(c),
        '!' <= c <= '~' ==> !is_space(c),
        c < '\t' || '\u{e}' <= c <= '\u{1f}' || '\u{7f}' <= c <= '\u{84}' ==> !is_space(c),
        c > '\u{3000}' ==> !is_space(c),
{
}

/// An integer is read from its digits, with a plus sign or without, where it is no larger
/// than the limit, and from nothing else.
pub proof fn law_integers_are_read(digits: Seq<char>, max: nat, c: char)
    ensures
        digits.len() > 0 && all_digits(digits) && decimal_value(digits) <= max ==> unsigned_value(
            digits,
            max,
        ) == Some(decimal_value(digits)) && unsigned_value(seq!['+'] + digits, max) == Some(
            decimal_value(digits),
        ),
        digits.len() > 0 && all_digits(digits) && decimal_value(digits) > max ==> unsigned_value(
            digits,
            max,
        ) is None,
        unsigned_value(Seq::empty(), max) is None,
        !is_digit(c) ==> unsigned_value(digits.push(c), max) is None,
        !is_digit(c) && c != '+' ==> unsigned_value(seq![c] + digits, max) is None,
{
    let signed = seq!['+'] + digits;
    assert(signed.drop_first() =~= digits);
    if digits.len() > 0 && all_digits(digits) {
        assert(is_digit(digits[0]));
    }
    if !is_digit(c) {
        let back = digits.push(c);
        let rest = without_prefix_char(back, '+');
        if rest.len() > 0 {
            assert(rest[rest.len() - 1] == c);
        }
        let front = seq![c] + digits;
        assert(front[0] == c);
    }
}

/// A text starts and ends with what it is made of.
pub proof fn law_starts_and_ends(a: Seq<char>, b: Seq<char>)
    ensures
        has_prefix(a + b, a),
        has_suffix(a + b, b),
        has_prefix(b, a) ==> b == a + b.skip(a.len() as int),
        has_suffix(a, b) ==> a == a.take(a.len() - b.len()) + b,
{
    assert((a + b).take(a.len() as int) =~= a);
    assert((a + b).skip(a.len() as int) =~= b);
    if has_prefix(b, a) {
        assert(b =~= b.take(a.len() as int) + b.skip(a.len() as int));
    }
    if has_suffix(a, b) {
        assert(a =~= a.take(a.len() - b.len()) + a.skip(a.len() - b.len()));
    }
}

} // verus!
