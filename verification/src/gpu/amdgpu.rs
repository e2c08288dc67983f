//! Telemetry of AMD cards from the kernel's files.
use super::{no_metrics, GpuMetrics, PowerKind};
use crate::binary::{Binary32, Binary64};
use crate::clock::{elapsed, Moment};
use crate::decimal::{float_value, lower_text, lowered, parse_float};
use crate::table::{text_before, text_less, Table};
use crate::text::{
    after_first_line, chars_of, contains, find, first_line, first_part, first_place, has_part,
    has_prefix, holds, is_ascii_digit, is_digit, is_line_end, is_space, is_text, parse_unsigned,
    rest_from, same, same_text, skip_char, split_line, starts_with, text_of, trim, trim_end, trimmed, unsigned_value,
    without_prefix_char, without_trailing_space,
};
use vstd::prelude::*;
use vstd::slice::slice_subrange;

verus! {

/// The vendor number of AMD.
pub const AMD_VENDOR: u16 = 0x1002;

/// The highest number of a sensor that is looked at.
pub const MAX_HWMON_SENSORS: u32 = 16;

// ---------------------------------------------------------------------------
// Reading values
// ---------------------------------------------------------------------------
/// Whether a character is a hexadecimal digit.
pub open spec fn is_hex(c: char) -> bool {
    is_digit(c) || 'a' <= c <= 'f' || 'A' <= c <= 'F'
}

/// The value of a hexadecimal digit.
pub open spec fn hex_digit(c: char) -> nat {
    if is_digit(c) {
        (c as nat - '0' as nat) as nat
    } else if 'a' <= c <= 'f' {
        (c as nat - 'a' as nat + 10) as nat
    } else {
        (c as nat - 'A' as nat + 10) as nat
    }
}

/// The number that hexadecimal digits write.
pub open spec fn hex_value(s: Seq<char>) -> nat
    decreases s.len(),
{
    if s.len() == 0 {
        0
    } else {
        hex_value(s.drop_last()) * 16 + hex_digit(s.last())
    }
}

/// A text without as many copies of `p` as stand at its start.
pub open spec fn without_prefixes(s: Seq<char>, p: Seq<char>) -> Seq<char>
    decreases s.len(),
{
    if p.len() > 0 && has_prefix(s, p) {
        without_prefixes(s.skip(p.len() as int), p)
    } else {
        s
    }
}

/// The number of a vendor: hexadecimal digits, optionally after a prefix.
pub open spec fn hex_id(raw: Seq<char>) -> Option<u16> {
    let t = without_prefixes(without_prefixes(trimmed(raw), "0x"@), "0X"@);
    let digits = without_prefix_char(t, '+');
    if digits.len() > 0 && (forall|i: int| 0 <= i < digits.len() ==> is_hex(#[trigger] digits[i]))
        && hex_value(digits) <= u16::MAX {
        Some(hex_value(digits) as u16)
    } else {
        None
    }
}

/// The number that a file holds.
pub open spec fn float_in(raw: Seq<char>) -> Option<Binary64> {
    float_value(trimmed(raw))
}

/// A temperature in degrees Celsius of one in thousandths of a degree, where it is
/// plausible.
pub open spec fn celsius(raw: Binary64) -> Option<Binary32> {
    let c = raw.quotient(Binary64::of(1000));
    if raw.finite() && c.finite() && c.within(Binary64::of(50).opposite(), Binary64::of(200)) {
        Some(c.narrowed())
    } else {
        None
    }
}

/// A number scaled down by `large` where it is at least `large_from`, by `small`
/// where it is at least `small_from`.
pub open spec fn scaled_down(
    raw: Binary64,
    large: nat,
    large_from: nat,
    small: nat,
    small_from: nat,
) -> Binary64 {
    if Binary64::of(large_from).at_most(raw) {
        raw.quotient(Binary64::of(large))
    } else if Binary64::of(small_from).at_most(raw) {
        raw.quotient(Binary64::of(small))
    } else {
        raw
    }
}

/// A power in watts of one in microwatts, milliwatts or watts, where it is
/// plausible.
pub open spec fn watts(raw: Binary64) -> Option<Binary32> {
    let w = scaled_down(raw, 1_000_000, 1_000_000, 1_000, 10_000);
    if raw.finite() && raw.rank() >= 0 && w.finite() && w.within(
        Binary64 { bits: 0 },
        Binary64::of(2_000),
    ) {
        Some(w.narrowed())
    } else {
        None
    }
}

/// The power in watts that a file holds, where it is plausible.
pub open spec fn watts_in(raw: Seq<char>) -> Option<Binary32> {
    match float_in(raw) {
        Some(x) => watts(x),
        None => None,
    }
}

/// A clock in MHz, where it is plausible.
pub open spec fn plausible_mhz(mhz: Binary64) -> Option<u32> {
    if mhz.finite() && mhz.within(Binary64 { bits: 0 }, Binary64::of(10_000)) {
        Some(mhz.rounded() as u32)
    } else {
        None
    }
}

/// A clock in MHz of one in Hz, kHz or MHz, where it is plausible.
pub open spec fn frequency(raw: Binary64) -> Option<u32> {
    if raw.finite() && raw.rank() >= 0 {
        plausible_mhz(scaled_down(raw, 1_000_000, 1_000_000, 1_000, 1_000))
    } else {
        None
    }
}

/// The percentage that a file holds, where it is one.
pub open spec fn percent(raw: Seq<char>) -> Option<u32> {
    match float_in(raw) {
        Some(x) => if x.finite() && x.within(Binary64 { bits: 0 }, Binary64::of(100)) {
            Some(x.rounded() as u32)
        } else {
            None
        },
        None => None,
    }
}

/// The number that a file holds, where it is no larger than `max`.
pub open spec fn unsigned_in(raw: Seq<char>, max: nat) -> Option<nat> {
    unsigned_value(trimmed(raw), max)
}

/// A character of the number before `MHz`.
pub open spec fn is_mhz_char(c: char) -> bool {
    is_digit(c) || c == '.'
}

/// The digits and points at the end of a text.
pub open spec fn numeral_at_end(s: Seq<char>) -> Seq<char>
    decreases s.len(),
{
    if s.len() > 0 && is_mhz_char(s.last()) {
        numeral_at_end(s.drop_last()).push(s.last())
    } else {
        Seq::empty()
    }
}

/// The clock before the first `MHz` of a line, in any case.
pub open spec fn line_mhz(line: Seq<char>) -> Option<u32> {
    match first_place(lowered(line), "mhz"@) {
        Some(i) => match float_value(
            numeral_at_end(without_trailing_space(line.take(i as int))),
        ) {
            Some(x) => plausible_mhz(x),
            None => None,
        },
        None => None,
    }
}

/// The first line with a star.
pub open spec fn starred_line(s: Seq<char>) -> Option<Seq<char>>
    decreases s.len(),
{
    if s.len() == 0 {
        None
    } else if first_line(s).contains('*') {
        Some(first_line(s))
    } else {
        starred_line(after_first_line(s))
    }
}

/// The last line that is not blank.
pub open spec fn last_filled_line(s: Seq<char>) -> Option<Seq<char>>
    decreases s.len(),
{
    if s.len() == 0 {
        None
    } else {
        match last_filled_line(after_first_line(s)) {
            Some(line) => Some(line),
            None => if trimmed(first_line(s)).len() > 0 {
                Some(first_line(s))
            } else {
                None
            },
        }
    }
}

/// The clock in a table of clocks: that of the starred line, or else of the last
/// one.
pub open spec fn table_mhz(text: Seq<char>) -> Option<u32> {
    match starred_line(text) {
        Some(line) => line_mhz(line),
        None => match last_filled_line(text) {
            Some(line) => line_mhz(line),
            None => None,
        },
    }
}

fn hex_digit_of(c: char) -> (r: Option<u32>)
    ensures
        match r {
            Some(d) => is_hex(c) && d == hex_digit(c) && d < 16,
            None => !is_hex(c),
        },
{
    if '0' <= c && c <= '9' {
        Some(c as u32 - 48)
    } else if 'a' <= c && c <= 'f' {
        Some(c as u32 - 87)
    } else if 'A' <= c && c <= 'F' {
        Some(c as u32 - 55)
    } else {
        None
    }
}

fn skip_prefixes<'a>(s: &'a [char], p: &str) -> (r: &'a [char])
    requires
        p@.len() > 0,
    ensures
        r@ == without_prefixes(s@, p@),
{
    let pattern = chars_of(p);
    let k: usize = pattern.len();
    let mut rest = s;
    while starts_with(rest, pattern.as_slice())
        invariant
            pattern@ == p@,
            k == p@.len(),
            k > 0,
            without_prefixes(rest@, p@) == without_prefixes(s@, p@),
        decreases rest@.len(),
    {
        rest = rest_from(rest, k);
    }
    rest
}

proof fn lemma_hex_grows(s: Seq<char>, n: int)
    requires
        0 <= n <= s.len(),
    ensures
        hex_value(s.take(n)) <= hex_value(s),
    decreases s.len() - n,
{
    if n < s.len() {
        lemma_hex_grows(s, n + 1);
        assert(s.take(n + 1).drop_last() =~= s.take(n));
    } else {
        assert(s.take(n) =~= s);
    }
}

/// The number of a vendor.
pub fn parse_hex_id(raw: &str) -> (r: Option<u16>)
    ensures
        r == hex_id(raw@),
{
    proof {
        reveal_strlit("0x");
        reveal_strlit("0X");
    }
    let text = chars_of(raw);
    let t = skip_prefixes(skip_prefixes(trim(text.as_slice()), "0x"), "0X");
    let digits = skip_char(t, '+');
    let n: usize = digits.len();
    if n == 0 {
        return None;
    }
    let mut total: u32 = 0;
    let mut too_large: bool = false;
    let mut i: usize = 0;
    assert(digits@.take(0) =~= Seq::<char>::empty());
    while i < n
        invariant
            n == digits@.len(),
            n > 0,
            i <= n,
            forall|j: int| 0 <= j < i ==> is_hex(#[trigger] digits@[j]),
            digits@ == without_prefix_char(
                without_prefixes(without_prefixes(trimmed(raw@), "0x"@), "0X"@),
                '+',
            ),
            !too_large ==> total == hex_value(digits@.take(i as int)) && total <= u16::MAX,
            too_large ==> hex_value(digits@) > u16::MAX,
            total <= u16::MAX,
        decreases n - i,
    {
        proof {
            assert(digits@.take(i + 1).drop_last() =~= digits@.take(i as int));
            lemma_hex_grows(digits@, i + 1);
        }
        match hex_digit_of(digits[i]) {
            Some(d) => {
                if !too_large {
                    let next: u32 = total * 16 + d;
                    if next > 0xffff {
                        too_large = true;
                    } else {
                        total = next;
                    }
                }
            },
            None => {
                return None;
            },
        }
        i = i + 1;
    }
    assert(digits@.take(n as int) =~= digits@);
    if too_large {
        None
    } else {
        Some(total as u16)
    }
}

fn parse_file_float(raw: &str) -> (r: Option<Binary64>)
    ensures
        r == float_in(raw@),
{
    let text = chars_of(raw);
    parse_float(trim(text.as_slice()))
}

/// The number that a file holds.
pub fn parse_u64(raw: &str) -> (r: Option<u64>)
    ensures
        match (r, unsigned_in(raw@, u64::MAX as nat)) {
            (Some(n), Some(e)) => n == e,
            (None, None) => true,
            _ => false,
        },
{
    let text = chars_of(raw);
    parse_unsigned(trim(text.as_slice()), u64::MAX)
}

/// The number that a file holds.
pub fn parse_u32(raw: &str) -> (r: Option<u32>)
    ensures
        match (r, unsigned_in(raw@, u32::MAX as nat)) {
            (Some(n), Some(e)) => n == e,
            (None, None) => true,
            _ => false,
        },
{
    let text = chars_of(raw);
    match parse_unsigned(trim(text.as_slice()), u32::MAX as u64) {
        Some(n) => Some(n as u32),
        None => None,
    }
}

/// A temperature in degrees Celsius of one in thousandths of a degree.
pub fn millidegrees_to_celsius(raw: Binary64) -> (r: Option<Binary32>)
    ensures
        r == celsius(raw),
{
    if !raw.is_finite() {
        return None;
    }
    let c = raw.over(Binary64::from_u64(1000));
    if c.is_finite() && c.is_within(Binary64::from_u64(50).negate(), Binary64::from_u64(200)) {
        Some(c.narrow())
    } else {
        None
    }
}

/// A power in watts of one in microwatts, milliwatts or watts.
pub fn power_to_watts(raw: Binary64) -> (r: Option<Binary32>)
    ensures
        r == watts(raw),
{
    if !raw.is_nonnegative() {
        return None;
    }
    let w = if Binary64::from_u64(1_000_000).up_to(raw) {
        raw.over(Binary64::from_u64(1_000_000))
    } else if Binary64::from_u64(10_000).up_to(raw) {
        raw.over(Binary64::from_u64(1_000))
    } else {
        raw
    };
    if w.is_finite() && w.is_within(Binary64::zero(), Binary64::from_u64(2_000)) {
        Some(w.narrow())
    } else {
        None
    }
}

/// A number of at most ten thousand rounds to one that fits.
proof fn lemma_rounded_fits(x: Binary64, high: nat)
    requires
        x.finite(),
        x.within(Binary64 { bits: 0 }, Binary64::of(high)),
        Binary64::of(high).finite(),
        Binary64::of(high).rounded() <= u32::MAX,
    ensures
        x.rounded() <= u32::MAX,
{
    crate::binary::lemma_rounded_ordered(x, Binary64::of(high));
}

fn mhz_in_range(mhz: Binary64) -> (r: Option<u32>)
    ensures
        r == plausible_mhz(mhz),
{
    let high = Binary64::from_u64(10_000);
    if mhz.is_finite() && mhz.is_within(Binary64::zero(), high) {
        proof {
            crate::binary::lemma_integer_rounds_to_itself(10_000);
            lemma_rounded_fits(mhz, 10_000);
        }
        match mhz.round_u64() {
            Some(n) => Some(n as u32),
            None => None,
        }
    } else {
        None
    }
}

/// A clock in MHz of one in Hz, kHz or MHz.
pub fn freq_to_mhz(raw: Binary64) -> (r: Option<u32>)
    ensures
        r == frequency(raw),
{
    if !raw.is_nonnegative() {
        return None;
    }
    let mhz = if Binary64::from_u64(1_000_000).up_to(raw) {
        raw.over(Binary64::from_u64(1_000_000))
    } else if Binary64::from_u64(1_000).up_to(raw) {
        raw.over(Binary64::from_u64(1_000))
    } else {
        raw
    };
    mhz_in_range(mhz)
}

/// The percentage that a file holds.
pub fn parse_busy_percent(raw: &str) -> (r: Option<u32>)
    ensures
        r == percent(raw@),
{
    match parse_file_float(raw) {
        Some(x) => {
            if x.is_finite() && x.is_within(Binary64::zero(), Binary64::from_u64(100)) {
                proof {
                    crate::binary::lemma_integer_rounds_to_itself(100);
                    lemma_rounded_fits(x, 100);
                }
                match x.round_u64() {
                    Some(n) => Some(n as u32),
                    None => None,
                }
            } else {
                None
            }
        },
        None => None,
    }
}

/// A number of bytes in MiB.
pub fn bytes_to_mib(bytes: u64) -> (r: u64)
    ensures
        r == bytes as nat / 1_048_576,
{
    bytes / 1024 / 1024
}

proof fn lemma_numeral_at_end(s: Seq<char>, start: int, end: int)
    requires
        0 <= start <= end <= s.len(),
        forall|j: int| start <= j < end ==> is_mhz_char(#[trigger] s[j]),
        start > 0 ==> !is_mhz_char(s[start - 1]),
    ensures
        numeral_at_end(s.take(end)) == s.subrange(start, end),
    decreases end - start,
{
    let t = s.take(end);
    if start < end {
        assert(t.last() == s[end - 1]);
        assert(t.drop_last() =~= s.take(end - 1));
        lemma_numeral_at_end(s, start, end - 1);
        assert(s.subrange(start, end) =~= s.subrange(start, end - 1).push(s[end - 1]));
    } else {
        assert(s.subrange(start, end) =~= Seq::<char>::empty());
        if end > 0 {
            assert(t.last() == s[end - 1]);
        }
    }
}

/// The clock before the first `MHz` of a line, in any case.
pub fn parse_mhz_token(line: &[char]) -> (r: Option<u32>)
    ensures
        r == line_mhz(line@),
{
    let folded = lower_text(line);
    let unit = chars_of("mhz");
    let n: usize = line.len();
    let i: usize = match find(folded.as_slice(), unit.as_slice()) {
        Some(i) => i,
        None => return None,
    };
    let prefix = trim_end(first_part(line, i));
    let end: usize = prefix.len();
    let mut start: usize = end;
    while start > 0 && (is_ascii_digit(prefix[start - 1]) || prefix[start - 1] == '.')
        invariant
            end == prefix@.len(),
            start <= end,
            forall|j: int| start <= j < end ==> is_mhz_char(#[trigger] prefix@[j]),
        decreases start,
    {
        start = start - 1;
    }
    proof {
        lemma_numeral_at_end(prefix@, start as int, end as int);
        assert(prefix@.take(end as int) =~= prefix@);
        assert(prefix@.skip(start as int) =~= prefix@.subrange(start as int, end as int));
    }
    match parse_float(rest_from(prefix, start)) {
        Some(x) => mhz_in_range(x),
        None => None,
    }
}

fn has_star(line: &[char]) -> (r: bool)
    ensures
        r == line@.contains('*'),
{
    let mut i: usize = 0;
    while i < line.len()
        invariant
            i <= line@.len(),
            forall|j: int| 0 <= j < i ==> line@[j] != '*',
        decreases line@.len() - i,
    {
        if line[i] == '*' {
            return true;
        }
        i = i + 1;
    }
    false
}

/// The clock in a table of clocks.
pub fn parse_pp_dpm_mhz(text: &str) -> (r: Option<u32>)
    ensures
        r == table_mhz(text@),
{
    let chars = chars_of(text);
    let mut rest = chars.as_slice();
    let mut filled: Option<&[char]> = None;
    while rest.len() > 0
        invariant
            starred_line(rest@) == starred_line(text@),
            match last_filled_line(rest@) {
                Some(line) => last_filled_line(text@) == Some(line),
                None => match (filled, last_filled_line(text@)) {
                    (Some(line), Some(e)) => line@ == e,
                    (None, None) => true,
                    _ => false,
                },
            },
        decreases rest@.len(),
    {
        let (line, after) = split_line(rest);
        if has_star(line) {
            return parse_mhz_token(line);
        }
        if trim(line).len() > 0 {
            filled = Some(line);
        }
        rest = after;
    }
    match filled {
        Some(line) => parse_mhz_token(line),
        None => None,
    }
}

// ---------------------------------------------------------------------------
// Reading a card
// ---------------------------------------------------------------------------
/// The place of a temperature sensor.
#[derive(Clone, Copy, Debug, PartialEq, Eq, Structural)]
pub enum TempKind {
    /// At the edge.
    Edge,
    /// At the junction.
    Junction,
    /// In the memory.
    Memory,
}

/// The place that a label names.
pub open spec fn label_kind(label: Seq<char>) -> Option<TempKind> {
    let t = lowered(trimmed(label));
    if t == "edge"@ {
        Some(TempKind::Edge)
    } else if t == "junction"@ || t == "hotspot"@ {
        Some(TempKind::Junction)
    } else if t == "mem"@ || t == "memory"@ {
        Some(TempKind::Memory)
    } else {
        None
    }
}

/// The place that a label names.
pub fn classify_temp_label(label: &str) -> (r: Option<TempKind>)
    ensures
        r == label_kind(label@),
{
    let text = chars_of(label);
    let folded = lower_text(trim(text.as_slice()));
    let t = folded.as_slice();
    if is_text(t, "edge") {
        Some(TempKind::Edge)
    } else if is_text(t, "junction") || is_text(t, "hotspot") {
        Some(TempKind::Junction)
    } else if is_text(t, "mem") || is_text(t, "memory") {
        Some(TempKind::Memory)
    } else {
        None
    }
}

/// The files of a directory that could be read: their names and contents.
#[derive(Debug)]
pub struct Folder {
    /// Names and contents.
    pub files: Vec<(String, String)>,
}

/// The contents of the first file called `name`, from file `i` on.
pub open spec fn file_from(
    files: Seq<(Seq<char>, Seq<char>)>,
    name: Seq<char>,
    i: nat,
) -> Option<Seq<char>>
    decreases files.len() - i,
{
    if i >= files.len() {
        None
    } else if files[i as int].0 == name {
        Some(files[i as int].1)
    } else {
        file_from(files, name, i + 1)
    }
}

/// The contents of a file without white space around them, where any are left.
pub open spec fn file_text(files: Seq<(Seq<char>, Seq<char>)>, name: Seq<char>) -> Option<Seq<char>> {
    match file_from(files, name, 0) {
        Some(contents) => if trimmed(contents).len() > 0 {
            Some(trimmed(contents))
        } else {
            None
        },
        None => None,
    }
}

impl View for Folder {
    type V = Seq<(Seq<char>, Seq<char>)>;

    open spec fn view(&self) -> Seq<(Seq<char>, Seq<char>)> {
        Seq::new(self.files@.len(), |i: int| (self.files@[i].0@, self.files@[i].1@))
    }
}

impl Folder {
    /// The contents of a file without white space around them, where any are left.
    pub fn read_trimmed(&self, name: &str) -> (r: Option<String>)
        ensures
            match (r, file_text(self@, name@)) {
                (Some(t), Some(e)) => t@ == e,
                (None, None) => true,
                _ => false,
            },
    {
        let n: usize = self.files.len();
        let mut i: usize = 0;
        while i < n
            invariant
                n == self.files@.len(),
                i <= n,
                file_from(self@, name@, i as nat) == file_from(self@, name@, 0),
            decreases n - i,
        {
            if same_text(self.files[i].0.as_str(), name) {
                let chars = chars_of(self.files[i].1.as_str());
                let kept = trim(chars.as_slice());
                if kept.len() > 0 {
                    return Some(text_of(kept));
                }
                return None;
            }
            i = i + 1;
        }
        None
    }
}

/// The decimal digits of a number below one hundred.
pub open spec fn small_decimal(n: nat) -> Seq<char> {
    if n < 10 {
        seq![(n + '0' as nat) as char]
    } else {
        seq![(n / 10 + '0' as nat) as char, (n % 10 + '0' as nat) as char]
    }
}

/// The name of a sensor's file.
pub open spec fn sensor_file(kind: Seq<char>, n: nat, part: Seq<char>) -> Seq<char> {
    kind + small_decimal(n) + part
}

/// The name of a sensor's file.
pub fn sensor_file_name(kind: &str, n: u32, part: &str) -> (r: String)
    requires
        n < 100,
    ensures
        r@ == sensor_file(kind@, n as nat, part@),
{
    let mut digits: Vec<char> = Vec::new();
    if n >= 10 {
        digits.push((n as u8 / 10 + 48) as char);
        digits.push((n as u8 % 10 + 48) as char);
    } else {
        digits.push((n as u8 + 48) as char);
    }
    assert(digits@ =~= small_decimal(n as nat));
    let middle = text_of(digits.as_slice());
    kind.to_owned().concat(middle.as_str()).concat(part)
}

/// What the temperature sensor `n` reads, and where.
pub open spec fn temperature(files: Seq<(Seq<char>, Seq<char>)>, n: nat) -> Option<
    (TempKind, Binary32),
> {
    match (
        file_text(files, sensor_file("temp"@, n, "_label"@)),
        file_text(files, sensor_file("temp"@, n, "_input"@)),
    ) {
        (Some(label), Some(raw)) => match (label_kind(label), float_in(raw)) {
            (Some(kind), Some(x)) => match celsius(x) {
                Some(c) => Some((kind, c)),
                None => None,
            },
            _ => None,
        },
        _ => None,
    }
}

/// What the last temperature sensor at a place reads, among the first `n`.
pub open spec fn temperature_at(
    files: Seq<(Seq<char>, Seq<char>)>,
    n: nat,
    place: TempKind,
) -> Option<Binary32>
    decreases n,
{
    if n == 0 {
        None
    } else {
        match temperature(files, n) {
            Some((kind, c)) => if kind == place {
                Some(c)
            } else {
                temperature_at(files, (n - 1) as nat, place)
            },
            None => temperature_at(files, (n - 1) as nat, place),
        }
    }
}

/// The watts in a file.
pub open spec fn file_watts(files: Seq<(Seq<char>, Seq<char>)>, name: Seq<char>) -> Option<
    Binary32,
> {
    match file_text(files, name) {
        Some(raw) => watts_in(raw),
        None => None,
    }
}

/// The number in a file.
pub open spec fn file_float(files: Seq<(Seq<char>, Seq<char>)>, name: Seq<char>) -> Option<
    Binary64,
> {
    match file_text(files, name) {
        Some(raw) => float_in(raw),
        None => None,
    }
}

/// The fan's speed in percent of its highest.
pub open spec fn fan_share(pwm: Option<Binary64>, pwm_max: Option<Binary64>) -> Option<u32> {
    match (pwm, pwm_max) {
        (Some(p), Some(m)) => {
            let share = p.quotient(m).product(Binary64::of(100));
            if p.finite() && m.finite() && m.rank() > 0 && p.rank() >= 0 && share.finite()
                && share.rank() >= 0 && share.rounded() <= 100 {
                Some(share.rounded() as u32)
            } else {
                None
            }
        },
        _ => None,
    }
}

/// Whether a label names one of two clocks.
pub open spec fn names_clock(label: Seq<char>, first: Seq<char>, second: Seq<char>) -> bool {
    let t = lowered(trimmed(label));
    holds(t, first) || holds(t, second)
}

/// The clock of the sensor `n`, where its label names one of two clocks.
pub open spec fn sensor_clock(
    files: Seq<(Seq<char>, Seq<char>)>,
    n: nat,
    first: Seq<char>,
    second: Seq<char>,
) -> Option<u32> {
    match (
        file_text(files, sensor_file("freq"@, n, "_label"@)),
        file_text(files, sensor_file("freq"@, n, "_input"@)),
    ) {
        (Some(label), Some(raw)) => if names_clock(label, first, second) {
            match float_in(raw) {
                Some(x) => frequency(x),
                None => None,
            }
        } else {
            None
        },
        _ => None,
    }
}

/// The first clock from sensor `n` on whose label names one of two clocks.
pub open spec fn clock_from(
    files: Seq<(Seq<char>, Seq<char>)>,
    n: nat,
    first: Seq<char>,
    second: Seq<char>,
) -> Option<u32>
    decreases MAX_HWMON_SENSORS + 1 - n,
{
    if n > MAX_HWMON_SENSORS {
        None
    } else if sensor_clock(files, n, first, second) is Some {
        sensor_clock(files, n, first, second)
    } else {
        clock_from(files, n + 1, first, second)
    }
}

/// A power rounded to whole watts, no more than a machine word holds.
pub open spec fn whole_watts(w: Binary32) -> u32 {
    let x = w.widened();
    if x.nan() {
        0
    } else if x.finite() && x.rounded() <= u32::MAX {
        x.rounded() as u32
    } else {
        u32::MAX
    }
}

/// The card with what its sensors read.
pub open spec fn with_sensors(m: GpuMetrics, files: Seq<(Seq<char>, Seq<char>)>) -> GpuMetrics {
    let edge = temperature_at(files, MAX_HWMON_SENSORS as nat, TempKind::Edge);
    let junction = temperature_at(files, MAX_HWMON_SENSORS as nat, TempKind::Junction);
    let memory = temperature_at(files, MAX_HWMON_SENSORS as nat, TempKind::Memory);
    let average = file_watts(files, "power1_average"@);
    let current = file_watts(files, "power1_input"@);
    let fan = match file_text(files, "fan1_input"@) {
        Some(raw) => unsigned_in(raw, u32::MAX as nat),
        None => None,
    };
    let share = fan_share(file_float(files, "pwm1"@), file_float(files, "pwm1_max"@));
    GpuMetrics {
        temp_edge: if edge is Some {
            edge
        } else {
            m.temp_edge
        },
        temp_junction: if junction is Some {
            junction
        } else {
            m.temp_junction
        },
        temp_memory: if memory is Some {
            memory
        } else {
            m.temp_memory
        },
        power_consumption: if average is Some {
            average
        } else if current is Some {
            current
        } else {
            m.power_consumption
        },
        power_kind: if average is Some {
            PowerKind::Average
        } else if current is Some {
            PowerKind::Current
        } else {
            m.power_kind
        },
        power_limit: match file_watts(files, "power1_cap"@) {
            Some(w) => whole_watts(w),
            None => m.power_limit,
        },
        fan_rpm: match fan {
            Some(n) => Some(n as u32),
            None => m.fan_rpm,
        },
        fan_percent: if share is Some {
            share
        } else {
            m.fan_percent
        },
        sclk_mhz: match clock_from(files, 1, "sclk"@, "gfx"@) {
            Some(mhz) => if m.sclk_mhz == 0 {
                mhz
            } else {
                m.sclk_mhz
            },
            None => m.sclk_mhz,
        },
        mclk_mhz: match clock_from(files, 1, "mclk"@, "mem"@) {
            Some(mhz) => if m.mclk_mhz == 0 {
                mhz
            } else {
                m.mclk_mhz
            },
            None => m.mclk_mhz,
        },
        ..m
    }
}

fn file_in_watts(folder: &Folder, name: &str) -> (r: Option<Binary32>)
    ensures
        r == file_watts(folder@, name@),
{
    match folder.read_trimmed(name) {
        Some(raw) => match parse_file_float(raw.as_str()) {
            Some(x) => power_to_watts(x),
            None => None,
        },
        None => None,
    }
}

fn file_as_float(folder: &Folder, name: &str) -> (r: Option<Binary64>)
    ensures
        r == file_float(folder@, name@),
{
    match folder.read_trimmed(name) {
        Some(raw) => parse_file_float(raw.as_str()),
        None => None,
    }
}

fn round_watts(w: Binary32) -> (r: u32)
    ensures
        r == whole_watts(w),
{
    let x = w.widen();
    if x.is_nan() {
        return 0;
    }
    if !x.is_finite() {
        return u32::MAX;
    }
    match x.round_u64() {
        Some(n) => if n <= u32::MAX as u64 {
            n as u32
        } else {
            u32::MAX
        },
        None => u32::MAX,
    }
}

fn fan_percent(pwm: Option<Binary64>, pwm_max: Option<Binary64>) -> (r: Option<u32>)
    ensures
        r == fan_share(pwm, pwm_max),
{
    match (pwm, pwm_max) {
        (Some(p), Some(m)) => {
            if !p.is_nonnegative() || !m.is_finite() || !Binary64::zero().less(m) {
                return None;
            }
            let share = p.over(m).times(Binary64::from_u64(100));
            if !share.is_nonnegative() {
                return None;
            }
            match share.round_u64() {
                Some(n) => if n <= 100 {
                    Some(n as u32)
                } else {
                    None
                },
                None => None,
            }
        },
        _ => None,
    }
}

fn read_temperature(folder: &Folder, n: u32) -> (r: Option<(TempKind, Binary32)>)
    requires
        n < 100,
    ensures
        r == temperature(folder@, n as nat),
{
    let label_name = sensor_file_name("temp", n, "_label");
    let input_name = sensor_file_name("temp", n, "_input");
    let label = match folder.read_trimmed(label_name.as_str()) {
        Some(label) => label,
        None => return None,
    };
    let kind = match classify_temp_label(label.as_str()) {
        Some(kind) => kind,
        None => return None,
    };
    let raw = match folder.read_trimmed(input_name.as_str()) {
        Some(raw) => raw,
        None => return None,
    };
    match parse_file_float(raw.as_str()) {
        Some(x) => match millidegrees_to_celsius(x) {
            Some(c) => Some((kind, c)),
            None => None,
        },
        None => None,
    }
}

fn label_names_clock(label: &str, first: &str, second: &str) -> (r: bool)
    ensures
        r == names_clock(label@, first@, second@),
{
    let text = chars_of(label);
    let folded = lower_text(trim(text.as_slice()));
    contains(folded.as_slice(), first) || contains(folded.as_slice(), second)
}

fn read_sensor_clock(folder: &Folder, n: u32, first: &str, second: &str) -> (r: Option<u32>)
    requires
        n < 100,
    ensures
        r == sensor_clock(folder@, n as nat, first@, second@),
{
    let label_name = sensor_file_name("freq", n, "_label");
    let input_name = sensor_file_name("freq", n, "_input");
    let label = match folder.read_trimmed(label_name.as_str()) {
        Some(label) => label,
        None => return None,
    };
    if !label_names_clock(label.as_str(), first, second) {
        return None;
    }
    let raw = match folder.read_trimmed(input_name.as_str()) {
        Some(raw) => raw,
        None => return None,
    };
    match parse_file_float(raw.as_str()) {
        Some(x) => freq_to_mhz(x),
        None => None,
    }
}

/// The first clock whose sensor's label names one of two clocks.
pub fn read_labeled_freq(hwmon: &Folder, first: &str, second: &str) -> (r: Option<u32>)
    ensures
        r == clock_from(hwmon@, 1, first@, second@),
{
    let mut n: u32 = 1;
    while n <= MAX_HWMON_SENSORS
        invariant
            1 <= n <= MAX_HWMON_SENSORS + 1,
            clock_from(hwmon@, n as nat, first@, second@) == clock_from(
                hwmon@,
                1,
                first@,
                second@,
            ),
        decreases MAX_HWMON_SENSORS + 1 - n,
    {
        let found = read_sensor_clock(hwmon, n, first, second);
        if found.is_some() {
            return found;
        }
        n = n + 1;
    }
    None
}

fn read_temperatures(hwmon: &Folder) -> (r: (Option<Binary32>, Option<Binary32>, Option<Binary32>))
    ensures
        r.0 == temperature_at(hwmon@, MAX_HWMON_SENSORS as nat, TempKind::Edge),
        r.1 == temperature_at(hwmon@, MAX_HWMON_SENSORS as nat, TempKind::Junction),
        r.2 == temperature_at(hwmon@, MAX_HWMON_SENSORS as nat, TempKind::Memory),
{
    let mut edge: Option<Binary32> = None;
    let mut junction: Option<Binary32> = None;
    let mut memory: Option<Binary32> = None;
    let mut n: u32 = 0;
    while n < MAX_HWMON_SENSORS
        invariant
            n <= MAX_HWMON_SENSORS,
            edge == temperature_at(hwmon@, n as nat, TempKind::Edge),
            junction == temperature_at(hwmon@, n as nat, TempKind::Junction),
            memory == temperature_at(hwmon@, n as nat, TempKind::Memory),
        decreases MAX_HWMON_SENSORS - n,
    {
        n = n + 1;
        if let Some((kind, c)) = read_temperature(hwmon, n) {
            match kind {
                TempKind::Edge => {
                    edge = Some(c);
                },
                TempKind::Junction => {
                    junction = Some(c);
                },
                TempKind::Memory => {
                    memory = Some(c);
                },
            }
        }
    }
    (edge, junction, memory)
}

/// Takes what the sensors of a card read into its metrics.
pub fn read_hwmon(hwmon: &Folder, metrics: &mut GpuMetrics)
    ensures
        *final(metrics) == with_sensors(*old(metrics), hwmon@),
{
    let (edge, junction, memory) = read_temperatures(hwmon);
    if edge.is_some() {
        metrics.temp_edge = edge;
    }
    if junction.is_some() {
        metrics.temp_junction = junction;
    }
    if memory.is_some() {
        metrics.temp_memory = memory;
    }
    let average = file_in_watts(hwmon, "power1_average");
    if average.is_some() {
        metrics.power_consumption = average;
        metrics.power_kind = PowerKind::Average;
    } else {
        let current = file_in_watts(hwmon, "power1_input");
        if current.is_some() {
            metrics.power_consumption = current;
            metrics.power_kind = PowerKind::Current;
        }
    }
    if let Some(w) = file_in_watts(hwmon, "power1_cap") {
        metrics.power_limit = round_watts(w);
    }
    if let Some(raw) = hwmon.read_trimmed("fan1_input") {
        if let Some(rpm) = parse_u32(raw.as_str()) {
            metrics.fan_rpm = Some(rpm);
        }
    }
    let share = fan_percent(file_as_float(hwmon, "pwm1"), file_as_float(hwmon, "pwm1_max"));
    if share.is_some() {
        metrics.fan_percent = share;
    }
    if metrics.sclk_mhz == 0 {
        if let Some(mhz) = read_labeled_freq(hwmon, "sclk", "gfx") {
            metrics.sclk_mhz = mhz;
        }
    }
    if metrics.mclk_mhz == 0 {
        if let Some(mhz) = read_labeled_freq(hwmon, "mclk", "mem") {
            metrics.mclk_mhz = mhz;
        }
    }
}

/// The MiB in a file.
pub open spec fn file_mib(files: Seq<(Seq<char>, Seq<char>)>, name: Seq<char>) -> u64 {
    match file_text(files, name) {
        Some(raw) => match unsigned_in(raw, u64::MAX as nat) {
            Some(n) => (n / 1_048_576) as u64,
            None => 0,
        },
        None => 0,
    }
}

/// The clock in a file with a table of clocks.
pub open spec fn file_clock(files: Seq<(Seq<char>, Seq<char>)>, name: Seq<char>) -> u32 {
    match file_text(files, name) {
        Some(raw) => match table_mhz(raw) {
            Some(mhz) => mhz,
            None => 0,
        },
        None => 0,
    }
}

/// What the files of a card tell, without its sensors.
pub open spec fn card_metrics(device: Seq<(Seq<char>, Seq<char>)>) -> GpuMetrics {
    GpuMetrics {
        load: match file_text(device, "gpu_busy_percent"@) {
            Some(raw) => match percent(raw) {
                Some(n) => n,
                None => 0,
            },
            None => 0,
        },
        vram_used: file_mib(device, "mem_info_vram_used"@),
        vram_total: file_mib(device, "mem_info_vram_total"@),
        sclk_mhz: file_clock(device, "pp_dpm_sclk"@),
        mclk_mhz: file_clock(device, "pp_dpm_mclk"@),
        ..no_metrics()
    }
}

/// The temperature shown: that of the junction, or else of the edge, or else of the
/// memory.
pub open spec fn with_shown_temperature(m: GpuMetrics) -> GpuMetrics {
    GpuMetrics {
        temp: match (m.temp_junction, m.temp_edge, m.temp_memory) {
            (Some(t), _, _) => t,
            (None, Some(t), _) => t,
            (None, None, Some(t)) => t,
            (None, None, None) => Binary32 { bits: 0 },
        },
        ..m
    }
}

/// What the files of a card and of its sensors tell.
pub open spec fn device_metrics(
    device: Seq<(Seq<char>, Seq<char>)>,
    hwmon: Option<Seq<(Seq<char>, Seq<char>)>>,
) -> GpuMetrics {
    with_shown_temperature(
        match hwmon {
            Some(files) => with_sensors(card_metrics(device), files),
            None => card_metrics(device),
        },
    )
}

fn read_mib(folder: &Folder, name: &str) -> (r: u64)
    ensures
        r == file_mib(folder@, name@),
{
    match folder.read_trimmed(name) {
        Some(raw) => match parse_u64(raw.as_str()) {
            Some(n) => bytes_to_mib(n),
            None => 0,
        },
        None => 0,
    }
}

fn read_clock(folder: &Folder, name: &str) -> (r: u32)
    ensures
        r == file_clock(folder@, name@),
{
    match folder.read_trimmed(name) {
        Some(raw) => match parse_pp_dpm_mhz(raw.as_str()) {
            Some(mhz) => mhz,
            None => 0,
        },
        None => 0,
    }
}

/// What the files of a card and of its sensors tell.
pub fn read_metrics_for(device: &Folder, hwmon: Option<&Folder>) -> (r: GpuMetrics)
    ensures
        r == device_metrics(
            device@,
            match hwmon {
                Some(folder) => Some(folder@),
                None => None,
            },
        ),
{
    let mut metrics = GpuMetrics::default();
    if let Some(raw) = device.read_trimmed("gpu_busy_percent") {
        if let Some(load) = parse_busy_percent(raw.as_str()) {
            metrics.load = load;
        }
    }
    metrics.vram_used = read_mib(device, "mem_info_vram_used");
    metrics.vram_total = read_mib(device, "mem_info_vram_total");
    metrics.sclk_mhz = read_clock(device, "pp_dpm_sclk");
    metrics.mclk_mhz = read_clock(device, "pp_dpm_mclk");
    if let Some(folder) = hwmon {
        read_hwmon(folder, &mut metrics);
    }
    metrics.temp = match (metrics.temp_junction, metrics.temp_edge, metrics.temp_memory) {
        (Some(t), _, _) => t,
        (None, Some(t), _) => t,
        (None, None, Some(t)) => t,
        (None, None, None) => Binary32 { bits: 0 },
    };
    metrics
}

// ---------------------------------------------------------------------------
// Finding cards
// ---------------------------------------------------------------------------
/// Whether a name is that of a card: `card` and a number.
pub open spec fn is_card_name(name: Seq<char>) -> bool {
    let rest = name.skip("card"@.len() as int);
    has_prefix(name, "card"@) && rest.len() > 0 && crate::text::all_digits(rest)
}

/// Whether a text is a PCI address: domain, bus, slot and function in hexadecimal.
pub open spec fn is_bdf(s: Seq<char>) -> bool {
    &&& s.len() == 12
    &&& is_hex(s[0]) && is_hex(s[1]) && is_hex(s[2]) && is_hex(s[3])
    &&& s[4] == ':'
    &&& is_hex(s[5]) && is_hex(s[6])
    &&& s[7] == ':'
    &&& is_hex(s[8]) && is_hex(s[9])
    &&& s[10] == '.'
    &&& is_hex(s[11])
}

/// Whether `name` is that of a card.
pub fn is_drm_card_name(name: &str) -> (r: bool)
    ensures
        r == is_card_name(name@),
{
    let text = chars_of(name);
    let prefix = chars_of("card");
    if !starts_with(text.as_slice(), prefix.as_slice()) {
        return false;
    }
    let rest = rest_from(text.as_slice(), prefix.len());
    rest.len() > 0 && crate::text::is_all_digits(rest)
}

fn is_hex_char(c: char) -> (r: bool)
    ensures
        r == is_hex(c),
{
    hex_digit_of(c).is_some()
}

/// Whether a text is a PCI address.
pub fn is_pci_bdf(s: &[char]) -> (r: bool)
    ensures
        r == is_bdf(s@),
{
    s.len() == 12 && is_hex_char(s[0]) && is_hex_char(s[1]) && is_hex_char(s[2]) && is_hex_char(
        s[3],
    ) && s[4] == ':' && is_hex_char(s[5]) && is_hex_char(s[6]) && s[7] == ':' && is_hex_char(s[8])
        && is_hex_char(s[9]) && s[10] == '.' && is_hex_char(s[11])
}

/// The PCI address that a card's description names.
pub open spec fn bdf_in_uevent(s: Seq<char>) -> Option<Seq<char>>
    decreases s.len(),
{
    if s.len() == 0 {
        None
    } else {
        let line = first_line(s);
        let slot = trimmed(line.skip("PCI_SLOT_NAME="@.len() as int));
        if has_prefix(line, "PCI_SLOT_NAME="@) && is_bdf(slot) {
            Some(slot)
        } else {
            bdf_in_uevent(after_first_line(s))
        }
    }
}

/// What follows the last slash of a path.
pub open spec fn path_tail(path: Seq<char>) -> Seq<char>
    decreases path.len(),
{
    if path.len() == 0 || path.last() == '/' {
        Seq::empty()
    } else {
        path_tail(path.drop_last()).push(path.last())
    }
}

proof fn lemma_path_tail_short(path: Seq<char>)
    ensures
        path_tail(path).len() <= path.len(),
    decreases path.len(),
{
    if path.len() > 0 && path.last() != '/' {
        lemma_path_tail_short(path.drop_last());
    }
}

/// The last part of a path that is a PCI address.
pub open spec fn bdf_in_path(path: Seq<char>) -> Option<Seq<char>>
    decreases path.len(),
{
    let tail = path_tail(path);
    if is_bdf(tail) {
        Some(tail)
    } else if tail.len() >= path.len() {
        None
    } else {
        bdf_in_path(path.take(path.len() - tail.len() - 1))
    }
}

/// The PCI address of a card: the one that its description names, or else the one
/// in its path.
pub open spec fn card_bdf(uevent: Option<Seq<char>>, device_dir: Seq<char>) -> Option<Seq<char>> {
    match uevent {
        Some(text) => match bdf_in_uevent(text) {
            Some(slot) => Some(slot),
            None => bdf_in_path(device_dir),
        },
        None => bdf_in_path(device_dir),
    }
}

fn find_bdf_in_uevent(uevent: &str) -> (r: Option<String>)
    ensures
        match (r, bdf_in_uevent(uevent@)) {
            (Some(t), Some(e)) => t@ == e,
            (None, None) => true,
            _ => false,
        },
{
    let chars = chars_of(uevent);
    let prefix = chars_of("PCI_SLOT_NAME=");
    let mut rest = chars.as_slice();
    while rest.len() > 0
        invariant
            prefix@ == "PCI_SLOT_NAME="@,
            bdf_in_uevent(rest@) == bdf_in_uevent(uevent@),
        decreases rest@.len(),
    {
        let (line, after) = split_line(rest);
        if starts_with(line, prefix.as_slice()) {
            let slot = trim(rest_from(line, prefix.len()));
            if is_pci_bdf(slot) {
                return Some(text_of(slot));
            }
        }
        rest = after;
    }
    None
}

proof fn lemma_path_tail(path: Seq<char>, start: int, end: int)
    requires
        0 <= start <= end <= path.len(),
        forall|j: int| start <= j < end ==> #[trigger] path[j] != '/',
        start > 0 ==> path[start - 1] == '/',
    ensures
        path_tail(path.take(end)) == path.subrange(start, end),
    decreases end - start,
{
    let t = path.take(end);
    if start < end {
        assert(t.last() == path[end - 1]);
        assert(t.drop_last() =~= path.take(end - 1));
        lemma_path_tail(path, start, end - 1);
        assert(path.subrange(start, end) =~= path.subrange(start, end - 1).push(path[end - 1]));
    } else {
        assert(path.subrange(start, end) =~= Seq::<char>::empty());
        if end > 0 {
            assert(t.last() == path[end - 1]);
        }
    }
}

fn find_bdf_in_path(device_dir: &str) -> (r: Option<String>)
    ensures
        match (r, bdf_in_path(device_dir@)) {
            (Some(t), Some(e)) => t@ == e,
            (None, None) => true,
            _ => false,
        },
{
    let path = chars_of(device_dir);
    let mut end: usize = path.len();
    assert(path@.take(end as int) =~= path@);
    loop
        invariant
            path@ == device_dir@,
            end <= path@.len(),
            bdf_in_path(path@.take(end as int)) == bdf_in_path(device_dir@),
        decreases end,
    {
        let mut start: usize = end;
        while start > 0 && path[start - 1] != '/'
            invariant
                start <= end <= path@.len(),
                forall|j: int| start <= j < end ==> #[trigger] path@[j] != '/',
            decreases start,
        {
            start = start - 1;
        }
        proof {
            lemma_path_tail(path@, start as int, end as int);
        }
        let tail = slice_subrange(path.as_slice(), start, end);
        if is_pci_bdf(tail) {
            return Some(text_of(tail));
        }
        if start == 0 {
            return None;
        }
        proof {
            assert(path@.take(end as int).take(start - 1) =~= path@.take(start - 1));
        }
        end = start - 1;
    }
}

fn read_pci_bdf(uevent: &Option<String>, device_dir: &str) -> (r: Option<String>)
    ensures
        match (
            r,
            card_bdf(
                match *uevent {
                    Some(t) => Some(t@),
                    None => None,
                },
                device_dir@,
            ),
        ) {
            (Some(t), Some(e)) => t@ == e,
            (None, None) => true,
            _ => false,
        },
{
    if let Some(text) = uevent {
        let found = find_bdf_in_uevent(text.as_str());
        if found.is_some() {
            return found;
        }
    }
    find_bdf_in_path(device_dir)
}

/// What the kernel lists of one card.
#[derive(Debug)]
pub struct DrmEntry {
    /// The name in the list.
    pub name: String,
    /// The directory in the list.
    pub card_dir: String,
    /// The vendor file, where it could be read.
    pub vendor: Option<String>,
    /// The card's own directory.
    pub device_dir: String,
    /// The card's description, where it could be read.
    pub uevent: Option<String>,
    /// The card's product name, where it could be read.
    pub product_name: Option<String>,
    /// The directories of sensors, with their names where those could be read.
    pub hwmons: Vec<(String, Option<String>)>,
}

/// An AMD card.
#[derive(Debug)]
pub struct AmdGpuDevice {
    /// What the card is called.
    pub display_name: String,
    /// Its PCI address.
    pub bdf: Option<String>,
    /// Its directory in the kernel's list.
    pub card_dir: String,
    /// Its own directory.
    pub device_dir: String,
    /// The directory of its sensors.
    pub hwmon_dir: Option<String>,
}

/// What an AMD card is.
pub struct Card {
    /// What the card is called.
    pub display_name: Seq<char>,
    /// Its PCI address.
    pub bdf: Option<Seq<char>>,
    /// Its directory in the kernel's list.
    pub card_dir: Seq<char>,
    /// Its own directory.
    pub device_dir: Seq<char>,
    /// The directory of its sensors.
    pub hwmon_dir: Option<Seq<char>>,
}

/// The characters of an optional text.
pub open spec fn opt_chars(t: Option<String>) -> Option<Seq<char>> {
    match t {
        Some(t) => Some(t@),
        None => None,
    }
}

impl View for AmdGpuDevice {
    type V = Card;

    open spec fn view(&self) -> Card {
        Card {
            display_name: self.display_name@,
            bdf: opt_chars(self.bdf),
            card_dir: self.card_dir@,
            device_dir: self.device_dir@,
            hwmon_dir: opt_chars(self.hwmon_dir),
        }
    }
}

/// What some AMD cards are.
pub open spec fn cards(devices: Seq<AmdGpuDevice>) -> Seq<Card> {
    Seq::new(devices.len(), |i: int| devices[i]@)
}

/// Whether a directory of sensors is that of an AMD card.
pub open spec fn is_amd_hwmon(entry: (String, Option<String>)) -> bool {
    match entry.1 {
        Some(name) => lowered(trimmed(name@)) == "amdgpu"@,
        None => false,
    }
}

/// The first directory of sensors, in the order of their paths, that is that of an
/// AMD card.
pub open spec fn amd_hwmon(hwmons: Seq<(String, Option<String>)>) -> Option<Seq<char>>
    decreases hwmons.len(),
{
    if hwmons.len() == 0 {
        None
    } else {
        let before = amd_hwmon(hwmons.drop_last());
        let path = hwmons.last().0@;
        if !is_amd_hwmon(hwmons.last()) {
            before
        } else {
            match before {
                Some(p) => if text_before(path, p) {
                    Some(path)
                } else {
                    Some(p)
                },
                None => Some(path),
            }
        }
    }
}

/// Whether an entry is that of an AMD card.
pub open spec fn is_amd_card(e: DrmEntry) -> bool {
    is_card_name(e.name@) && e.vendor is Some && hex_id(e.vendor->0@) == Some(AMD_VENDOR)
}

/// What a card is called: its product name and PCI address, as far as they are
/// known.
pub open spec fn card_title(
    product: Option<Seq<char>>,
    bdf: Option<Seq<char>>,
    name: Seq<char>,
) -> Seq<char> {
    match (product, bdf) {
        (Some(p), Some(b)) => p + " ("@ + b + ")"@,
        (Some(p), None) => p,
        (None, Some(b)) => "AMD GPU ("@ + b + ")"@,
        (None, None) => name,
    }
}

/// The product name of a card, where it is not blank.
pub open spec fn product_of(e: DrmEntry) -> Option<Seq<char>> {
    match e.product_name {
        Some(t) => if trimmed(t@).len() > 0 {
            Some(trimmed(t@))
        } else {
            None
        },
        None => None,
    }
}

/// The card of an entry.
pub open spec fn card_of(e: DrmEntry) -> Card {
    let bdf = card_bdf(opt_chars(e.uevent), e.device_dir@);
    Card {
        display_name: card_title(product_of(e), bdf, e.name@),
        bdf,
        card_dir: e.card_dir@,
        device_dir: e.device_dir@,
        hwmon_dir: amd_hwmon(e.hwmons@),
    }
}

/// Whether some card has its files in `dir`.
pub open spec fn has_dir(found: Seq<Card>, dir: Seq<char>) -> bool {
    exists|i: int| 0 <= i < found.len() && (#[trigger] found[i]).device_dir == dir
}

/// The AMD cards among the entries, each once, in their order.
pub open spec fn listed(entries: Seq<DrmEntry>) -> Seq<Card>
    decreases entries.len(),
{
    if entries.len() == 0 {
        Seq::empty()
    } else {
        let before = listed(entries.drop_last());
        let e = entries.last();
        if is_amd_card(e) && !has_dir(before, e.device_dir@) {
            before.push(card_of(e))
        } else {
            before
        }
    }
}

/// Whether the first of two cards comes first: by PCI address where both have one,
/// else by directory.
pub open spec fn comes_first(a: Card, b: Card) -> bool {
    match (a.bdf, b.bdf) {
        (Some(x), Some(y)) => text_before(x, y),
        _ => text_before(a.card_dir, b.card_dir),
    }
}

/// Cards in order with one more: behind the last that it does not come before.
pub open spec fn inserted(s: Seq<Card>, c: Card) -> Seq<Card>
    decreases s.len(),
{
    if s.len() == 0 || !comes_first(c, s.last()) {
        s.push(c)
    } else {
        inserted(s.drop_last(), c).push(s.last())
    }
}

/// Cards put in order; cards of which neither comes first keep theirs.
pub open spec fn arranged(s: Seq<Card>) -> Seq<Card>
    decreases s.len(),
{
    if s.len() == 0 {
        Seq::empty()
    } else {
        inserted(arranged(s.drop_last()), s.last())
    }
}

fn find_amdgpu_hwmon(hwmons: &Vec<(String, Option<String>)>) -> (r: Option<String>)
    ensures
        opt_chars(r) == amd_hwmon(hwmons@),
{
    let n: usize = hwmons.len();
    let mut best: Option<usize> = None;
    let mut i: usize = 0;
    assert(hwmons@.take(0) =~= Seq::<(String, Option<String>)>::empty());
    while i < n
        invariant
            n == hwmons@.len(),
            i <= n,
            best matches Some(b) ==> b < n,
            match best {
                Some(b) => amd_hwmon(hwmons@.take(i as int)) == Some(hwmons@[b as int].0@),
                None => amd_hwmon(hwmons@.take(i as int)) is None,
            },
        decreases n - i,
    {
        proof {
            assert(hwmons@.take(i + 1).drop_last() =~= hwmons@.take(i as int));
            assert(hwmons@.take(i + 1).last() == hwmons@[i as int]);
        }
        let is_match: bool = match &hwmons[i].1 {
            Some(name) => {
                let chars = chars_of(name.as_str());
                let folded = lower_text(trim(chars.as_slice()));
                is_text(folded.as_slice(), "amdgpu")
            },
            None => false,
        };
        if is_match {
            let better: bool = match best {
                Some(b) => {
                    let here = chars_of(hwmons[i].0.as_str());
                    let there = chars_of(hwmons[b].0.as_str());
                    text_less(here.as_slice(), there.as_slice())
                },
                None => true,
            };
            if better {
                best = Some(i);
            }
        }
        i = i + 1;
    }
    assert(hwmons@.take(n as int) =~= hwmons@);
    match best {
        Some(b) => Some(hwmons[b].0.as_str().to_owned()),
        None => None,
    }
}

fn product_name(e: &DrmEntry) -> (r: Option<String>)
    ensures
        opt_chars(r) == product_of(*e),
{
    match &e.product_name {
        Some(t) => {
            let chars = chars_of(t.as_str());
            let kept = trim(chars.as_slice());
            if kept.len() > 0 {
                Some(text_of(kept))
            } else {
                None
            }
        },
        None => None,
    }
}

fn title(product: &Option<String>, bdf: &Option<String>, name: &str) -> (r: String)
    ensures
        r@ == card_title(opt_chars(*product), opt_chars(*bdf), name@),
{
    match (product, bdf) {
        (Some(p), Some(b)) => p.as_str().to_owned().concat(" (").concat(b.as_str()).concat(")"),
        (Some(p), None) => p.as_str().to_owned(),
        (None, Some(b)) => "AMD GPU (".to_owned().concat(b.as_str()).concat(")"),
        (None, None) => name.to_owned(),
    }
}

fn device_of(e: &DrmEntry) -> (r: AmdGpuDevice)
    ensures
        r@ == card_of(*e),
{
    let bdf = read_pci_bdf(&e.uevent, e.device_dir.as_str());
    let product = product_name(e);
    let display_name = title(&product, &bdf, e.name.as_str());
    AmdGpuDevice {
        display_name,
        bdf,
        card_dir: e.card_dir.as_str().to_owned(),
        device_dir: e.device_dir.as_str().to_owned(),
        hwmon_dir: find_amdgpu_hwmon(&e.hwmons),
    }
}

fn entry_is_amd(e: &DrmEntry) -> (r: bool)
    ensures
        r == is_amd_card(*e),
{
    if !is_drm_card_name(e.name.as_str()) {
        return false;
    }
    match &e.vendor {
        Some(raw) => match parse_hex_id(raw.as_str()) {
            Some(id) => id == AMD_VENDOR,
            None => false,
        },
        None => false,
    }
}

fn dir_is_known(found: &Vec<AmdGpuDevice>, dir: &str) -> (r: bool)
    ensures
        r == has_dir(cards(found@), dir@),
{
    let n: usize = found.len();
    let mut i: usize = 0;
    while i < n
        invariant
            n == found@.len(),
            i <= n,
            forall|j: int| 0 <= j < i ==> (#[trigger] cards(found@)[j]).device_dir != dir@,
        decreases n - i,
    {
        assert(cards(found@)[i as int] == found@[i as int]@);
        if same_text(found[i].device_dir.as_str(), dir) {
            return true;
        }
        i = i + 1;
    }
    false
}

fn precedes(a: &AmdGpuDevice, b: &AmdGpuDevice) -> (r: bool)
    ensures
        r == comes_first(a@, b@),
{
    match (&a.bdf, &b.bdf) {
        (Some(x), Some(y)) => {
            let p = chars_of(x.as_str());
            let q = chars_of(y.as_str());
            text_less(p.as_slice(), q.as_slice())
        },
        _ => {
            let p = chars_of(a.card_dir.as_str());
            let q = chars_of(b.card_dir.as_str());
            text_less(p.as_slice(), q.as_slice())
        },
    }
}

proof fn lemma_inserted(s: Seq<Card>, c: Card, i: int)
    requires
        0 <= i <= s.len(),
        forall|j: int| i <= j < s.len() ==> comes_first(c, #[trigger] s[j]),
        i > 0 ==> !comes_first(c, s[i - 1]),
    ensures
        inserted(s, c) == s.insert(i, c),
    decreases s.len(),
{
    if i < s.len() {
        assert(comes_first(c, s[s.len() - 1]));
        let t = s.drop_last();
        assert forall|j: int| i <= j < t.len() implies comes_first(c, #[trigger] t[j]) by {
            assert(t[j] == s[j]);
        }
        lemma_inserted(t, c, i);
        assert(t.insert(i, c).push(s.last()) =~= s.insert(i, c));
    } else {
        assert(s.push(c) =~= s.insert(i, c));
    }
}

fn insert_in_order(sorted: &mut Vec<AmdGpuDevice>, device: AmdGpuDevice)
    ensures
        cards(final(sorted)@) == inserted(cards(old(sorted)@), device@),
{
    let mut i: usize = sorted.len();
    while i > 0 && precedes(&device, &sorted[i - 1])
        invariant
            sorted@ == old(sorted)@,
            i <= sorted@.len(),
            forall|j: int|
                i <= j < sorted@.len() ==> comes_first(device@, #[trigger] cards(sorted@)[j]),
        decreases i,
    {
        assert(cards(sorted@)[i - 1] == sorted@[i - 1]@);
        i = i - 1;
    }
    proof {
        if i > 0 {
            assert(cards(sorted@)[i - 1] == sorted@[i - 1]@);
        }
        lemma_inserted(cards(sorted@), device@, i as int);
        assert(cards(sorted@.insert(i as int, device)) =~= cards(sorted@).insert(
            i as int,
            device@,
        ));
    }
    sorted.insert(i, device);
}

/// The AMD cards among what the kernel lists, in order.
pub fn discover_amd_gpus(entries: &Vec<DrmEntry>) -> (r: Vec<AmdGpuDevice>)
    ensures
        cards(r@) == arranged(listed(entries@)),
{
    let mut found: Vec<AmdGpuDevice> = Vec::new();
    let n: usize = entries.len();
    let mut i: usize = 0;
    assert(entries@.take(0) =~= Seq::<DrmEntry>::empty());
    assert(cards(found@) =~= Seq::<Card>::empty());
    while i < n
        invariant
            n == entries@.len(),
            i <= n,
            cards(found@) == listed(entries@.take(i as int)),
        decreases n - i,
    {
        proof {
            assert(entries@.take(i + 1).drop_last() =~= entries@.take(i as int));
            assert(entries@.take(i + 1).last() == entries@[i as int]);
        }
        let e = &entries[i];
        if entry_is_amd(e) && !dir_is_known(&found, e.device_dir.as_str()) {
            let device = device_of(e);
            assert(cards(found@.push(device)) =~= cards(found@).push(device@));
            found.push(device);
        }
        i = i + 1;
    }
    assert(entries@.take(n as int) =~= entries@);
    let ghost all = cards(found@);
    let ghost original = found@;
    let mut sorted: Vec<AmdGpuDevice> = Vec::new();
    let mut done: usize = 0;
    let total: usize = found.len();
    assert(cards(sorted@) =~= Seq::<Card>::empty());
    assert(all.take(0) =~= Seq::<Card>::empty());
    assert(original.skip(0) =~= original);
    while done < total
        invariant
            total == original.len(),
            done <= total,
            found@ == original.skip(done as int),
            all == cards(original),
            cards(sorted@) == arranged(all.take(done as int)),
        decreases total - done,
    {
        let device = found.remove(0);
        proof {
            assert(all.take(done + 1).drop_last() =~= all.take(done as int));
            assert(all.take(done + 1).last() == device@);
            assert(original.skip(done as int).remove(0) =~= original.skip(done + 1));
        }
        insert_in_order(&mut sorted, device);
        done = done + 1;
    }
    assert(all.take(total as int) =~= all);
    sorted
}

/// Whether the kernel lists an AMD card.
pub fn amdgpu_sysfs_available(entries: &Vec<DrmEntry>) -> (r: bool)
    ensures
        r == (arranged(listed(entries@)).len() > 0),
{
    discover_amd_gpus(entries).len() > 0
}

// ---------------------------------------------------------------------------
// Choosing cards
// ---------------------------------------------------------------------------
/// A character of a part between commas.
pub open spec fn is_part_char(c: char) -> bool {
    c != ','
}

/// The parts of a text between its commas.
pub open spec fn comma_parts(s: Seq<char>) -> Seq<Seq<char>>
    decreases s.len(),
{
    let k = crate::text::run_length(s, |c: char| is_part_char(c));
    if k < s.len() {
        seq![s.take(k as int)] + comma_parts(s.skip((k + 1) as int))
    } else {
        seq![s]
    }
}

/// Whether some part of a list of numbers is the number `n`.
pub open spec fn asks_for(devices: Seq<char>, n: nat) -> bool {
    exists|i: int|
        0 <= i < comma_parts(devices).len() && unsigned_value(
            trimmed(#[trigger] comma_parts(devices)[i]),
            usize::MAX as nat,
        ) == Some(n)
}

/// Whether numbers stand in strict order.
pub open spec fn is_increasing(s: Seq<usize>) -> bool {
    forall|i: int, j: int| 0 <= i < j < s.len() ==> s[i] < s[j]
}

fn add_index(indices: &mut Vec<usize>, n: usize)
    requires
        is_increasing(old(indices)@),
    ensures
        is_increasing(final(indices)@),
        forall|m: usize|
            #[trigger] final(indices)@.contains(m) == (old(indices)@.contains(m) || m == n),
{
    let len: usize = indices.len();
    let mut i: usize = 0;
    let ghost before = indices@;
    while i < len && indices[i] < n
        invariant
            len == indices@.len(),
            indices@ == before,
            i <= len,
            forall|j: int| 0 <= j < i ==> indices@[j] < n,
        decreases len - i,
    {
        i = i + 1;
    }
    if i < len && indices[i] == n {
        assert(indices@.contains(n));
        return;
    }
    indices.insert(i, n);
    proof {
        let after = indices@;
        assert(after =~= before.insert(i as int, n));
        assert forall|m: usize| #[trigger] after.contains(m) == (before.contains(m) || m == n) by {
            if before.contains(m) {
                let k = before.index_of(m);
                if k < i {
                    assert(after[k] == m);
                } else {
                    assert(after[k + 1] == m);
                }
            }
            assert(after[i as int] == n);
            if after.contains(m) && m != n {
                let k = after.index_of(m);
                if k < i {
                    assert(before[k] == m);
                } else {
                    assert(before[k - 1] == m);
                }
            }
        }
    }
}

/// The numbers in a list, in order and each once; parts that are no numbers are
/// left out.
pub fn parse_device_filter(devices: &str) -> (r: Vec<usize>)
    ensures
        is_increasing(r@),
        forall|n: usize| #[trigger] r@.contains(n) == asks_for(devices@, n as nat),
{
    let text = chars_of(devices);
    let mut rest = text.as_slice();
    let mut indices: Vec<usize> = Vec::new();
    let ghost all = comma_parts(devices@);
    let ghost mut done: int = 0;
    assert(all.skip(0) =~= all);
    loop
        invariant_except_break
            comma_parts(rest@) == all.skip(done),
            0 <= done < all.len(),
        invariant
            all == comma_parts(devices@),
            is_increasing(indices@),
            forall|n: usize|
                #[trigger] indices@.contains(n) == exists|i: int|
                    0 <= i < done && unsigned_value(trimmed(#[trigger] all[i]), usize::MAX as nat)
                        == Some(n as nat),
        ensures
            done == all.len(),
        decreases rest@.len(),
    {
        let n: usize = rest.len();
        let mut k: usize = 0;
        while k < n && rest[k] != ','
            invariant
                n == rest@.len(),
                k <= n,
                forall|j: int| 0 <= j < k ==> is_part_char(#[trigger] rest@[j]),
            decreases n - k,
        {
            k = k + 1;
        }
        proof {
            crate::text::lemma_run_length(rest@, |c: char| is_part_char(c), k as nat);
            assert(all[done] == all.skip(done)[0]);
            assert(rest@.take(n as int) =~= rest@);
        }
        let part = first_part(rest, k);
        assert(part@ == all[done]);
        let ghost before = indices@;
        if let Some(index) = parse_unsigned(trim(part), usize::MAX as u64) {
            add_index(&mut indices, index as usize);
        }
        proof {
            assert forall|n: usize|
                #[trigger] indices@.contains(n) == exists|i: int|
                    0 <= i < done + 1 && unsigned_value(
                        trimmed(#[trigger] all[i]),
                        usize::MAX as nat,
                    ) == Some(n as nat) by {
                let here = unsigned_value(trimmed(all[done]), usize::MAX as nat);
                if before.contains(n) {
                    let i = choose|i: int|
                        0 <= i < done && unsigned_value(
                            trimmed(#[trigger] all[i]),
                            usize::MAX as nat,
                        ) == Some(n as nat);
                    assert(unsigned_value(trimmed(all[i]), usize::MAX as nat) == Some(n as nat));
                }
            }
            done = done + 1;
        }
        if k < n {
            proof {
                assert(comma_parts(rest@).skip(1) =~= comma_parts(rest@.skip(k + 1)));
                assert(all.skip(done - 1).skip(1) =~= all.skip(done));
                assert(comma_parts(rest@.skip(k + 1)).len() > 0);
            }
            rest = rest_from(rest, k + 1);
        } else {
            assert(all.skip(done - 1).len() == 1);
            break;
        }
    }
    assert forall|n: usize| #[trigger] indices@.contains(n) == asks_for(devices@, n as nat) by {}
    indices
}

/// Whether a list of numbers holds `n`.
fn has_index(filter: &Vec<usize>, n: usize) -> (r: bool)
    ensures
        r == filter@.contains(n),
{
    let mut i: usize = 0;
    while i < filter.len()
        invariant
            i <= filter@.len(),
            forall|j: int| 0 <= j < i ==> filter@[j] != n,
        decreases filter@.len() - i,
    {
        if filter[i] == n {
            return true;
        }
        i = i + 1;
    }
    false
}

/// The cards whose numbers a filter lists.
pub open spec fn picked(found: Seq<Card>, filter: Seq<usize>) -> Seq<Card>
    decreases found.len(),
{
    if found.len() == 0 {
        Seq::empty()
    } else {
        let before = picked(found.drop_last(), filter);
        if filter.contains((found.len() - 1) as usize) {
            before.push(found.last())
        } else {
            before
        }
    }
}

/// The cards that a filter lets through: all of them where it lists none.
pub open spec fn filtered(found: Seq<Card>, filter: Seq<usize>) -> Seq<Card> {
    if filter.len() == 0 {
        found
    } else {
        picked(found, filter)
    }
}

/// The cards that a filter lets through.
pub fn apply_device_filter(devices: Vec<AmdGpuDevice>, filter: &Vec<usize>) -> (r: Vec<AmdGpuDevice>)
    ensures
        cards(r@) == filtered(cards(devices@), filter@),
{
    if filter.len() == 0 {
        return devices;
    }
    let ghost original = devices@;
    let ghost all = cards(original);
    let mut rest = devices;
    let total: usize = rest.len();
    let mut out: Vec<AmdGpuDevice> = Vec::new();
    let mut done: usize = 0;
    assert(cards(out@) =~= Seq::<Card>::empty());
    assert(all.take(0) =~= Seq::<Card>::empty());
    assert(original.skip(0) =~= original);
    while done < total
        invariant
            total == original.len(),
            done <= total,
            rest@ == original.skip(done as int),
            all == cards(original),
            cards(out@) == picked(all.take(done as int), filter@),
        decreases total - done,
    {
        let device = rest.remove(0);
        proof {
            assert(all.take(done + 1).drop_last() =~= all.take(done as int));
            assert(all.take(done + 1).last() == device@);
            assert(original.skip(done as int).remove(0) =~= original.skip(done + 1));
        }
        if has_index(filter, done) {
            assert(cards(out@.push(device)) =~= cards(out@).push(device@));
            out.push(device);
        }
        done = done + 1;
    }
    assert(all.take(total as int) =~= all);
    out
}

/// The AMD cards that are watched.
#[derive(Debug)]
pub struct AmdgpuBackend {
    /// The numbers of the cards to watch; all where there are none.
    pub device_filter: Vec<usize>,
    /// The cards.
    pub devices: Vec<AmdGpuDevice>,
}

impl AmdgpuBackend {
    /// Watches all cards that the kernel lists.
    pub fn with_sysfs(entries: &Vec<DrmEntry>) -> (r: AmdgpuBackend)
        ensures
            r.device_filter@.len() == 0,
            cards(r.devices@) == arranged(listed(entries@)),
    {
        AmdgpuBackend { device_filter: Vec::new(), devices: discover_amd_gpus(entries) }
    }

    /// Watches the cards that the kernel lists and whose numbers `devices` lists.
    pub fn with_sysfs_and_devices(entries: &Vec<DrmEntry>, devices: &str) -> (r: AmdgpuBackend)
        ensures
            is_increasing(r.device_filter@),
            forall|n: usize|
                #[trigger] r.device_filter@.contains(n) == asks_for(devices@, n as nat),
            cards(r.devices@) == filtered(arranged(listed(entries@)), r.device_filter@),
    {
        let device_filter = parse_device_filter(devices);
        let found = discover_amd_gpus(entries);
        let devices = apply_device_filter(found, &device_filter);
        AmdgpuBackend { device_filter, devices }
    }

    /// Whether one of the cards has gone, when it is known of each whether its
    /// directory is still there.
    pub fn has_lost(&self, present: &Vec<bool>) -> (r: bool)
        requires
            present@.len() == self.devices@.len(),
        ensures
            r == exists|i: int| 0 <= i < self.devices@.len() && !#[trigger] present@[i],
    {
        let n: usize = present.len();
        let mut i: usize = 0;
        while i < n
            invariant
                n == present@.len(),
                n == self.devices@.len(),
                i <= n,
                forall|j: int| 0 <= j < i ==> #[trigger] present@[j],
            decreases n - i,
        {
            if !present[i] {
                return true;
            }
            i = i + 1;
        }
        false
    }

    /// Looks for the cards anew, after one of them has gone.
    pub fn snapshot_devices(&mut self, entries: &Vec<DrmEntry>)
        ensures
            final(self).device_filter == old(self).device_filter,
            cards(final(self).devices@) == filtered(
                arranged(listed(entries@)),
                old(self).device_filter@,
            ),
    {
        let found = discover_amd_gpus(entries);
        self.devices = apply_device_filter(found, &self.device_filter);
    }
}

/// The readings of some cards by their names, the last first where two have the
/// same.
pub open spec fn readings_map(pairs: Seq<(String, GpuMetrics)>) -> Map<Seq<char>, GpuMetrics>
    decreases pairs.len(),
{
    if pairs.len() == 0 {
        Map::empty()
    } else {
        readings_map(pairs.drop_last()).insert(pairs.last().0@, pairs.last().1)
    }
}

/// The readings of some cards by their names.
pub fn collect_readings(pairs: &Vec<(String, GpuMetrics)>) -> (r: super::GpuReadings)
    ensures
        r.wf(),
        r@ == readings_map(pairs@),
{
    let mut out: super::GpuReadings = Table::new();
    let n: usize = pairs.len();
    let mut i: usize = 0;
    assert(pairs@.take(0) =~= Seq::<(String, GpuMetrics)>::empty());
    while i < n
        invariant
            n == pairs@.len(),
            i <= n,
            out.wf(),
            out@ == readings_map(pairs@.take(i as int)),
        decreases n - i,
    {
        proof {
            assert(pairs@.take(i + 1).drop_last() =~= pairs@.take(i as int));
            assert(pairs@.take(i + 1).last() == pairs@[i as int]);
        }
        out.insert(pairs[i].0.as_str().to_owned(), pairs[i].1);
        i = i + 1;
    }
    assert(pairs@.take(n as int) =~= pairs@);
    out
}

// ---------------------------------------------------------------------------
// Reporting problems
// ---------------------------------------------------------------------------
/// Remembers which problem was reported of each file.
pub struct OnceKindLog {
    /// The kind of problem that was last reported, by file.
    pub seen: Table<String, String>,
}

impl OnceKindLog {
    /// Nothing reported yet.
    pub fn new() -> (r: OnceKindLog)
        ensures
            r.seen.wf(),
            r.seen@ == Map::<Seq<char>, String>::empty(),
    {
        OnceKindLog { seen: Table::new() }
    }

    /// Whether a problem is to be reported: not where the same kind was the last to
    /// be reported of the file.
    pub fn should_emit(&mut self, key: &str, kind: &str) -> (r: bool)
        requires
            old(self).seen.wf(),
        ensures
            final(self).seen.wf(),
            r == !(old(self).seen@.dom().contains(key@) && old(self).seen@[key@]@ == kind@),
            !r ==> *final(self) == *old(self),
            r ==> exists|v: String|
                v@ == kind@ && final(self).seen@ == #[trigger] old(self).seen@.insert(key@, v),
    {
        let owned = key.to_owned();
        if let Some(last) = self.seen.get(&owned) {
            if same_text(last.as_str(), kind) {
                return false;
            }
        }
        self.seen.insert(owned, kind.to_owned());
        true
    }
}

/// Keeps the same error from being reported over and over.
#[derive(Debug)]
pub struct RepeatErrorLimiter {
    /// The error reported last, and when.
    pub last: Option<(String, Moment)>,
    /// How many nanoseconds pass before it is reported again.
    pub interval: u64,
}

/// Whether an error is to be reported.
pub open spec fn is_news(
    last: Option<(String, Moment)>,
    interval: u64,
    msg: Seq<char>,
    now: Moment,
) -> bool {
    match last {
        None => true,
        Some((prev, at)) => prev@ != msg || elapsed(at, now) >= interval,
    }
}

impl RepeatErrorLimiter {
    /// Nothing reported yet.
    pub fn new(interval: u64) -> (r: RepeatErrorLimiter)
        ensures
            r.last is None,
            r.interval == interval,
    {
        RepeatErrorLimiter { last: None, interval }
    }

    /// Whether an error is to be reported: another one than the last, or the last
    /// one after the interval.
    pub fn should_log(&mut self, msg: &str, now: Moment) -> (r: bool)
        ensures
            r == is_news(old(self).last, old(self).interval, msg@, now),
            final(self).interval == old(self).interval,
            !r ==> final(self).last == old(self).last,
            r ==> match final(self).last {
                Some((prev, at)) => prev@ == msg@ && at == now,
                None => false,
            },
    {
        let news: bool = match &self.last {
            None => true,
            Some((prev, at)) => !same_text(prev.as_str(), msg) || now.since(*at) >= self.interval,
        };
        if news {
            self.last = Some((msg.to_owned(), now));
        }
        news
    }
}

// ---------------------------------------------------------------------------
// Laws
// ---------------------------------------------------------------------------
/// Whether cards stand in order.
pub open spec fn is_arranged(s: Seq<Card>) -> bool {
    forall|i: int, j: int| 0 <= i < j < s.len() ==> !comes_first(#[trigger] s[j], #[trigger] s[i])
}

/// Whether cards can all be ordered in the same way: all by PCI address, or all by
/// directory.
pub open spec fn is_uniform(s: Seq<Card>) -> bool {
    (forall|i: int| 0 <= i < s.len() ==> (#[trigger] s[i]).bdf is Some) || (forall|i: int|
        0 <= i < s.len() ==> (#[trigger] s[i]).bdf is None)
}

proof fn lemma_inserted_arranged(s: Seq<Card>, c: Card)
    requires
        is_arranged(s),
        is_uniform(s.push(c)),
    ensures
        is_arranged(inserted(s, c)),
        inserted(s, c).to_multiset() == s.to_multiset().insert(c),
        is_uniform(inserted(s, c)),
        inserted(s, c).len() == s.len() + 1,
        forall|i: int|
            0 <= i < inserted(s, c).len() ==> s.push(c).contains(#[trigger] inserted(s, c)[i]),
    decreases s.len(),
{
    broadcast use vstd::seq_lib::group_to_multiset_ensures;

    let all = s.push(c);
    if s.len() == 0 || !comes_first(c, s.last()) {
        assert forall|i: int, j: int| 0 <= i < j < all.len() implies !comes_first(
            #[trigger] all[j],
            #[trigger] all[i],
        ) by {
            if j == s.len() && i < s.len() - 1 {
                assert(!comes_first(s[s.len() - 1], s[i]));
                assert(all[s.len() - 1] == s.last() && all[s.len() as int] == c);
                lemma_order(all[i], s.last(), c);
            }
        }
        assert forall|i: int| 0 <= i < all.len() implies all.contains(#[trigger] all[i]) by {}
    } else {
        let t = s.drop_last();
        let front = t.push(c);
        assert forall|i: int| 0 <= i < front.len() implies (#[trigger] front[i]).bdf is Some
            == all[0].bdf is Some by {
            if i < t.len() {
                assert(front[i] == all[i]);
            } else {
                assert(front[i] == all[all.len() - 1]);
            }
        }
        assert(is_uniform(front)) by {
            assert(all[0].bdf is Some || all[0].bdf is None);
        }
        assert(is_arranged(t)) by {
            assert forall|i: int, j: int| 0 <= i < j < t.len() implies !comes_first(
                #[trigger] t[j],
                #[trigger] t[i],
            ) by {
                assert(t[i] == s[i] && t[j] == s[j]);
            }
        }
        lemma_inserted_arranged(t, c);
        let part = inserted(t, c);
        let whole = part.push(s.last());
        assert forall|i: int| 0 <= i < whole.len() implies all.contains(#[trigger] whole[i]) by {
            if i < part.len() {
                assert(front.contains(part[i]));
                let k = front.index_of(part[i]);
                if k < t.len() {
                    assert(all[k] == part[i]);
                } else {
                    assert(all[all.len() - 1] == part[i]);
                }
            } else {
                assert(all[s.len() - 1] == s.last());
            }
        }
        assert forall|i: int, j: int| 0 <= i < j < whole.len() implies !comes_first(
            #[trigger] whole[j],
            #[trigger] whole[i],
        ) by {
            if j == part.len() {
                assert(front.contains(part[i]));
                let k = front.index_of(part[i]);
                if k < t.len() {
                    assert(t[k] == part[i]);
                    assert(!comes_first(s[s.len() - 1], s[k]));
                } else {
                    assert(part[i] == c);
                    assert(all[s.len() - 1] == s.last() && all[s.len() as int] == c);
                    lemma_order(c, s.last(), c);
                }
            }
        }
        assert(is_uniform(whole)) by {
            assert forall|i: int| 0 <= i < whole.len() implies (#[trigger] whole[i]).bdf is Some
                == all[0].bdf is Some by {
                let k = all.index_of(whole[i]);
                assert(all[k] == whole[i]);
            }
            assert(all[0].bdf is Some || all[0].bdf is None);
        }
        assert(t.push(s.last()) =~= s);
        assert(whole.to_multiset() =~= s.to_multiset().insert(c));
    }
}

proof fn lemma_order(a: Card, b: Card, c: Card)
    requires
        (a.bdf is Some && b.bdf is Some && c.bdf is Some) || (a.bdf is None && b.bdf is None
            && c.bdf is None),
    ensures
        !comes_first(b, a) && !comes_first(c, b) ==> !comes_first(c, a),
        comes_first(a, b) ==> !comes_first(b, a),
{
    let x = if a.bdf is Some {
        a.bdf->0
    } else {
        a.card_dir
    };
    let y = if b.bdf is Some {
        b.bdf->0
    } else {
        b.card_dir
    };
    let z = if c.bdf is Some {
        c.bdf->0
    } else {
        c.card_dir
    };
    crate::table::lemma_text_order(x, y, z);
    crate::table::lemma_text_order(x, y, x);
    crate::table::lemma_text_order(z, x, y);
    crate::table::lemma_text_order(y, z, x);
    crate::table::lemma_text_order(x, z, y);
    crate::table::lemma_text_order(z, y, x);
}

/// Cards that can all be ordered in the same way are put in order, and none is lost
/// or made up.
pub proof fn law_cards_are_arranged(s: Seq<Card>)
    requires
        is_uniform(s),
    ensures
        is_arranged(arranged(s)),
        arranged(s).to_multiset() == s.to_multiset(),
    decreases s.len(),
{
    lemma_arranged(s);
}

proof fn lemma_arranged(s: Seq<Card>)
    requires
        is_uniform(s),
    ensures
        is_arranged(arranged(s)),
        arranged(s).to_multiset() == s.to_multiset(),
        arranged(s).len() == s.len(),
        forall|i: int| 0 <= i < s.len() ==> s.contains(#[trigger] arranged(s)[i]),
    decreases s.len(),
{
    broadcast use vstd::seq_lib::group_to_multiset_ensures;

    if s.len() > 0 {
        let t = s.drop_last();
        assert forall|i: int| 0 <= i < t.len() implies (#[trigger] t[i]).bdf is Some
            == s[0].bdf is Some by {
            assert(t[i] == s[i]);
        }
        assert(is_uniform(t)) by {
            assert(s[0].bdf is Some || s[0].bdf is None);
        }
        lemma_arranged(t);
        let sorted = arranged(t);
        let with_last = sorted.push(s.last());
        assert forall|i: int| 0 <= i < with_last.len() implies (#[trigger] with_last[i]).bdf is Some
            == s[0].bdf is Some by {
            if i < sorted.len() {
                assert(t.contains(sorted[i]));
                let k = t.index_of(sorted[i]);
                assert(t[k] == s[k]);
            } else {
                assert(with_last[i] == s[s.len() - 1]);
            }
        }
        assert(is_uniform(with_last)) by {
            assert(s[0].bdf is Some || s[0].bdf is None);
        }
        lemma_inserted_arranged(sorted, s.last());
        let whole = arranged(s);
        assert forall|i: int| 0 <= i < s.len() implies s.contains(#[trigger] whole[i]) by {
            assert(with_last.contains(whole[i]));
            let k = with_last.index_of(whole[i]);
            if k < sorted.len() {
                assert(t.contains(sorted[k]));
                let q = t.index_of(sorted[k]);
                assert(s[q] == whole[i]);
            } else {
                assert(s[s.len() - 1] == whole[i]);
            }
        }
        assert(t.push(s.last()) =~= s);
    } else {
        assert(arranged(s) =~= s);
    }
}

/// No card is listed twice.
pub proof fn law_cards_are_listed_once(entries: Seq<DrmEntry>)
    ensures
        forall|i: int, j: int|
            0 <= i < j < listed(entries).len() ==> (#[trigger] listed(entries)[i]).device_dir != (
            #[trigger] listed(entries)[j]).device_dir,
    decreases entries.len(),
{
    if entries.len() > 0 {
        law_cards_are_listed_once(entries.drop_last());
        let before = listed(entries.drop_last());
        let e = entries.last();
        if is_amd_card(e) && !has_dir(before, e.device_dir@) {
            assert forall|i: int, j: int|
                0 <= i < j < listed(entries).len() implies (#[trigger] listed(
                entries,
            )[i]).device_dir != (#[trigger] listed(entries)[j]).device_dir by {
                if j == before.len() {
                    assert(before[i].device_dir != e.device_dir@);
                }
            }
        }
    }
}

/// The same error is reported once within the interval.
pub proof fn law_errors_are_reported_once(
    msg: String,
    interval: u64,
    first: Moment,
    second: Moment,
)
    ensures
        is_news(Some((msg, first)), interval, msg@, second) == (elapsed(first, second)
            >= interval),
{
}

/// Every card is in the readings, with what was read of it, or of the last of those that
/// have its name, and nothing else is.
pub proof fn law_every_card_is_read(pairs: Seq<(String, GpuMetrics)>, i: int)
    ensures
        0 <= i < pairs.len() ==> readings_map(pairs).dom().contains(pairs[i].0@),
        0 <= i < pairs.len() && (forall|j: int|
            i < j < pairs.len() ==> (#[trigger] pairs[j]).0@ != pairs[i].0@) ==> readings_map(
            pairs,
        )[pairs[i].0@] == pairs[i].1,
        forall|name: Seq<char>| #[trigger]
            readings_map(pairs).dom().contains(name) ==> exists|k: int|
                0 <= k < pairs.len() && (#[trigger] pairs[k]).0@ == name,
    decreases pairs.len(),
{
    if pairs.len() > 0 {
        let front = pairs.drop_last();
        let n = front.len() as int;
        assert(pairs[n] == pairs.last());
        law_every_card_is_read(front, i);
        if 0 <= i < n && (forall|j: int|
            i < j < pairs.len() ==> (#[trigger] pairs[j]).0@ != pairs[i].0@) {
            assert(pairs[n].0@ != pairs[i].0@);
            assert forall|j: int| i < j < front.len() implies (#[trigger] front[j]).0@
                != front[i].0@ by {
                assert(pairs[j].0@ != pairs[i].0@);
            }
        }
        assert forall|name: Seq<char>| #[trigger]
            readings_map(pairs).dom().contains(name) implies exists|k: int|
            0 <= k < pairs.len() && (#[trigger] pairs[k]).0@ == name by {
            if readings_map(front).dom().contains(name) {
                let k = choose|k: int| 0 <= k < front.len() && (#[trigger] front[k]).0@ == name;
                assert(pairs[k].0@ == name);
            } else {
                assert(pairs[n].0@ == name);
            }
        }
    }
}

/// Every AMD card that the kernel lists is found, as the first entry with its directory
/// describes it, in the order of the entries; entries that are no AMD cards add nothing.
pub proof fn law_every_amd_card_is_found(entries: Seq<DrmEntry>, e: DrmEntry)
    ensures
        listed(Seq::empty()) == Seq::<Card>::empty(),
        is_amd_card(e) && (forall|i: int|
            0 <= i < entries.len() && is_amd_card(#[trigger] entries[i]) ==> entries[i].device_dir@
                != e.device_dir@) ==> listed(entries.push(e)) == listed(entries).push(card_of(e)),
        is_amd_card(e) && (exists|i: int|
            0 <= i < entries.len() && is_amd_card(#[trigger] entries[i]) && entries[i].device_dir@
                == e.device_dir@) ==> listed(entries.push(e)) == listed(entries),
        !is_amd_card(e) ==> listed(entries.push(e)) == listed(entries),
{
    assert(entries.push(e).drop_last() =~= entries);
    lemma_listed_dirs(entries, e.device_dir@);
}

proof fn lemma_listed_dirs(entries: Seq<DrmEntry>, dir: Seq<char>)
    ensures
        has_dir(listed(entries), dir) == exists|i: int|
            0 <= i < entries.len() && is_amd_card(#[trigger] entries[i])
                && entries[i].device_dir@ == dir,
    decreases entries.len(),
{
    let all = listed(entries);
    if entries.len() > 0 {
        let front = entries.drop_last();
        let n = front.len() as int;
        let before = listed(front);
        lemma_listed_dirs(front, dir);
        lemma_listed_dirs(front, entries.last().device_dir@);
        assert(entries[n] == entries.last());
        if has_dir(before, dir) {
            let k = choose|k: int| 0 <= k < before.len() && (#[trigger] before[k]).device_dir == dir;
            assert(all[k].device_dir == dir);
            let i = choose|i: int|
                0 <= i < front.len() && is_amd_card(#[trigger] front[i]) && front[i].device_dir@
                    == dir;
            assert(is_amd_card(entries[i]) && entries[i].device_dir@ == dir);
        }
        if is_amd_card(entries[n]) && entries[n].device_dir@ == dir && !has_dir(before, dir) {
            assert(all[before.len() as int].device_dir == dir);
        }
        if has_dir(all, dir) && !has_dir(before, dir) {
            let k = choose|k: int| 0 <= k < all.len() && (#[trigger] all[k]).device_dir == dir;
            if k < before.len() {
                assert(before[k].device_dir == dir);
            }
        }
        if exists|i: int|
            0 <= i < entries.len() && is_amd_card(#[trigger] entries[i]) && entries[i].device_dir@
                == dir {
            let i = choose|i: int|
                0 <= i < entries.len() && is_amd_card(#[trigger] entries[i])
                    && entries[i].device_dir@ == dir;
            if i < n {
                assert(is_amd_card(front[i]) && front[i].device_dir@ == dir);
            }
        }
    }
}

/// An AMD card is called `card` and a number, and its vendor is that of AMD.
pub proof fn law_amd_cards_are_told(e: DrmEntry)
    ensures
        is_amd_card(e) == (e.vendor is Some && hex_id(e.vendor->0@) == Some(0x1002u16)
            && is_card_name(e.name@)),
        is_card_name(e.name@) == exists|digits: Seq<char>|
            e.name@ == "card"@ + digits && digits.len() > 0 && #[trigger] crate::text::all_digits(
                digits,
            ),
{
    let name = e.name@;
    let card = "card"@;
    if is_card_name(name) {
        let digits = name.skip(card.len() as int);
        assert(name =~= card + digits);
    }
    if exists|digits: Seq<char>|
        name == card + digits && digits.len() > 0 && #[trigger] crate::text::all_digits(digits) {
        let digits = choose|digits: Seq<char>|
            name == card + digits && digits.len() > 0 && #[trigger] crate::text::all_digits(
                digits,
            );
        assert(name.take(card.len() as int) =~= card);
        assert(name.skip(card.len() as int) =~= digits);
    }
}

/// Hexadecimal digits write a number: one more digit makes sixteen times the number and
/// the digit.
pub proof fn law_hexadecimal_digits(s: Seq<char>, c: char)
    ensures
        hex_value(Seq::empty()) == 0,
        '0' <= c <= '9' ==> hex_value(s.push(c)) == 16 * hex_value(s) + (c as nat - '0' as nat),
        'a' <= c <= 'f' ==> hex_value(s.push(c)) == 16 * hex_value(s) + (c as nat - 'a' as nat)
            + 10,
        'A' <= c <= 'F' ==> hex_value(s.push(c)) == 16 * hex_value(s) + (c as nat - 'A' as nat)
            + 10,
        is_hex(c) == ('0' <= c <= '9' || 'a' <= c <= 'f' || 'A' <= c <= 'F'),
{
    assert(s.push(c).drop_last() =~= s);
}

/// A vendor's number is read with or without its prefix and with white space around it,
/// where it fits.
pub proof fn law_vendor_number_is_read(before: Seq<char>, digits: Seq<char>, behind: Seq<char>)
    requires
        forall|i: int| 0 <= i < before.len() ==> is_space(#[trigger] before[i]),
        forall|i: int| 0 <= i < behind.len() ==> is_space(#[trigger] behind[i]),
        digits.len() > 0,
        forall|i: int| 0 <= i < digits.len() ==> is_hex(#[trigger] digits[i]),
    ensures
        ({
            let number = if hex_value(digits) <= 0xffff {
                Some(hex_value(digits) as u16)
            } else {
                None
            };
            &&& hex_id(before + digits + behind) == number
            &&& hex_id(before + ("0x"@ + digits) + behind) == number
            &&& hex_id(before + ("0X"@ + digits) + behind) == number
        }),
{
    reveal_strlit("0x");
    reveal_strlit("0X");
    let low = "0x"@ + digits;
    let high = "0X"@ + digits;
    let n = digits.len() as int;
    assert forall|c: char| #[trigger] is_hex(c) implies !is_space(c) && c != 'x' && c != 'X' && c
        != '+' by {}
    assert(is_hex(digits[0]) && is_hex(digits[n - 1]));
    assert(low[0] == '0' && low.last() == digits[n - 1]);
    assert(high[0] == '0' && high.last() == digits[n - 1]);
    crate::text::law_trimming(before, digits, behind);
    crate::text::law_trimming(before, low, behind);
    crate::text::law_trimming(before, high, behind);
    assert(low[1] == 'x' && high[1] == 'X');
    assert(low.skip(2) =~= digits);
    assert(high.skip(2) =~= digits);
    assert("0x"@[1] == 'x' && "0X"@[1] == 'X');
    if has_prefix(digits, "0x"@) {
        assert(digits.take(2)[1] == digits[1]);
        assert(is_hex(digits[1]));
    }
    if has_prefix(digits, "0X"@) {
        assert(digits.take(2)[1] == digits[1]);
        assert(is_hex(digits[1]));
    }
    if has_prefix(high, "0x"@) {
        assert(high.take(2)[1] == high[1]);
    }
    assert(low.take(2) =~= "0x"@);
    assert(high.take(2) =~= "0X"@);
    assert(without_prefixes(digits, "0x"@) == digits);
    assert(without_prefixes(digits, "0X"@) == digits);
    assert(without_prefixes(low, "0x"@) == digits);
    assert(without_prefixes(high, "0x"@) == high);
    assert(without_prefixes(high, "0X"@) == digits);
}

/// All cards can be put in order: none is lost and none is made up, whatever they are.
pub proof fn law_no_card_is_lost_in_order(s: Seq<Card>)
    ensures
        arranged(s).to_multiset() == s.to_multiset(),
    decreases s.len(),
{
    broadcast use vstd::seq_lib::group_to_multiset_ensures;

    if s.len() > 0 {
        law_no_card_is_lost_in_order(s.drop_last());
        lemma_inserted_once(arranged(s.drop_last()), s.last());
        assert(s.drop_last().push(s.last()) =~= s);
    } else {
        assert(arranged(s) =~= s);
    }
}

proof fn lemma_inserted_once(s: Seq<Card>, c: Card)
    ensures
        inserted(s, c).to_multiset() == s.to_multiset().insert(c),
    decreases s.len(),
{
    broadcast use vstd::seq_lib::group_to_multiset_ensures;

    if s.len() > 0 && comes_first(c, s.last()) {
        lemma_inserted_once(s.drop_last(), c);
        assert(s.drop_last().push(s.last()) =~= s);
        assert(inserted(s, c).to_multiset() =~= s.to_multiset().insert(c));
    }
}

/// A filter lets through the cards whose numbers it lists, in their order, and all cards
/// where it lists none.
pub proof fn law_filter_picks_by_number(found: Seq<Card>, c: Card, filter: Seq<usize>)
    requires
        found.len() < usize::MAX,
        filter.len() > 0,
    ensures
        filtered(Seq::empty(), filter) == Seq::<Card>::empty(),
        filter.contains(found.len() as usize) ==> filtered(found.push(c), filter) == filtered(
            found,
            filter,
        ).push(c),
        !filter.contains(found.len() as usize) ==> filtered(found.push(c), filter) == filtered(
            found,
            filter,
        ),
        filtered(found, Seq::empty()) == found,
{
    assert(found.push(c).drop_last() =~= found);
}

/// A list of numbers is read part by part: the first part stands before the first comma,
/// and the others are those of the rest.
pub proof fn law_lists_are_read_part_by_part(a: Seq<char>, b: Seq<char>)
    requires
        !a.contains(','),
    ensures
        comma_parts(a) == seq![a],
        comma_parts(a + seq![','] + b) == seq![a] + comma_parts(b),
{
    let keep = |c: char| is_part_char(c);
    let s = a + seq![','] + b;
    assert forall|j: int| 0 <= j < a.len() implies keep(#[trigger] a[j]) by {
        assert(a.contains(a[j]));
    }
    crate::text::lemma_run_length(a, keep, a.len());
    assert forall|j: int| 0 <= j < a.len() implies keep(#[trigger] s[j]) by {
        assert(s[j] == a[j]);
    }
    assert(s[a.len() as int] == ',');
    crate::text::lemma_run_length(s, keep, a.len());
    assert(s.take(a.len() as int) =~= a);
    assert(s.skip(a.len() as int + 1) =~= b);
}

/// A list asks for every number that is one of its parts, and for no other.
pub proof fn law_list_asks_for_its_parts(a: Seq<char>, b: Seq<char>, n: nat)
    requires
        !a.contains(','),
    ensures
        asks_for(a, n) == (unsigned_value(trimmed(a), usize::MAX as nat) == Some(n)),
        asks_for(a + seq![','] + b, n) == (asks_for(a, n) || asks_for(b, n)),
{
    law_lists_are_read_part_by_part(a, b);
    let s = a + seq![','] + b;
    let parts = comma_parts(s);
    let rest = comma_parts(b);
    assert(comma_parts(a)[0] == a);
    assert(parts[0] == a);
    assert forall|i: int| 0 <= i < rest.len() implies parts[i + 1] == #[trigger] rest[i] by {}
    if asks_for(b, n) {
        let i = choose|i: int|
            0 <= i < rest.len() && unsigned_value(
                trimmed(#[trigger] rest[i]),
                usize::MAX as nat,
            ) == Some(n);
        assert(parts[i + 1] == rest[i]);
    }
    if asks_for(s, n) && !asks_for(a, n) {
        let i = choose|i: int|
            0 <= i < parts.len() && unsigned_value(
                trimmed(#[trigger] parts[i]),
                usize::MAX as nat,
            ) == Some(n);
        assert(i > 0);
        assert(rest[i - 1] == parts[i]);
    }
}

/// The sensors of a card stand in the directory called so with the first path, and there
/// are none where no directory is called so.
pub proof fn law_first_amd_directory_is_taken(hwmons: Seq<(String, Option<String>)>, i: int)
    ensures
        (amd_hwmon(hwmons) is None) == (forall|j: int|
            0 <= j < hwmons.len() ==> !is_amd_hwmon(#[trigger] hwmons[j])),
        amd_hwmon(hwmons) is Some ==> exists|j: int|
            0 <= j < hwmons.len() && is_amd_hwmon(#[trigger] hwmons[j]) && hwmons[j].0@
                == amd_hwmon(hwmons)->0,
        0 <= i < hwmons.len() && is_amd_hwmon(hwmons[i]) ==> !text_before(
            hwmons[i].0@,
            amd_hwmon(hwmons)->0,
        ),
        0 <= i < hwmons.len() ==> is_amd_hwmon(hwmons[i]) == (hwmons[i].1 is Some && lowered(
            trimmed((hwmons[i].1->0)@),
        ) == "amdgpu"@),
    decreases hwmons.len(),
{
    if hwmons.len() > 0 {
        let front = hwmons.drop_last();
        let n = front.len() as int;
        assert(hwmons[n] == hwmons.last());
        law_first_amd_directory_is_taken(front, i);
        let path = hwmons.last().0@;
        let before = amd_hwmon(front);
        if before is Some {
            let j = choose|j: int|
                0 <= j < front.len() && is_amd_hwmon(#[trigger] front[j]) && front[j].0@
                    == before->0;
            assert(hwmons[j] == front[j]);
            crate::table::lemma_text_order(path, before->0, path);
            if 0 <= i < n {
                assert(front[i] == hwmons[i]);
                crate::table::lemma_text_order(hwmons[i].0@, path, before->0);
            }
        } else {
            crate::table::lemma_text_order(path, path, path);
            assert forall|j: int| 0 <= j < n implies !is_amd_hwmon(#[trigger] hwmons[j]) by {
                assert(front[j] == hwmons[j]);
            }
        }
        if is_amd_hwmon(hwmons[n]) {
            assert(amd_hwmon(hwmons) is Some);
        }
        assert forall|j: int| 0 <= j < n implies #[trigger] front[j] == hwmons[j] by {}
        if before is None && !is_amd_hwmon(hwmons[n]) {
            assert forall|j: int| 0 <= j < hwmons.len() implies !is_amd_hwmon(
                #[trigger] hwmons[j],
            ) by {
                if j < n {
                    assert(front[j] == hwmons[j]);
                }
            }
        }
    }
}

/// A file is found by its name: the first one that has it, without white space around its
/// contents; none where they are blank.
pub proof fn law_file_is_found_by_name(
    files: Seq<(Seq<char>, Seq<char>)>,
    name: Seq<char>,
    i: int,
)
    ensures
        0 <= i < files.len() && files[i].0 == name && (forall|j: int|
            0 <= j < i ==> (#[trigger] files[j]).0 != name) ==> file_text(files, name) == (if trimmed(
            files[i].1,
        ).len() > 0 {
            Some(trimmed(files[i].1))
        } else {
            None
        }),
        (forall|j: int| 0 <= j < files.len() ==> (#[trigger] files[j]).0 != name) ==> file_text(
            files,
            name,
        ) is None,
{
    if forall|j: int| 0 <= j < files.len() ==> (#[trigger] files[j]).0 != name {
        lemma_file_from(files, name, 0, files.len());
    }
    if 0 <= i < files.len() && files[i].0 == name && (forall|j: int|
        0 <= j < i ==> (#[trigger] files[j]).0 != name) {
        lemma_file_from(files, name, 0, i as nat);
    }
}

proof fn lemma_file_from(
    files: Seq<(Seq<char>, Seq<char>)>,
    name: Seq<char>,
    from: nat,
    i: nat,
)
    requires
        from <= i <= files.len(),
        forall|j: int| from <= j < i ==> (#[trigger] files[j]).0 != name,
        i < files.len() ==> files[i as int].0 == name,
    ensures
        file_from(files, name, from) == if i < files.len() {
            Some(files[i as int].1)
        } else {
            None
        },
    decreases i - from,
{
    if from < i {
        assert(files[from as int].0 != name);
        lemma_file_from(files, name, from + 1, i);
    }
}

/// The name of a sensor's file holds its number.
pub proof fn law_sensor_files_are_numbered(kind: Seq<char>, n: nat, part: Seq<char>)
    requires
        n < 100,
    ensures
        exists|digits: Seq<char>|
            sensor_file(kind, n, part) == kind + digits + part && digits.len() > 0
                && crate::text::all_digits(digits) && #[trigger] crate::text::decimal_value(digits)
                == n && (digits.len() > 1 ==> digits[0] != '0'),
{
    let digits = small_decimal(n);
    let none = Seq::<char>::empty();
    if n < 10 {
        let c = (n + '0' as nat) as char;
        assert(digits =~= none.push(c));
        crate::text::law_digits_write_a_number(none, c);
    } else {
        let c = (n / 10 + '0' as nat) as char;
        let d = (n % 10 + '0' as nat) as char;
        assert(digits =~= none.push(c).push(d));
        crate::text::law_digits_write_a_number(none, c);
        crate::text::law_digits_write_a_number(none.push(c), d);
    }
    assert(crate::text::decimal_value(digits) == n);
}

/// A temperature is what the last of the sixteen sensors at its place reads, and there is
/// none where none of them is there.
pub proof fn law_temperature_of_a_place(
    files: Seq<(Seq<char>, Seq<char>)>,
    place: TempKind,
    n: nat,
    c: Binary32,
)
    ensures
        1 <= n <= 16 && temperature(files, n) == Some((place, c)) && (forall|m: nat|
            n < m <= 16 ==> !reads_at(files, place, m)) ==> temperature_at(
            files,
            MAX_HWMON_SENSORS as nat,
            place,
        ) == Some(c),
        (forall|m: nat| 1 <= m <= 16 ==> !reads_at(files, place, m)) ==> temperature_at(
            files,
            MAX_HWMON_SENSORS as nat,
            place,
        ) is None,
{
    if forall|m: nat| 1 <= m <= 16 ==> !reads_at(files, place, m) {
        lemma_no_temperature(files, place, 0, 16);
    }
    if 1 <= n <= 16 && temperature(files, n) == Some((place, c)) && (forall|m: nat|
        n < m <= 16 ==> !reads_at(files, place, m)) {
        lemma_no_temperature(files, place, n, 16);
    }
}

/// Whether the sensor `n` reads the temperature at a place.
pub open spec fn reads_at(files: Seq<(Seq<char>, Seq<char>)>, place: TempKind, n: nat) -> bool {
    temperature(files, n) is Some && (temperature(files, n)->0).0 == place
}

proof fn lemma_no_temperature(
    files: Seq<(Seq<char>, Seq<char>)>,
    place: TempKind,
    from: nat,
    n: nat,
)
    requires
        from <= n,
        forall|m: nat| from < m <= n ==> !reads_at(files, place, m),
    ensures
        temperature_at(files, n, place) == temperature_at(files, from, place),
    decreases n - from,
{
    if from < n {
        assert(!reads_at(files, place, n));
        lemma_no_temperature(files, place, from, (n - 1) as nat);
    }
}

/// A sensor reads a temperature where its label names a place and its file holds a number
/// of thousandths of a degree between fifty below zero and two hundred degrees.
pub proof fn law_sensor_reads_a_temperature(
    files: Seq<(Seq<char>, Seq<char>)>,
    n: nat,
    label: Seq<char>,
    raw: Seq<char>,
)
    requires
        file_text(files, sensor_file("temp"@, n, "_label"@)) == Some(label),
        file_text(files, sensor_file("temp"@, n, "_input"@)) == Some(raw),
    ensures
        ({
            let place = lowered(trimmed(label));
            let x = float_value(trimmed(raw));
            let c = (x->0).quotient(Binary64::of(1000));
            let plausible = x is Some && (x->0).finite() && c.finite() && c.within(
                Binary64::of(50).opposite(),
                Binary64::of(200),
            );
            let read = temperature(files, n);
            &&& plausible && place == "edge"@ ==> read == Some((TempKind::Edge, c.narrowed()))
            &&& plausible && (place == "junction"@ || place == "hotspot"@) ==> read == Some(
                (TempKind::Junction, c.narrowed()),
            )
            &&& plausible && (place == "mem"@ || place == "memory"@) ==> read == Some(
                (TempKind::Memory, c.narrowed()),
            )
            &&& !plausible ==> read is None
            &&& place != "edge"@ && place != "junction"@ && place != "hotspot"@ && place != "mem"@
                && place != "memory"@ ==> read is None
        }),
{
    reveal_strlit("edge");
    reveal_strlit("junction");
    reveal_strlit("hotspot");
    reveal_strlit("mem");
    reveal_strlit("memory");
    assert("edge"@.len() == 4 && "junction"@.len() == 8 && "hotspot"@.len() == 7);
    assert("mem"@.len() == 3 && "memory"@.len() == 6);
}

/// A clock is that of the first of the sixteen sensors whose label names it and whose file
/// holds a plausible one, and there is none where no sensor gives it.
pub proof fn law_clock_of_the_first_sensor(
    files: Seq<(Seq<char>, Seq<char>)>,
    first: Seq<char>,
    second: Seq<char>,
    n: nat,
)
    ensures
        1 <= n <= 16 && sensor_clock(files, n, first, second) is Some && (forall|m: nat|
            1 <= m < n ==> #[trigger] sensor_clock(files, m, first, second) is None) ==> clock_from(
            files,
            1,
            first,
            second,
        ) == sensor_clock(files, n, first, second),
        (forall|m: nat|
            1 <= m <= 16 ==> #[trigger] sensor_clock(files, m, first, second) is None)
            ==> clock_from(files, 1, first, second) is None,
{
    if forall|m: nat| 1 <= m <= 16 ==> #[trigger] sensor_clock(files, m, first, second) is None {
        lemma_clock_from(files, first, second, 1, 17);
    }
    if 1 <= n <= 16 && sensor_clock(files, n, first, second) is Some && (forall|m: nat|
        1 <= m < n ==> #[trigger] sensor_clock(files, m, first, second) is None) {
        lemma_clock_from(files, first, second, 1, n);
    }
}

proof fn lemma_clock_from(
    files: Seq<(Seq<char>, Seq<char>)>,
    first: Seq<char>,
    second: Seq<char>,
    from: nat,
    n: nat,
)
    requires
        from <= n <= 17,
        forall|m: nat| from <= m < n ==> #[trigger] sensor_clock(files, m, first, second) is None,
    ensures
        clock_from(files, from, first, second) == clock_from(files, n, first, second),
    decreases n - from,
{
    if from < n {
        assert(sensor_clock(files, from, first, second) is None);
        lemma_clock_from(files, first, second, from + 1, n);
    }
}

/// A sensor's clock is that of its file where its label names the clock, in any case.
pub proof fn law_sensor_reads_a_clock(
    files: Seq<(Seq<char>, Seq<char>)>,
    n: nat,
    first: Seq<char>,
    second: Seq<char>,
    label: Seq<char>,
    raw: Seq<char>,
)
    requires
        file_text(files, sensor_file("freq"@, n, "_label"@)) == Some(label),
        file_text(files, sensor_file("freq"@, n, "_input"@)) == Some(raw),
    ensures
        ({
            let t = lowered(trimmed(label));
            let x = float_value(trimmed(raw));
            let named = has_part(t, first) || has_part(t, second);
            &&& named && x is Some ==> sensor_clock(files, n, first, second) == frequency(x->0)
            &&& !named || x is None ==> sensor_clock(files, n, first, second) is None
        }),
{
    let t = lowered(trimmed(label));
    crate::text::law_held_is_a_part(t, first);
    crate::text::law_held_is_a_part(t, second);
}

/// Powers are told by their size: from a million on they are microwatts, from ten thousand
/// on milliwatts, else watts. No power is negative, endless or above two thousand watts.
pub proof fn law_power_is_told_by_its_size(raw: Binary64)
    ensures
        ({
            let micro = Binary64::of(1_000_000).at_most(raw);
            let milli = Binary64::of(10_000).at_most(raw);
            let w = if micro {
                raw.quotient(Binary64::of(1_000_000))
            } else if milli {
                raw.quotient(Binary64::of(1_000))
            } else {
                raw
            };
            let plausible = raw.finite() && raw.rank() >= 0 && w.finite() && w.within(
                Binary64 { bits: 0 },
                Binary64::of(2_000),
            );
            &&& plausible ==> watts(raw) == Some(w.narrowed())
            &&& !plausible ==> watts(raw) is None
        }),
{
}

/// Clocks are told by their size: from a million on they are hertz, from a thousand on
/// kilohertz, else megahertz. No clock is negative, endless or above ten thousand
/// megahertz.
pub proof fn law_clock_is_told_by_its_size(raw: Binary64)
    ensures
        ({
            let hertz = Binary64::of(1_000_000).at_most(raw);
            let kilo = Binary64::of(1_000).at_most(raw);
            let mhz = if hertz {
                raw.quotient(Binary64::of(1_000_000))
            } else if kilo {
                raw.quotient(Binary64::of(1_000))
            } else {
                raw
            };
            let plausible = raw.finite() && raw.rank() >= 0 && mhz.finite() && mhz.within(
                Binary64 { bits: 0 },
                Binary64::of(10_000),
            );
            &&& plausible ==> frequency(raw) == Some(mhz.rounded() as u32)
            &&& !plausible ==> frequency(raw) is None
        }),
{
}

/// What a card's own files tell: a percentage of use from zero to one hundred, memory in
/// whole MiB, and the clocks of its tables. What a file does not tell is zero.
pub proof fn law_files_of_a_card(device: Seq<(Seq<char>, Seq<char>)>)
    ensures
        ({
            let m = card_metrics(device);
            let load = file_text(device, "gpu_busy_percent"@);
            let x = float_value(trimmed(load->0));
            let used = file_text(device, "mem_info_vram_used"@);
            let total = file_text(device, "mem_info_vram_total"@);
            let core = file_text(device, "pp_dpm_sclk"@);
            let memory = file_text(device, "pp_dpm_mclk"@);
            &&& load is Some && x is Some && (x->0).finite() && (x->0).within(
                Binary64 { bits: 0 },
                Binary64::of(100),
            ) ==> m.load == (x->0).rounded() as u32
            &&& load is None || x is None || !(x->0).finite() || !(x->0).within(
                Binary64 { bits: 0 },
                Binary64::of(100),
            ) ==> m.load == 0
            &&& m.vram_used == if used is Some {
                mib_of(used->0)
            } else {
                0
            }
            &&& m.vram_total == if total is Some {
                mib_of(total->0)
            } else {
                0
            }
            &&& m.sclk_mhz == if core is Some && table_mhz(core->0) is Some {
                table_mhz(core->0)->0
            } else {
                0
            }
            &&& m.mclk_mhz == if memory is Some && table_mhz(memory->0) is Some {
                table_mhz(memory->0)->0
            } else {
                0
            }
            &&& m.temp.bits == 0 && m.temp_edge is None && m.temp_junction is None
            &&& m.temp_memory is None && m.power_consumption is None
            &&& m.power_kind == PowerKind::Current && m.power_limit == 0
            &&& m.fan_rpm is None && m.fan_percent is None
        }),
{
}

/// The whole MiB of the bytes that a text counts.
pub open spec fn mib_of(raw: Seq<char>) -> u64 {
    match unsigned_value(trimmed(raw), u64::MAX as nat) {
        Some(n) => (n / (1024 * 1024)) as u64,
        None => 0,
    }
}

/// What the sensors of a card tell: temperatures by place, the average power before the
/// power of the moment, the power limit, the fan, and the clocks where the card's own
/// files tell none. What they do not tell stays as it is.
pub proof fn law_sensors_of_a_card(m: GpuMetrics, files: Seq<(Seq<char>, Seq<char>)>)
    ensures
        ({
            let r = with_sensors(m, files);
            let edge = temperature_at(files, 16, TempKind::Edge);
            let junction = temperature_at(files, 16, TempKind::Junction);
            let memory = temperature_at(files, 16, TempKind::Memory);
            let average = file_watts(files, "power1_average"@);
            let current = file_watts(files, "power1_input"@);
            let limit = file_watts(files, "power1_cap"@);
            let fan = file_text(files, "fan1_input"@);
            let turns = unsigned_value(trimmed(fan->0), u32::MAX as nat);
            let core = clock_from(files, 1, "sclk"@, "gfx"@);
            let memory_clock = clock_from(files, 1, "mclk"@, "mem"@);
            &&& edge is Some ==> r.temp_edge == edge
            &&& edge is None ==> r.temp_edge == m.temp_edge
            &&& junction is Some ==> r.temp_junction == junction
            &&& junction is None ==> r.temp_junction == m.temp_junction
            &&& memory is Some ==> r.temp_memory == memory
            &&& memory is None ==> r.temp_memory == m.temp_memory
            &&& average is Some ==> r.power_consumption == average && r.power_kind
                == PowerKind::Average
            &&& average is None && current is Some ==> r.power_consumption == current
                && r.power_kind == PowerKind::Current
            &&& average is None && current is None ==> r.power_consumption == m.power_consumption
                && r.power_kind == m.power_kind
            &&& limit is Some && (limit->0).widened().finite() && (limit->0).widened().rounded()
                <= u32::MAX ==> r.power_limit == (limit->0).widened().rounded()
            &&& limit is None ==> r.power_limit == m.power_limit
            &&& fan is Some && turns is Some ==> r.fan_rpm == Some((turns->0) as u32)
            &&& fan is None || turns is None ==> r.fan_rpm == m.fan_rpm
            &&& m.sclk_mhz == 0 && core is Some ==> r.sclk_mhz == core->0
            &&& m.sclk_mhz != 0 || core is None ==> r.sclk_mhz == m.sclk_mhz
            &&& m.mclk_mhz == 0 && memory_clock is Some ==> r.mclk_mhz == memory_clock->0
            &&& m.mclk_mhz != 0 || memory_clock is None ==> r.mclk_mhz == m.mclk_mhz
            &&& r.load == m.load && r.vram_used == m.vram_used && r.vram_total == m.vram_total
            &&& r.temp == m.temp
        }),
        forall|name: Seq<char>| #[trigger]
            file_watts(files, name) == if file_text(files, name) is Some && float_value(
                trimmed(file_text(files, name)->0),
            ) is Some {
                watts(float_value(trimmed(file_text(files, name)->0))->0)
            } else {
                None
            },
{
}

/// The fan's speed is its share of the highest, in percent and rounded, where the highest
/// is positive and the share no more than all of it.
pub proof fn law_fan_is_a_share_of_its_highest(m: GpuMetrics, files: Seq<(Seq<char>, Seq<char>)>)
    ensures
        ({
            let speed = file_text(files, "pwm1"@);
            let highest = file_text(files, "pwm1_max"@);
            let p = float_value(trimmed(speed->0));
            let q = float_value(trimmed(highest->0));
            let share = (p->0).quotient(q->0).product(Binary64::of(100));
            let known = speed is Some && highest is Some && p is Some && q is Some && (
            p->0).finite() && (p->0).rank() >= 0 && (q->0).finite() && (q->0).rank() > 0
                && share.finite() && share.rank() >= 0 && share.rounded() <= 100;
            &&& known ==> with_sensors(m, files).fan_percent == Some(share.rounded() as u32)
            &&& !known ==> with_sensors(m, files).fan_percent == m.fan_percent
        }),
{
}

/// The temperature shown is that of the junction, or else of the edge, or else of the
/// memory, and nothing else of a card depends on it.
pub proof fn law_junction_is_shown_first(
    device: Seq<(Seq<char>, Seq<char>)>,
    hwmon: Option<Seq<(Seq<char>, Seq<char>)>>,
)
    ensures
        ({
            let m = device_metrics(device, hwmon);
            &&& m.temp_junction is Some ==> m.temp == m.temp_junction->0
            &&& m.temp_junction is None && m.temp_edge is Some ==> m.temp == m.temp_edge->0
            &&& m.temp_junction is None && m.temp_edge is None && m.temp_memory is Some ==> m.temp
                == m.temp_memory->0
            &&& m.temp_junction is None && m.temp_edge is None && m.temp_memory is None
                ==> m.temp.bits == 0
            &&& hwmon is None ==> m == (GpuMetrics { temp: m.temp, ..card_metrics(device) })
            &&& hwmon is Some ==> m == (GpuMetrics {
                temp: m.temp,
                ..with_sensors(card_metrics(device), hwmon->0)
            })
        }),
{
}

/// A table of clocks is read by its first starred line, whatever stands before and behind
/// it.
pub proof fn law_starred_clock_is_read(
    lines: Seq<char>,
    line: Seq<char>,
    end: Seq<char>,
    rest: Seq<char>,
)
    requires
        lines.len() == 0 || lines.last() == '\n',
        !lines.contains('*'),
        !line.contains('\n'),
        line.contains('*'),
        is_line_end(line, end, rest),
    ensures
        table_mhz(lines + (line + end + rest)) == line_mhz(line),
    decreases lines.len(),
{
    let all = lines + (line + end + rest);
    let tail = line + end + rest;
    crate::text::lemma_first_line_is(line, end, rest);
    if lines.len() == 0 {
        assert(all =~= tail);
        let i = line.index_of('*');
        assert(tail[i] == line[i]);
    } else {
        lemma_starred_skip(lines, tail);
        assert(tail.len() > 0);
    }
}

proof fn lemma_starred_skip(lines: Seq<char>, tail: Seq<char>)
    requires
        lines.len() == 0 || lines.last() == '\n',
        !lines.contains('*'),
    ensures
        starred_line(lines + tail) == starred_line(tail),
    decreases lines.len(),
{
    let all = lines + tail;
    if lines.len() == 0 {
        assert(all =~= tail);
    } else {
        crate::text::lemma_first_line_of_lines(lines, tail);
        let after = after_first_line(lines);
        let line = first_line(lines);
        crate::text::lemma_run_is(lines, |c: char| crate::text::is_line_char(c));
        if line.contains('*') {
            let i = line.index_of('*');
            assert(lines[i] == '*');
            assert(lines.contains('*'));
        }
        if after.contains('*') {
            let i = after.index_of('*');
            let k = lines.len() - after.len();
            assert(lines[k + i] == after[i]);
            assert(lines.contains('*'));
        }
        lemma_starred_skip(after, tail);
    }
}

proof fn lemma_no_star(s: Seq<char>)
    requires
        !s.contains('*'),
    ensures
        starred_line(s) is None,
    decreases s.len(),
{
    if s.len() > 0 {
        let line = first_line(s);
        let after = after_first_line(s);
        crate::text::lemma_run_is(s, |c: char| crate::text::is_line_char(c));
        if line.contains('*') {
            let i = line.index_of('*');
            assert(s[i] == '*');
        }
        if after.contains('*') {
            let i = after.index_of('*');
            assert(s[s.len() - after.len() + i] == '*');
        }
        lemma_no_star(after);
    }
}

proof fn lemma_blank_lines(s: Seq<char>)
    requires
        forall|i: int| 0 <= i < s.len() ==> is_space(#[trigger] s[i]),
    ensures
        last_filled_line(s) is None,
    decreases s.len(),
{
    if s.len() > 0 {
        let line = first_line(s);
        let after = after_first_line(s);
        crate::text::lemma_run_is(s, |c: char| crate::text::is_line_char(c));
        assert forall|i: int| 0 <= i < line.len() implies is_space(#[trigger] line[i]) by {
            assert(line[i] == s[i]);
        }
        assert forall|i: int| 0 <= i < after.len() implies is_space(#[trigger] after[i]) by {
            assert(after[i] == s[s.len() - after.len() + i]);
        }
        crate::text::lemma_blank_is_trimmed(line);
        lemma_blank_lines(after);
    }
}

proof fn lemma_filled_behind(lines: Seq<char>, tail: Seq<char>)
    requires
        lines.len() == 0 || lines.last() == '\n',
        last_filled_line(tail) is Some,
    ensures
        last_filled_line(lines + tail) == last_filled_line(tail),
    decreases lines.len(),
{
    if lines.len() == 0 {
        assert(lines + tail =~= tail);
    } else {
        crate::text::lemma_first_line_of_lines(lines, tail);
        lemma_filled_behind(after_first_line(lines), tail);
    }
}

/// A table of clocks without a star is read by its last line that is not blank.
pub proof fn law_last_clock_is_read_without_a_star(
    lines: Seq<char>,
    line: Seq<char>,
    end: Seq<char>,
    blank: Seq<char>,
)
    requires
        lines.len() == 0 || lines.last() == '\n',
        !(lines + (line + end + blank)).contains('*'),
        !line.contains('\n'),
        trimmed(line).len() > 0,
        is_line_end(line, end, blank),
        forall|i: int| 0 <= i < blank.len() ==> is_space(#[trigger] blank[i]),
    ensures
        table_mhz(lines + (line + end + blank)) == line_mhz(line),
{
    let tail = line + end + blank;
    lemma_no_star(lines + tail);
    crate::text::lemma_first_line_is(line, end, blank);
    lemma_blank_lines(blank);
    assert(tail.len() > 0);
    lemma_filled_behind(lines, tail);
}

/// The clock of a line is the number before its first unit, in any case of letters.
pub proof fn law_clock_stands_before_its_unit(
    a: Seq<char>,
    numeral: Seq<char>,
    space: Seq<char>,
    unit: Seq<char>,
    b: Seq<char>,
)
    requires
        lowered(unit) == "mhz"@,
        numeral.len() > 0,
        forall|i: int|
            0 <= i < numeral.len() ==> is_digit(#[trigger] numeral[i]) || numeral[i] == '.',
        a.len() == 0 || !(is_digit(a.last()) || a.last() == '.'),
        forall|i: int| 0 <= i < space.len() ==> is_space(#[trigger] space[i]),
        forall|i: int|
            0 <= i < (a + numeral + space).len() ==> #[trigger] lowered(
                a + numeral + space + unit + b,
            ).subrange(i, i + 3) != "mhz"@,
    ensures
        ({
            let x = float_value(numeral);
            let plausible = x is Some && (x->0).finite() && (x->0).within(
                Binary64 { bits: 0 },
                Binary64::of(10_000),
            );
            &&& plausible ==> line_mhz(a + numeral + space + unit + b) == Some(
                (x->0).rounded() as u32,
            )
            &&& !plausible ==> line_mhz(a + numeral + space + unit + b) is None
        }),
{
    reveal_strlit("mhz");
    let front = a + numeral + space;
    let line = front + unit + b;
    let low = lowered(front);
    assert("mhz"@.len() == 3);
    assert(unit.len() == 3) by {
        assert(lowered(unit).len() == unit.len());
    }
    assert(lowered(line) =~= low + "mhz"@ + lowered(b)) by {
        assert forall|i: int| 0 <= i < line.len() implies #[trigger] lowered(line)[i] == (low
            + "mhz"@ + lowered(b))[i] by {
            if front.len() <= i < front.len() + 3 {
                assert(lowered(unit)[i - front.len()] == "mhz"@[i - front.len()]);
            }
        }
    }
    crate::text::law_first_place(low, "mhz"@, lowered(b));
    assert(line.take(front.len() as int) =~= front);
    let n = a.len() as int;
    let m = n + numeral.len();
    let s = a + numeral;
    assert(s.last() == numeral.last());
    assert(is_digit(numeral[numeral.len() - 1]) || numeral[numeral.len() - 1] == '.');
    crate::text::lemma_trailing_space(s, space);
    assert forall|j: int| n <= j < m implies is_mhz_char(#[trigger] s[j]) by {
        assert(s[j] == numeral[j - n]);
    }
    if n > 0 {
        assert(s[n - 1] == a.last());
    }
    lemma_numeral_at_end(s, n, m);
    assert(s.take(m) =~= s);
    assert(s.subrange(n, m) =~= numeral);
}

/// The address of a card is the one that its description names: the first line with the
/// key and an address.
pub proof fn law_description_names_the_address(
    lines: Seq<char>,
    slot: Seq<char>,
    space: Seq<char>,
    end: Seq<char>,
    rest: Seq<char>,
)
    requires
        lines.len() == 0 || lines.last() == '\n',
        !has_part(lines, "PCI_SLOT_NAME="@),
        is_bdf(slot),
        forall|i: int| 0 <= i < space.len() ==> is_space(#[trigger] space[i]),
        !space.contains('\n'),
        is_line_end("PCI_SLOT_NAME="@ + slot + space, end, rest),
    ensures
        bdf_in_uevent(lines + ("PCI_SLOT_NAME="@ + slot + space + end + rest)) == Some(slot),
{
    let key = "PCI_SLOT_NAME="@;
    let line = key + slot + space;
    let tail = line + end + rest;
    reveal_strlit("PCI_SLOT_NAME=");
    assert forall|c: char| #[trigger] is_hex(c) implies !is_space(c) && c != '\n' by {}
    if line.contains('\n') {
        let i = line.index_of('\n');
        if i < key.len() {
            assert(key[i] == '\n');
        } else if i < key.len() + 12 {
            assert(slot[i - key.len()] == '\n');
        } else {
            assert(space[i - key.len() - 12] == '\n');
            assert(space.contains('\n'));
        }
    }
    crate::text::lemma_first_line_is(line, end, rest);
    assert(line.take(key.len() as int) =~= key);
    assert(line.skip(key.len() as int) =~= Seq::<char>::empty() + slot + space);
    assert(is_hex(slot[0]) && is_hex(slot[11]));
    crate::text::law_trimming(Seq::empty(), slot, space);
    assert(tail.len() > 0);
    lemma_uevent_skip(lines, tail);
    assert(lines + tail =~= lines + (key + slot + space + end + rest));
}

proof fn lemma_uevent_skip(lines: Seq<char>, tail: Seq<char>)
    requires
        lines.len() == 0 || lines.last() == '\n',
        !has_part(lines, "PCI_SLOT_NAME="@),
    ensures
        bdf_in_uevent(lines + tail) == bdf_in_uevent(tail),
    decreases lines.len(),
{
    let key = "PCI_SLOT_NAME="@;
    if lines.len() == 0 {
        assert(lines + tail =~= tail);
    } else {
        crate::text::lemma_first_line_of_lines(lines, tail);
        crate::text::lemma_run_is(lines, |c: char| crate::text::is_line_char(c));
        let line = first_line(lines);
        let after = after_first_line(lines);
        if has_prefix(line, key) {
            assert(line.take(key.len() as int) =~= lines.subrange(0, 0 + key.len() as int));
        }
        if has_part(after, key) {
            let i = choose|i: int|
                0 <= i && i + key.len() <= after.len() && #[trigger] after.subrange(
                    i,
                    i + key.len(),
                ) == key;
            let k = lines.len() - after.len();
            assert(lines.subrange(k + i, k + i + key.len()) =~= after.subrange(i, i + key.len()));
        }
        lemma_uevent_skip(after, tail);
    }
}

/// The address in a path is its last part that is one: a part behind it that is none does
/// not matter.
pub proof fn law_path_holds_the_address(path: Seq<char>, part: Seq<char>)
    requires
        !part.contains('/'),
    ensures
        is_bdf(part) ==> bdf_in_path(path + seq!['/'] + part) == Some(part),
        !is_bdf(part) ==> bdf_in_path(path + seq!['/'] + part) == bdf_in_path(path),
        is_bdf(part) ==> bdf_in_path(part) == Some(part),
        !is_bdf(part) ==> bdf_in_path(part) is None,
{
    let whole = path + seq!['/'] + part;
    let n = path.len() as int;
    assert forall|j: int| n + 1 <= j < whole.len() implies #[trigger] whole[j] != '/' by {
        assert(whole[j] == part[j - n - 1]);
        assert(part.contains(part[j - n - 1]));
    }
    assert(whole[n] == '/');
    lemma_path_tail(whole, n + 1, whole.len() as int);
    assert(whole.take(whole.len() as int) =~= whole);
    assert(whole.subrange(n + 1, whole.len() as int) =~= part);
    assert(whole.take(n) =~= path);
    assert forall|j: int| 0 <= j < part.len() implies #[trigger] part[j] != '/' by {
        assert(part.contains(part[j]));
    }
    lemma_path_tail(part, 0, part.len() as int);
    assert(part.take(part.len() as int) =~= part);
    assert(part.subrange(0, part.len() as int) =~= part);
}

/// A card is described by its entry: its address is the one that its description names, or
/// else the one in its path, and it is called by its product and its address as far as
/// they are known.
pub proof fn law_entry_describes_the_card(e: DrmEntry)
    ensures
        ({
            let c = card_of(e);
            let named = bdf_in_uevent(e.uevent->0@);
            let product = trimmed(e.product_name->0@);
            let has_product = e.product_name is Some && product.len() > 0;
            &&& e.uevent is Some && named is Some ==> c.bdf == named
            &&& e.uevent is None || named is None ==> c.bdf == bdf_in_path(e.device_dir@)
            &&& c.card_dir == e.card_dir@ && c.device_dir == e.device_dir@
            &&& c.hwmon_dir == amd_hwmon(e.hwmons@)
            &&& has_product && c.bdf is Some ==> c.display_name == product + " ("@ + c.bdf->0
                + ")"@
            &&& has_product && c.bdf is None ==> c.display_name == product
            &&& !has_product && c.bdf is Some ==> c.display_name == "AMD GPU ("@ + c.bdf->0 + ")"@
            &&& !has_product && c.bdf is None ==> c.display_name == e.name@
        }),
{
}

/// Cards are ordered by their addresses where both have one, and else by their
/// directories.
pub proof fn law_cards_are_ordered_by_address(a: Card, b: Card)
    ensures
        a.bdf is Some && b.bdf is Some ==> comes_first(a, b) == text_before(a.bdf->0, b.bdf->0),
        a.bdf is None || b.bdf is None ==> comes_first(a, b) == text_before(
            a.card_dir,
            b.card_dir,
        ),
{
}

/// An error is reported where it is another one than the last, or where its time is up.
pub proof fn law_news_is_reported(
    last: Option<(String, Moment)>,
    interval: u64,
    msg: Seq<char>,
    now: Moment,
)
    ensures
        last is None ==> is_news(last, interval, msg, now),
        last is Some && (last->0).0@ != msg ==> is_news(last, interval, msg, now),
        last is Some && (last->0).0@ == msg && now.nanos >= (last->0).1.nanos + interval
            ==> is_news(last, interval, msg, now),
        last is Some && (last->0).0@ == msg && now.nanos < (last->0).1.nanos + interval && interval
            > 0 ==> !is_news(last, interval, msg, now),
{
}

} // verus!
