//! The log buffer, and how a log file is followed.
use crate::text::{
    chars_of, first_part, has_prefix, is_text, rest_from, starts_with, text_of, trim, trimmed,
};
use std::collections::VecDeque;
use vstd::prelude::*;
use vstd::slice::slice_subrange;
use vstd::slice::slice_to_vec;
use vstd::utf8::{decode_utf8, encode_scalar, encode_utf8, valid_utf8};

verus! {

/// The most lines that the buffer keeps.
pub const MAX_LOG_LINES: usize = 2000;

/// The most lines that are taken from the end of a file when it is opened, for the
/// first time or in place of another.
pub const INITIAL_TAIL_LINES: usize = 500;

/// Lines with more bytes than this are cut.
pub const MAX_LINE_BYTES: usize = 65_536;

/// The most bytes read at once from the end of a file.
pub const SEED_CHUNK: u64 = 8192;

/// The byte that ends a line.
pub const NEWLINE: u8 = 10;

/// The byte that separates the parts of a path.
pub const SLASH: u8 = 47;

/// The byte of a carriage return.
pub const CARRIAGE_RETURN: u8 = 13;

// ---------------------------------------------------------------------------
// Bytes to lines
// ---------------------------------------------------------------------------
/// The number of bytes before the first newline.
pub open spec fn newline_at(s: Seq<u8>) -> nat
    decreases s.len(),
{
    if s.len() == 0 || s[0] == NEWLINE {
        0
    } else {
        1 + newline_at(s.drop_first())
    }
}

/// The lines that end in a newline, without it.
pub open spec fn byte_lines(s: Seq<u8>) -> Seq<Seq<u8>>
    decreases s.len(),
{
    let k = newline_at(s);
    if k >= s.len() {
        Seq::empty()
    } else {
        seq![s.take(k as int)] + byte_lines(s.skip((k + 1) as int))
    }
}

/// The bytes after the last newline.
pub open spec fn fragment(s: Seq<u8>) -> Seq<u8>
    decreases s.len(),
{
    let k = newline_at(s);
    if k >= s.len() {
        s
    } else {
        fragment(s.skip((k + 1) as int))
    }
}

/// The number of newlines.
pub open spec fn newline_count(s: Seq<u8>) -> nat
    decreases s.len(),
{
    if s.len() == 0 {
        0
    } else {
        newline_count(s.drop_last()) + if s.last() == NEWLINE {
            1nat
        } else {
            0
        }
    }
}

/// What `String::from_utf8_lossy` makes of bytes that are not UTF-8: a text with the
/// replacement character where they encode none.
pub uninterp spec fn lossy_text(bytes: Seq<u8>) -> Seq<char>;

/// Decodes bytes by `String::from_utf8_lossy`. The contract claims that bytes in
/// UTF-8 give the text that they encode, and that the text of others depends on them
/// alone.
#[verifier::external_body]
fn decode_lossy(bytes: &[u8]) -> (r: String)
    ensures
        r@ == if valid_utf8(bytes@) {
            decode_utf8(bytes@)
        } else {
            lossy_text(bytes@)
        },
{
    String::from_utf8_lossy(bytes).into_owned()
}

/// The text of some bytes: the one that they encode, where they are UTF-8.
pub open spec fn decoded(bytes: Seq<u8>) -> Seq<char> {
    if valid_utf8(bytes) {
        decode_utf8(bytes)
    } else {
        lossy_text(bytes)
    }
}

/// A text without a carriage return at its end.
pub open spec fn without_return(s: Seq<char>) -> Seq<char> {
    if s.len() > 0 && s.last() == '\r' {
        s.drop_last()
    } else {
        s
    }
}

/// The text of a line of bytes.
pub open spec fn lossy_line(bytes: Seq<u8>) -> Seq<char> {
    without_return(decoded(bytes))
}

/// The text of a line of bytes, cut where it is too long.
pub open spec fn line_text(bytes: Seq<u8>) -> Seq<char> {
    if bytes.len() > MAX_LINE_BYTES {
        lossy_line(bytes.take(MAX_LINE_BYTES as int)) + "…[truncated]"@
    } else {
        lossy_line(bytes)
    }
}

/// The texts of some lines of bytes.
pub open spec fn line_texts(lines: Seq<Seq<u8>>) -> Seq<Seq<char>> {
    Seq::new(lines.len(), |i: int| line_text(lines[i]))
}

/// The characters of some strings.
pub open spec fn texts(lines: Seq<String>) -> Seq<Seq<char>> {
    Seq::new(lines.len(), |i: int| lines[i]@)
}

proof fn lemma_newline_at(s: Seq<u8>, k: nat)
    requires
        k <= s.len(),
        forall|j: int| 0 <= j < k ==> s[j] != NEWLINE,
        k < s.len() ==> s[k as int] == NEWLINE,
    ensures
        newline_at(s) == k,
    decreases s.len(),
{
    if k > 0 {
        let t = s.drop_first();
        assert forall|j: int| 0 <= j < k - 1 implies t[j] != NEWLINE by {
            assert(t[j] == s[j + 1]);
        }
        lemma_newline_at(t, (k - 1) as nat);
    }
}

proof fn lemma_newline_at_is(s: Seq<u8>)
    ensures
        newline_at(s) <= s.len(),
        forall|j: int| 0 <= j < newline_at(s) ==> s[j] != NEWLINE,
        newline_at(s) < s.len() ==> s[newline_at(s) as int] == NEWLINE,
    decreases s.len(),
{
    if s.len() > 0 && s[0] != NEWLINE {
        let t = s.drop_first();
        lemma_newline_at_is(t);
        assert forall|j: int| 0 <= j < newline_at(s) implies s[j] != NEWLINE by {
            if j > 0 {
                assert(t[j - 1] == s[j]);
            }
        }
    }
}

fn find_newline(s: &[u8], from: usize) -> (r: Option<usize>)
    requires
        from <= s@.len(),
    ensures
        match r {
            Some(k) => from <= k < s@.len() && newline_at(s@.skip(from as int)) == k - from,
            None => newline_at(s@.skip(from as int)) == s@.len() - from,
        },
{
    let n: usize = s.len();
    let mut i: usize = from;
    let ghost t = s@.skip(from as int);
    while i < n
        invariant
            n == s@.len(),
            from <= i <= n,
            t == s@.skip(from as int),
            forall|j: int| 0 <= j < i - from ==> t[j] != NEWLINE,
        decreases n - i,
    {
        assert(t[i - from] == s@[i as int]);
        if s[i] == NEWLINE {
            proof {
                lemma_newline_at(t, (i - from) as nat);
            }
            return Some(i);
        }
        i = i + 1;
    }
    proof {
        lemma_newline_at(t, t.len());
    }
    None
}

fn lossy_line_from_bytes(bytes: &[u8]) -> (r: String)
    ensures
        r@ == lossy_line(bytes@),
{
    let s = decode_lossy(bytes);
    let chars = chars_of(s.as_str());
    let n: usize = chars.len();
    if n > 0 && chars[n - 1] == '\r' {
        assert(chars@.take(n - 1) =~= chars@.drop_last());
        text_of(first_part(chars.as_slice(), n - 1))
    } else {
        s
    }
}

fn line_from_bytes(bytes: &[u8]) -> (r: String)
    ensures
        r@ == line_text(bytes@),
{
    if bytes.len() > MAX_LINE_BYTES {
        let head = slice_subrange(bytes, 0, MAX_LINE_BYTES);
        assert(head@ =~= bytes@.take(MAX_LINE_BYTES as int));
        lossy_line_from_bytes(head).concat("…[truncated]")
    } else {
        lossy_line_from_bytes(bytes)
    }
}

/// Splits a buffer at its newlines, and keeps the incomplete line at its end.
pub fn split_lines(buf: &mut Vec<u8>) -> (r: Vec<String>)
    ensures
        texts(r@) == line_texts(byte_lines(old(buf)@)),
        final(buf)@ == fragment(old(buf)@),
{
    let mut lines: Vec<String> = Vec::new();
    let mut from: usize = 0;
    let n: usize = buf.len();
    let ghost all = buf@;
    assert(all.skip(0) =~= all);
    assert(texts(lines@) + line_texts(byte_lines(all.skip(0))) =~= line_texts(byte_lines(all)));
    loop
        invariant_except_break
            buf@ == all,
            n == all.len(),
            from <= n,
            texts(lines@) + line_texts(byte_lines(all.skip(from as int))) == line_texts(
                byte_lines(all),
            ),
            fragment(all.skip(from as int)) == fragment(all),
        ensures
            buf@ == all,
            from <= all.len(),
            texts(lines@) == line_texts(byte_lines(all)),
            all.skip(from as int) == fragment(all),
        decreases all.len() - from,
    {
        match find_newline(buf.as_slice(), from) {
            Some(k) => {
                let ghost t = all.skip(from as int);
                let ghost before = texts(lines@);
                let line = line_from_bytes(slice_subrange(buf.as_slice(), from, k));
                proof {
                    assert(t.take(k - from) =~= all.subrange(from as int, k as int));
                    assert(t.skip(k - from + 1) =~= all.skip(k + 1));
                    let rest = byte_lines(all.skip(k + 1));
                    assert(byte_lines(t) == seq![t.take(k - from)] + rest);
                    assert(line_texts(byte_lines(t)) =~= seq![line@] + line_texts(rest));
                    assert(texts(lines@.push(line)) =~= before.push(line@));
                    assert(before + (seq![line@] + line_texts(rest)) =~= before.push(line@)
                        + line_texts(rest));
                }
                lines.push(line);
                from = k + 1;
            },
            None => {
                proof {
                    assert(line_texts(byte_lines(all.skip(from as int))) =~= Seq::<
                        Seq<char>,
                    >::empty());
                    assert(texts(lines@) + Seq::<Seq<char>>::empty() =~= texts(lines@));
                }
                break;
            },
        }
    }
    let rest = slice_to_vec(slice_subrange(buf.as_slice(), from, buf.len()));
    assert(rest@ =~= all.skip(from as int));
    *buf = rest;
    lines
}

// ---------------------------------------------------------------------------
// The buffer
// ---------------------------------------------------------------------------
/// The number of bytes that a character takes in UTF-8.
pub open spec fn char_bytes(c: char) -> nat {
    if c <= '\u{7f}' {
        1
    } else if c <= '\u{7ff}' {
        2
    } else if c <= '\u{ffff}' {
        3
    } else {
        4
    }
}

/// The number of bytes that a text takes in UTF-8.
pub open spec fn text_bytes(s: Seq<char>) -> nat
    decreases s.len(),
{
    if s.len() == 0 {
        0
    } else {
        text_bytes(s.drop_last()) + char_bytes(s.last())
    }
}

/// The longest start of a text that takes no more than `max` bytes.
pub open spec fn fitting(s: Seq<char>, max: nat) -> Seq<char>
    decreases s.len(),
{
    if text_bytes(s) <= max {
        s
    } else {
        fitting(s.drop_last(), max)
    }
}

/// A line as the buffer keeps it: cut where it is too long.
pub open spec fn kept_line(s: Seq<char>) -> Seq<char> {
    if text_bytes(s) > MAX_LINE_BYTES {
        fitting(s, MAX_LINE_BYTES as nat) + "…[truncated]"@
    } else {
        s
    }
}

/// The lines of a buffer for `max` lines after one more.
pub open spec fn pushed(lines: Seq<Seq<char>>, max: nat, line: Seq<char>) -> Seq<Seq<char>> {
    if lines.len() >= max && lines.len() > 0 {
        lines.drop_first().push(kept_line(line))
    } else {
        lines.push(kept_line(line))
    }
}

/// The lines of a buffer for `max` lines after some more.
pub open spec fn pushed_all(lines: Seq<Seq<char>>, max: nat, more: Seq<Seq<char>>) -> Seq<Seq<char>>
    decreases more.len(),
{
    if more.len() == 0 {
        lines
    } else {
        pushed(pushed_all(lines, max, more.drop_last()), max, more.last())
    }
}

fn bytes_of_char(c: char) -> (r: u64)
    ensures
        r == char_bytes(c),
        1 <= r <= 4,
{
    if c <= '\u{7f}' {
        1
    } else if c <= '\u{7ff}' {
        2
    } else if c <= '\u{ffff}' {
        3
    } else {
        4
    }
}

proof fn lemma_text_bytes_grow(s: Seq<char>, n: int)
    requires
        0 <= n <= s.len(),
    ensures
        text_bytes(s.take(n)) <= text_bytes(s),
    decreases s.len() - n,
{
    if n < s.len() {
        lemma_text_bytes_grow(s, n + 1);
        assert(s.take(n + 1).drop_last() =~= s.take(n));
    } else {
        assert(s.take(n) =~= s);
    }
}

proof fn lemma_fitting(s: Seq<char>, max: nat, n: int)
    requires
        0 <= n < s.len(),
        text_bytes(s.take(n)) <= max,
        text_bytes(s.take(n + 1)) > max,
    ensures
        fitting(s, max) == s.take(n),
    decreases s.len() - n,
{
    lemma_text_bytes_grow(s, n + 1);
    let t = s.drop_last();
    if n + 1 == s.len() {
        assert(t =~= s.take(n));
        assert(fitting(t, max) == t);
    } else {
        assert(t.take(n) =~= s.take(n));
        assert(t.take(n + 1) =~= s.take(n + 1));
        lemma_fitting(t, max, n);
    }
}

fn cut_line(line: String) -> (r: String)
    ensures
        r@ == kept_line(line@),
{
    let chars = chars_of(line.as_str());
    let n: usize = chars.len();
    let mut used: u64 = 0;
    let mut i: usize = 0;
    assert(chars@.take(0) =~= Seq::<char>::empty());
    while i < n
        invariant
            n == chars@.len(),
            chars@ == line@,
            i <= n,
            used == text_bytes(chars@.take(i as int)),
            used <= MAX_LINE_BYTES,
        decreases n - i,
    {
        let here: u64 = bytes_of_char(chars[i]);
        proof {
            assert(chars@.take(i + 1).drop_last() =~= chars@.take(i as int));
        }
        if used + here > MAX_LINE_BYTES as u64 {
            proof {
                lemma_text_bytes_grow(chars@, i + 1);
                lemma_fitting(chars@, MAX_LINE_BYTES as nat, i as int);
            }
            return text_of(first_part(chars.as_slice(), i)).concat("…[truncated]");
        }
        used = used + here;
        i = i + 1;
    }
    assert(chars@.take(n as int) =~= chars@);
    line
}

/// A bounded buffer of log lines, the newest last.
#[derive(Debug)]
pub struct LogBuffer {
    /// The lines.
    pub lines: VecDeque<String>,
    /// The most lines that are kept.
    pub max_lines: usize,
}

impl View for LogBuffer {
    type V = Seq<Seq<char>>;

    open spec fn view(&self) -> Seq<Seq<char>> {
        texts(self.lines@)
    }
}

impl Default for LogBuffer {
    fn default() -> (r: LogBuffer)
        ensures
            r.wf(),
            r@ == Seq::<Seq<char>>::empty(),
            r.max_lines == 1,
    {
        LogBuffer::new(1)
    }
}

impl LogBuffer {
    /// Whether the buffer keeps at least one line, and no more than it may.
    pub open spec fn wf(&self) -> bool {
        self.max_lines >= 1 && self.lines@.len() <= self.max_lines
    }

    /// An empty buffer for `max_lines` lines, at least one.
    pub fn new(max_lines: usize) -> (r: LogBuffer)
        ensures
            r.wf(),
            r@ == Seq::<Seq<char>>::empty(),
            r.max_lines == if max_lines == 0 {
                1
            } else {
                max_lines
            },
    {
        let r = LogBuffer {
            lines: VecDeque::new(),
            max_lines: if max_lines == 0 {
                1
            } else {
                max_lines
            },
        };
        assert(r@ =~= Seq::<Seq<char>>::empty());
        r
    }

    /// Forgets all lines.
    pub fn clear(&mut self)
        ensures
            final(self)@ == Seq::<Seq<char>>::empty(),
            final(self).max_lines == old(self).max_lines,
            old(self).wf() ==> final(self).wf(),
    {
        self.lines.clear();
        assert(self@ =~= Seq::<Seq<char>>::empty());
    }

    /// The number of lines.
    pub fn len(&self) -> (r: usize)
        ensures
            r == self@.len(),
    {
        self.lines.len()
    }

    /// Adds a line; a full buffer lets its oldest line go.
    pub fn push_line(&mut self, line: String)
        requires
            old(self).wf(),
        ensures
            final(self).wf(),
            final(self).max_lines == old(self).max_lines,
            final(self)@ == pushed(old(self)@, old(self).max_lines as nat, line@),
    {
        let kept = cut_line(line);
        let ghost before = self.lines@;
        if self.lines.len() >= self.max_lines {
            let _ = self.lines.pop_front();
            assert(self.lines@ =~= before.drop_first());
        }
        let ghost shortened = self.lines@;
        self.lines.push_back(kept);
        proof {
            assert(texts(shortened.push(kept)) =~= texts(shortened).push(kept@));
            if before.len() > 0 {
                assert(texts(before.drop_first()) =~= texts(before).drop_first());
            }
        }
    }

    /// The lines, the oldest first.
    pub fn snapshot(&self) -> (r: Vec<String>)
        ensures
            texts(r@) == self@,
    {
        let mut out: Vec<String> = Vec::new();
        let n: usize = self.lines.len();
        let mut i: usize = 0;
        while i < n
            invariant
                n == self.lines@.len(),
                i <= n,
                out@.len() == i,
                forall|j: int| 0 <= j < i ==> out@[j]@ == self.lines@[j]@,
            decreases n - i,
        {
            out.push(self.lines[i].as_str().to_owned());
            i = i + 1;
        }
        assert(texts(out@) =~= self@);
        out
    }

    fn push_all(&mut self, lines: &Vec<String>)
        requires
            old(self).wf(),
        ensures
            final(self).wf(),
            final(self).max_lines == old(self).max_lines,
            final(self)@ == pushed_all(old(self)@, old(self).max_lines as nat, texts(lines@)),
    {
        let n: usize = lines.len();
        let mut i: usize = 0;
        let ghost more = texts(lines@);
        assert(more.take(0) =~= Seq::<Seq<char>>::empty());
        while i < n
            invariant
                n == lines@.len(),
                i <= n,
                more == texts(lines@),
                self.wf(),
                self.max_lines == old(self).max_lines,
                self@ == pushed_all(old(self)@, old(self).max_lines as nat, more.take(i as int)),
            decreases n - i,
        {
            proof {
                assert(more.take(i + 1).drop_last() =~= more.take(i as int));
                assert(more.take(i + 1).last() == lines@[i as int]@);
            }
            self.push_line(lines[i].as_str().to_owned());
            i = i + 1;
        }
        assert(more.take(n as int) =~= more);
    }
}

// ---------------------------------------------------------------------------
// Paths
// ---------------------------------------------------------------------------
/// A path with a part put behind it: an absolute part stands alone, and a
/// separator is put between where the path does not end in one.
pub open spec fn joined(path: Seq<u8>, part: Seq<u8>) -> Seq<u8> {
    if part.len() > 0 && part[0] == SLASH {
        part
    } else if path.len() == 0 || path.last() == SLASH {
        path + part
    } else {
        path.push(SLASH) + part
    }
}

/// The path that a text writes, where a leading `~` stands for the home directory, or
/// the current directory where there is none. A path is its bytes: a directory need
/// not have a name in UTF-8.
pub open spec fn expanded(path: Seq<char>, home: Option<Seq<u8>>) -> Seq<u8> {
    let t = trimmed(path);
    let base = match home {
        Some(h) => h,
        None => encode_utf8("."@),
    };
    if t == "~"@ {
        base
    } else if has_prefix(t, "~/"@) {
        joined(base, encode_utf8(t.skip(2)))
    } else {
        encode_utf8(t)
    }
}

/// The bytes of an optional path.
pub open spec fn opt_bytes(path: Option<Vec<u8>>) -> Option<Seq<u8>> {
    match path {
        Some(path) => Some(path@),
        None => None,
    }
}

/// The bytes of an optional path.
pub open spec fn opt_slice(path: Option<&[u8]>) -> Option<Seq<u8>> {
    match path {
        Some(path) => Some(path@),
        None => None,
    }
}

/// The bytes of the path of the user's home directory by `dirs::home_dir`. Nothing is
/// claimed of the result, which the environment decides.
#[verifier::external_body]
pub(crate) fn home_dir() -> Option<Vec<u8>> {
    dirs::home_dir().map(|p| p.into_os_string().into_encoded_bytes())
}

/// Expands a leading `~` to the user's home directory.
pub fn expand_tilde(path: &str) -> (r: Vec<u8>)
    ensures
        exists|home: Option<Seq<u8>>| r@ == #[trigger] expanded(path@, home),
{
    match home_dir() {
        Some(home) => {
            let r = expand_tilde_with(path, Some(home.as_slice()));
            assert(r@ == expanded(path@, Some(home@)));
            r
        },
        None => {
            let r = expand_tilde_with(path, None);
            assert(r@ == expanded(path@, None));
            r
        },
    }
}

/// Expands a leading `~` to the given home directory.
pub fn expand_tilde_with(path: &str, home: Option<&[u8]>) -> (r: Vec<u8>)
    ensures
        r@ == expanded(path@, opt_slice(home)),
{
    proof {
        reveal_strlit("~/");
    }
    let text = chars_of(path);
    let t = trim(text.as_slice());
    let base = match home {
        Some(h) => h,
        None => ".".as_bytes(),
    };
    if is_text(t, "~") {
        return slice_to_vec(base);
    }
    let prefix = chars_of("~/");
    if !starts_with(t, prefix.as_slice()) {
        return slice_to_vec(text_of(t).as_str().as_bytes());
    }
    let part = text_of(rest_from(t, 2));
    join_path(base, part.as_str().as_bytes())
}

/// A path with a part put behind it.
pub fn join_path(path: &[u8], part: &[u8]) -> (r: Vec<u8>)
    ensures
        r@ == joined(path@, part@),
{
    let n: usize = path.len();
    if part.len() > 0 && part[0] == SLASH {
        return slice_to_vec(part);
    }
    let mut r = slice_to_vec(path);
    if n > 0 && path[n - 1] != SLASH {
        r.push(SLASH);
    }
    add_bytes(&mut r, part);
    r
}

fn add_bytes(bytes: &mut Vec<u8>, more: &[u8])
    ensures
        final(bytes)@ == old(bytes)@ + more@,
{
    let n: usize = more.len();
    let mut i: usize = 0;
    assert(bytes@ + more@.take(0) =~= bytes@);
    while i < n
        invariant
            n == more@.len(),
            i <= n,
            bytes@ == old(bytes)@ + more@.take(i as int),
        decreases n - i,
    {
        proof {
            assert((old(bytes)@ + more@.take(i as int)).push(more@[i as int]) =~= old(bytes)@
                + more@.take(i + 1));
        }
        bytes.push(more[i]);
        i = i + 1;
    }
    assert(more@.take(n as int) =~= more@);
}

// ---------------------------------------------------------------------------
// The last lines of a file
// ---------------------------------------------------------------------------
/// A line without a carriage return byte at its end.
pub open spec fn without_return_byte(s: Seq<u8>) -> Seq<u8> {
    if s.len() > 0 && s.last() == CARRIAGE_RETURN {
        s.drop_last()
    } else {
        s
    }
}

/// The texts of some lines of a file.
pub open spec fn seed_texts(lines: Seq<Seq<u8>>) -> Seq<Seq<char>> {
    Seq::new(lines.len(), |i: int| line_text(without_return_byte(lines[i])))
}

/// The last `max` items, or all where there are fewer.
pub open spec fn last_of<A>(s: Seq<A>, max: nat) -> Seq<A> {
    if s.len() > max {
        s.skip(s.len() - max)
    } else {
        s
    }
}

/// The last `max` complete lines of a file.
pub open spec fn last_lines(file: Seq<u8>, max: nat) -> Seq<Seq<char>> {
    last_of(seed_texts(byte_lines(file)), max)
}

/// The bytes after the first newline; all of them where there is none.
pub open spec fn after_newline(s: Seq<u8>) -> Seq<u8> {
    let k = newline_at(s);
    if k < s.len() {
        s.skip((k + 1) as int)
    } else {
        s
    }
}

/// The end of a file, read piece by piece towards its start.
#[derive(Debug)]
pub struct TailSeed {
    /// Where in the file the bytes read so far begin.
    pub pos: u64,
    /// The bytes read so far.
    pub bytes: Vec<u8>,
    /// The newlines among them.
    pub newlines: usize,
}

impl TailSeed {
    /// Whether the newlines are counted right, and the bytes lie within a file.
    pub open spec fn wf(&self) -> bool {
        self.newlines == newline_count(self.bytes@) && self.pos + self.bytes@.len() <= u64::MAX
    }

    /// Whether the bytes read so far are the end of `file`.
    pub open spec fn ends(&self, file: Seq<u8>) -> bool {
        self.pos <= file.len() && self.bytes@ == file.skip(self.pos as int)
    }

    /// Whether more of the file is to be read for `max_lines` lines.
    pub open spec fn unfinished(&self, max_lines: nat) -> bool {
        self.pos > 0 && self.newlines <= max_lines && self.bytes@.len() <= MAX_LINE_BYTES * (
        max_lines + 1)
    }

    /// What the bytes read so far tell of the last `max_lines` lines.
    pub open spec fn told(&self, max_lines: nat) -> Seq<Seq<char>> {
        let known = if self.pos > 0 {
            after_newline(self.bytes@)
        } else {
            self.bytes@
        };
        last_lines(known, max_lines)
    }

    /// Whether the bytes read so far hold the start of a line: that of the file, or
    /// the place behind a newline.
    pub open spec fn holds_a_start(&self) -> bool {
        self.pos == 0 || newline_at(self.bytes@) < self.bytes@.len()
    }

    /// Where in the file to read on: behind its last complete line, so that a line
    /// half written is read as a whole once it is complete. Where no line starts in
    /// the bytes read so far, behind them.
    pub open spec fn read_on_at(&self) -> int {
        if self.holds_a_start() {
            self.pos + self.bytes@.len() - fragment(self.bytes@).len()
        } else {
            self.pos + self.bytes@.len()
        }
    }

    /// Where in the file to read on, and whether a line starts there.
    fn resume(&self) -> (r: (u64, bool))
        requires
            self.wf(),
        ensures
            r.0 == self.read_on_at(),
            r.1 == self.holds_a_start(),
    {
        let n: usize = self.bytes.len();
        let mut start: usize = n;
        while start > 0 && self.bytes[start - 1] != NEWLINE
            invariant
                n == self.bytes@.len(),
                start <= n,
                forall|j: int| start <= j < n ==> self.bytes@[j] != NEWLINE,
            decreases start,
        {
            start = start - 1;
        }
        proof {
            lemma_fragment(self.bytes@, start as int);
            lemma_newline_at_is(self.bytes@);
            if start > 0 {
                assert(self.bytes@[start - 1] == NEWLINE);
            } else {
                assert(newline_at(self.bytes@) >= n);
            }
        }
        if self.pos == 0 || start > 0 {
            (self.pos + start as u64, true)
        } else {
            (self.pos + n as u64, false)
        }
    }

    /// Whether whole pieces have been read, or all of the file.
    pub open spec fn in_pieces(&self) -> bool {
        self.pos == 0 || self.bytes@.len() % SEED_CHUNK as nat == 0
    }

    /// Nothing read yet of a file of `len` bytes.
    pub fn new(len: u64) -> (r: TailSeed)
        ensures
            r.wf(),
            r.in_pieces(),
            r.pos == len,
            r.bytes@ == Seq::<u8>::empty(),
            forall|file: Seq<u8>| file.len() == len ==> #[trigger] r.ends(file),
    {
        let r = TailSeed { pos: len, bytes: Vec::new(), newlines: 0 };
        assert forall|file: Seq<u8>| file.len() == len implies #[trigger] r.ends(file) by {
            assert(file.skip(len as int) =~= Seq::<u8>::empty());
        }
        r
    }

    /// The place and size of the piece to read next, where one is needed.
    pub fn next_read(&self, max_lines: usize) -> (r: Option<(u64, u64)>)
        ensures
            r is Some == self.unfinished(max_lines as nat),
            r matches Some((at, size)) ==> at + size == self.pos && 0 < size <= SEED_CHUNK && (at
                == 0 || size == SEED_CHUNK),
    {
        let limit: u128 = MAX_LINE_BYTES as u128 * (max_lines as u128 + 1);
        if self.pos > 0 && self.newlines <= max_lines && self.bytes.len() as u128 <= limit {
            let size: u64 = if self.pos < SEED_CHUNK {
                self.pos
            } else {
                SEED_CHUNK
            };
            Some((self.pos - size, size))
        } else {
            None
        }
    }

    /// Takes in the piece before the bytes read so far.
    pub fn feed(&mut self, piece: &Vec<u8>)
        requires
            old(self).wf(),
            piece@.len() <= old(self).pos,
            piece@.len() + old(self).bytes@.len() <= usize::MAX,
        ensures
            final(self).wf(),
            final(self).pos == old(self).pos - piece@.len(),
            final(self).bytes@ == piece@ + old(self).bytes@,
            old(self).in_pieces() && (piece@.len() == SEED_CHUNK || piece@.len() == old(self).pos)
                ==> final(self).in_pieces(),
            forall|file: Seq<u8>|
                old(self).ends(file) && piece@ == file.subrange(
                    old(self).pos - piece@.len(),
                    old(self).pos as int,
                ) ==> #[trigger] final(self).ends(file),
    {
        let n: usize = piece.len();
        let mut joined: Vec<u8> = Vec::new();
        let mut count: usize = 0;
        let mut i: usize = 0;
        assert(piece@.take(0) =~= Seq::<u8>::empty());
        while i < n
            invariant
                n == piece@.len(),
                i <= n,
                joined@ == piece@.take(i as int),
                count == newline_count(piece@.take(i as int)),
                count <= i,
            decreases n - i,
        {
            proof {
                assert(piece@.take(i + 1).drop_last() =~= piece@.take(i as int));
                assert(piece@.take(i as int).push(piece@[i as int]) =~= piece@.take(i + 1));
            }
            if piece[i] == NEWLINE {
                count = count + 1;
            }
            joined.push(piece[i]);
            i = i + 1;
        }
        let m: usize = self.bytes.len();
        let mut j: usize = 0;
        assert(piece@.take(n as int) =~= piece@);
        assert(piece@ + self.bytes@.take(0) =~= piece@);
        while j < m
            invariant
                m == self.bytes@.len(),
                j <= m,
                joined@ == piece@ + self.bytes@.take(j as int),
            decreases m - j,
        {
            proof {
                assert((piece@ + self.bytes@.take(j as int)).push(self.bytes@[j as int])
                    =~= piece@ + self.bytes@.take(j + 1));
            }
            joined.push(self.bytes[j]);
            j = j + 1;
        }
        proof {
            assert(self.bytes@.take(m as int) =~= self.bytes@);
            lemma_newline_count_adds(piece@, self.bytes@);
            lemma_newline_count_bound(self.bytes@);
            assert forall|file: Seq<u8>|
                self.ends(file) && piece@ == file.subrange(
                    self.pos - piece@.len(),
                    self.pos as int,
                ) implies file.skip(self.pos - piece@.len()) == piece@ + self.bytes@ by {
                assert(file.skip(self.pos - piece@.len()) =~= piece@ + self.bytes@);
            }
        }
        self.bytes = joined;
        self.newlines = self.newlines + count;
        self.pos = self.pos - n as u64;
    }

    /// The last lines, as far as the bytes read so far tell them.
    pub fn finish(&self, max_lines: usize) -> (r: Vec<String>)
        ensures
            texts(r@) == self.told(max_lines as nat),
    {
        let whole = self.bytes.as_slice();
        let n: usize = whole.len();
        assert(whole@.skip(0) =~= whole@);
        let start: usize = if self.pos > 0 {
            match find_newline(whole, 0) {
                Some(k) => k + 1,
                None => 0,
            }
        } else {
            0
        };
        let ghost known = whole@.skip(start as int);
        let mut lines: Vec<String> = Vec::new();
        let mut from: usize = start;
        assert(texts(lines@) + seed_texts(byte_lines(known)) =~= seed_texts(byte_lines(known)));
        loop
            invariant_except_break
                n == whole@.len(),
                from <= n,
                texts(lines@) + seed_texts(byte_lines(whole@.skip(from as int))) == seed_texts(
                    byte_lines(known),
                ),
            ensures
                texts(lines@) == seed_texts(byte_lines(known)),
            decreases n - from,
        {
            match find_newline(whole, from) {
                Some(k) => {
                    let ghost t = whole@.skip(from as int);
                    let ghost before = texts(lines@);
                    let end: usize = if k > from && whole[k - 1] == CARRIAGE_RETURN {
                        k - 1
                    } else {
                        k
                    };
                    let piece = slice_subrange(whole, from, end);
                    let line = line_from_bytes(piece);
                    proof {
                        let full = t.take(k - from);
                        assert(full =~= whole@.subrange(from as int, k as int));
                        assert(piece@ =~= without_return_byte(full));
                        assert(t.skip(k - from + 1) =~= whole@.skip(k + 1));
                        let rest = byte_lines(whole@.skip(k + 1));
                        assert(byte_lines(t) == seq![full] + rest);
                        assert(seed_texts(byte_lines(t)) =~= seq![line@] + seed_texts(rest));
                        assert(texts(lines@.push(line)) =~= before.push(line@));
                        assert(before + (seq![line@] + seed_texts(rest)) =~= before.push(line@)
                            + seed_texts(rest));
                    }
                    lines.push(line);
                    from = k + 1;
                },
                None => {
                    proof {
                        assert(seed_texts(byte_lines(whole@.skip(from as int))) =~= Seq::<
                            Seq<char>,
                        >::empty());
                        assert(texts(lines@) + Seq::<Seq<char>>::empty() =~= texts(lines@));
                    }
                    break;
                },
            }
        }
        let total: usize = lines.len();
        if total > max_lines {
            let ghost all = lines@;
            let kept = lines.split_off(total - max_lines);
            assert(texts(kept@) =~= texts(all).skip(total - max_lines));
            kept
        } else {
            lines
        }
    }
}

proof fn lemma_fragment(s: Seq<u8>, start: int)
    requires
        0 <= start <= s.len(),
        start > 0 ==> s[start - 1] == NEWLINE,
        forall|j: int| start <= j < s.len() ==> s[j] != NEWLINE,
    ensures
        fragment(s) == s.skip(start),
    decreases s.len(),
{
    let k = newline_at(s);
    lemma_newline_at_is(s);
    if start == 0 {
        assert(s.skip(0) =~= s);
    } else {
        assert(k <= start - 1);
        let rest = s.skip((k + 1) as int);
        let from = start - k - 1;
        if from > 0 {
            assert(rest[from - 1] == s[start - 1]);
        }
        assert forall|j: int| from <= j < rest.len() implies rest[j] != NEWLINE by {
            assert(rest[j] == s[j + k + 1]);
        }
        lemma_fragment(rest, from);
        assert(rest.skip(from) =~= s.skip(start));
    }
}

proof fn lemma_newline_count_adds(a: Seq<u8>, b: Seq<u8>)
    ensures
        newline_count(a + b) == newline_count(a) + newline_count(b),
    decreases b.len(),
{
    if b.len() == 0 {
        assert(a + b =~= a);
    } else {
        assert((a + b).drop_last() =~= a + b.drop_last());
        lemma_newline_count_adds(a, b.drop_last());
    }
}

proof fn lemma_newline_count_bound(s: Seq<u8>)
    ensures
        newline_count(s) <= s.len(),
    decreases s.len(),
{
    if s.len() > 0 {
        lemma_newline_count_bound(s.drop_last());
    }
}

// ---------------------------------------------------------------------------
// Following a file
// ---------------------------------------------------------------------------
/// Where log lines come from.
#[derive(Clone, Copy, Debug, PartialEq, Eq, Structural)]
pub enum LogSourceKind {
    /// A server that the monitor started.
    ManagedProcess,
    /// A file.
    ExternalFile,
    /// Nowhere.
    Unset,
}

/// How a source of log lines is doing.
#[derive(Clone, Copy, Debug, PartialEq, Eq, Structural)]
pub enum LogSourceStatus {
    /// Lines can be read.
    Connected,
    /// The file does not exist yet.
    WaitingForFile,
    /// The file cannot be read.
    Error,
    /// There is no source.
    Idle,
}

/// What is shown of the source of log lines.
#[derive(Debug)]
pub struct LogSourceInfo {
    /// Where the lines come from.
    pub kind: LogSourceKind,
    /// How the source is doing.
    pub status: LogSourceStatus,
    /// The name of the file.
    pub file_name: Option<String>,
    /// What went wrong.
    pub error: Option<String>,
    /// The lines in the buffer.
    pub line_count: usize,
}

impl Default for LogSourceInfo {
    fn default() -> (r: LogSourceInfo)
        ensures
            r.kind == LogSourceKind::Unset,
            r.status == LogSourceStatus::Idle,
            r.file_name is None,
            r.error is None,
            r.line_count == 0,
    {
        LogSourceInfo {
            kind: LogSourceKind::Unset,
            status: LogSourceStatus::Idle,
            file_name: None,
            error: None,
            line_count: 0,
        }
    }
}

/// What tells a file from another that took its place.
#[derive(Clone, Copy, Debug, PartialEq, Eq, Structural)]
pub struct FileIdentity {
    /// The device.
    pub dev: u64,
    /// The number on the device.
    pub ino: u64,
    /// The size in bytes.
    pub len: u64,
}

/// Whether two identities are of the same file.
pub open spec fn is_same_file(a: FileIdentity, b: FileIdentity) -> bool {
    a.dev == b.dev && a.ino == b.ino
}

/// Whether two identities are of the same file.
pub fn same_file(a: &FileIdentity, b: &FileIdentity) -> (r: bool)
    ensures
        r == is_same_file(*a, *b),
{
    a.dev == b.dev && a.ino == b.ino
}

/// What asking for the file at the path gave.
#[derive(Debug)]
pub enum FileState {
    /// There is no file.
    Missing,
    /// The file cannot be used, for this reason.
    Unusable(String),
    /// There is a file.
    Present(FileIdentity),
}

/// What to do next to follow a file.
#[derive(Clone, Copy, Debug, PartialEq, Eq, Structural)]
pub enum FollowStep {
    /// Nothing until the next poll.
    Rest,
    /// Open the file and take the last lines of it.
    OpenAndSeed,
    /// Open the file again, from its start.
    Open,
    /// Read the file that is open, from the offset on.
    Read,
}

/// Follows a log file: what is known of it between two polls.
#[derive(Debug)]
pub struct ExternalLogTailer {
    /// Whether the file is open.
    pub is_open: bool,
    /// The file that was seen last.
    pub identity: Option<FileIdentity>,
    /// How far the file has been read.
    pub offset: u64,
    /// The bytes of a line that has not ended yet.
    pub incomplete: Vec<u8>,
    /// Whether the rest of a cut line is to be skipped.
    pub discard_until_newline: bool,
    /// How the source is doing.
    pub status: LogSourceStatus,
    /// What went wrong.
    pub error: Option<String>,
    /// Whether the last lines of the file have been taken already.
    pub seeded: bool,
}

/// What is known of a file.
#[verifier::ext_equal]
pub struct Following {
    /// Whether the file is open.
    pub is_open: bool,
    /// The file that was seen last.
    pub identity: Option<FileIdentity>,
    /// How far the file has been read.
    pub offset: u64,
    /// The bytes of a line that has not ended yet.
    pub incomplete: Seq<u8>,
    /// Whether the rest of a cut line is to be skipped.
    pub discard_until_newline: bool,
    /// How the source is doing.
    pub status: LogSourceStatus,
    /// What went wrong.
    pub error: Option<Seq<char>>,
    /// Whether the last lines of the file have been taken already.
    pub seeded: bool,
}

impl View for ExternalLogTailer {
    type V = Following;

    open spec fn view(&self) -> Following {
        Following {
            is_open: self.is_open,
            identity: self.identity,
            offset: self.offset,
            incomplete: self.incomplete@,
            discard_until_newline: self.discard_until_newline,
            status: self.status,
            error: match self.error {
                Some(e) => Some(e@),
                None => None,
            },
            seeded: self.seeded,
        }
    }
}

/// What is known while there is no file.
pub open spec fn waiting() -> Following {
    Following {
        is_open: false,
        identity: None,
        offset: 0,
        incomplete: Seq::empty(),
        discard_until_newline: false,
        status: LogSourceStatus::WaitingForFile,
        error: None,
        seeded: false,
    }
}

/// What is known once the file could not be read: it is to be opened again.
pub open spec fn failed(f: Following, reason: Seq<char>) -> Following {
    Following {
        status: LogSourceStatus::Error,
        error: Some(reason),
        is_open: false,
        identity: None,
        ..f
    }
}

/// Whether the file that was seen last has been cut short.
pub open spec fn was_cut(f: Following, id: FileIdentity) -> bool {
    f.identity is Some && is_same_file(f.identity->0, id) && id.len < f.offset
}

/// Whether another file has taken the place of the one that was seen last.
pub open spec fn was_replaced(f: Following, id: FileIdentity) -> bool {
    f.identity is Some && !is_same_file(f.identity->0, id)
}

/// What is known once the file is seen: a file that was cut short is read from its
/// start, and of a file that took the place of another no lines have been taken.
pub open spec fn seen(f: Following, id: FileIdentity) -> Following {
    if was_cut(f, id) {
        Following { offset: 0, incomplete: Seq::empty(), discard_until_newline: false, ..f }
    } else if was_replaced(f, id) {
        Following { seeded: false, ..f }
    } else {
        f
    }
}

/// What to do once the file is seen: the last lines are taken of a file that is opened
/// for the first time or in place of another, and a file that could not be read is
/// opened again.
pub open spec fn step_on(f: Following, id: FileIdentity) -> FollowStep {
    if f.identity is Some && is_same_file(f.identity->0, id) && f.is_open {
        FollowStep::Read
    } else if f.seeded && !was_replaced(f, id) {
        FollowStep::Open
    } else {
        FollowStep::OpenAndSeed
    }
}

/// What is known once the file is open and `seed` has been read of its end: it is read
/// on behind its last complete line. An endless line of which the seed holds no start
/// is skipped.
pub open spec fn opened(f: Following, id: FileIdentity, seed: TailSeed) -> Following {
    Following {
        is_open: true,
        incomplete: Seq::empty(),
        discard_until_newline: !seed.holds_a_start(),
        offset: seed.read_on_at() as u64,
        identity: Some(id),
        seeded: true,
        ..f
    }
}

/// What is known once the file is open again: it is read from its start.
pub open spec fn reopened(f: Following, id: FileIdentity) -> Following {
    Following {
        is_open: true,
        incomplete: Seq::empty(),
        discard_until_newline: false,
        offset: 0,
        identity: Some(id),
        ..f
    }
}

/// What is known once the poll is over.
pub open spec fn polled(f: Following, id: FileIdentity) -> Following {
    Following {
        identity: Some(id),
        status: LogSourceStatus::Connected,
        error: None,
        ..f
    }
}

/// The bytes that count: those after the rest of a cut line.
pub open spec fn counted_bytes(f: Following, bytes: Seq<u8>) -> Seq<u8> {
    if f.discard_until_newline {
        if newline_at(bytes) < bytes.len() {
            bytes.skip((newline_at(bytes) + 1) as int)
        } else {
            Seq::empty()
        }
    } else {
        bytes
    }
}

/// Whether the rest of a cut line goes on past the bytes.
pub open spec fn still_discarding(f: Following, bytes: Seq<u8>) -> bool {
    f.discard_until_newline && newline_at(bytes) >= bytes.len()
}

/// Whether a line has grown too long to wait for its end.
pub open spec fn overflows(pending: Seq<u8>) -> bool {
    pending.len() > MAX_LINE_BYTES && newline_at(pending) >= pending.len()
}

/// The lines that new bytes complete.
pub open spec fn completed(f: Following, bytes: Seq<u8>) -> Seq<Seq<char>> {
    let pending = f.incomplete + counted_bytes(f, bytes);
    if still_discarding(f, bytes) {
        Seq::empty()
    } else if overflows(pending) {
        seq![line_text(pending)]
    } else {
        line_texts(byte_lines(pending))
    }
}

/// What is known after new bytes.
pub open spec fn ingested(f: Following, bytes: Seq<u8>) -> Following {
    let pending = f.incomplete + counted_bytes(f, bytes);
    if still_discarding(f, bytes) {
        f
    } else if overflows(pending) {
        Following { incomplete: Seq::empty(), discard_until_newline: true, ..f }
    } else {
        Following { incomplete: fragment(pending), discard_until_newline: false, ..f }
    }
}

impl ExternalLogTailer {
    /// A file that has not been seen yet.
    pub fn new() -> (r: ExternalLogTailer)
        ensures
            r@ == waiting(),
    {
        ExternalLogTailer {
            is_open: false,
            identity: None,
            offset: 0,
            incomplete: Vec::new(),
            discard_until_newline: false,
            status: LogSourceStatus::WaitingForFile,
            error: None,
            seeded: false,
        }
    }

    /// How the source is doing.
    pub fn status(&self) -> (r: LogSourceStatus)
        ensures
            r == self@.status,
    {
        self.status
    }

    /// What went wrong.
    pub fn error(&self) -> (r: Option<&str>)
        ensures
            match (r, self@.error) {
                (Some(t), Some(e)) => t@ == e,
                (None, None) => true,
                _ => false,
            },
    {
        match &self.error {
            Some(e) => Some(e.as_str()),
            None => None,
        }
    }

    /// Takes in what asking for the file gave, and says what to do next.
    pub fn on_file(&mut self, state: FileState) -> (r: FollowStep)
        ensures
            match state {
                FileState::Missing => final(self)@ == waiting() && r == FollowStep::Rest,
                FileState::Unusable(reason) => final(self)@ == failed(old(self)@, reason@) && r
                    == FollowStep::Rest,
                FileState::Present(id) => final(self)@ == seen(old(self)@, id) && r == step_on(
                    old(self)@,
                    id,
                ),
            },
    {
        match state {
            FileState::Missing => {
                *self = ExternalLogTailer::new();
                FollowStep::Rest
            },
            FileState::Unusable(reason) => {
                self.on_failure(reason);
                FollowStep::Rest
            },
            FileState::Present(id) => {
                let same: bool = match &self.identity {
                    Some(prev) => same_file(prev, &id),
                    None => false,
                };
                if same && id.len < self.offset {
                    self.offset = 0;
                    self.incomplete = Vec::new();
                    self.discard_until_newline = false;
                }
                if !same && self.identity.is_some() {
                    self.seeded = false;
                }
                if same && self.is_open {
                    FollowStep::Read
                } else if self.seeded {
                    FollowStep::Open
                } else {
                    FollowStep::OpenAndSeed
                }
            },
        }
    }

    /// Notes that the file could not be opened or read.
    pub fn on_failure(&mut self, reason: String)
        ensures
            final(self)@ == failed(old(self)@, reason@),
    {
        self.status = LogSourceStatus::Error;
        self.error = Some(reason);
        self.is_open = false;
        self.identity = None;
    }

    /// Notes that the file is open, when `seed` has been read of its end: puts its
    /// last lines into the buffer, and gives them.
    pub fn on_opened(&mut self, id: FileIdentity, seed: &TailSeed, buffer: &mut LogBuffer) -> (r:
        Vec<String>)
        requires
            old(buffer).wf(),
            seed.wf(),
        ensures
            final(self)@ == opened(old(self)@, id, *seed),
            texts(r@) == seed.told(INITIAL_TAIL_LINES as nat),
            final(buffer).wf(),
            final(buffer).max_lines == old(buffer).max_lines,
            final(buffer)@ == pushed_all(
                old(buffer)@,
                old(buffer).max_lines as nat,
                seed.told(INITIAL_TAIL_LINES as nat),
            ),
    {
        let lines = seed.finish(INITIAL_TAIL_LINES);
        let (at, starts): (u64, bool) = seed.resume();
        buffer.push_all(&lines);
        self.is_open = true;
        self.incomplete = Vec::new();
        self.discard_until_newline = !starts;
        self.offset = at;
        self.identity = Some(id);
        self.seeded = true;
        lines
    }

    /// Notes that the file is open again.
    pub fn on_reopened(&mut self, id: FileIdentity)
        ensures
            final(self)@ == reopened(old(self)@, id),
    {
        self.is_open = true;
        self.incomplete = Vec::new();
        self.discard_until_newline = false;
        self.offset = 0;
        self.identity = Some(id);
    }

    /// Takes in the bytes read from the offset on, puts the lines that they complete
    /// into the buffer, and gives them.
    pub fn on_read(&mut self, bytes: &Vec<u8>, buffer: &mut LogBuffer) -> (r: Vec<String>)
        requires
            old(buffer).wf(),
            old(self).offset + bytes@.len() <= u64::MAX,
        ensures
            final(self)@ == ingested(
                Following { offset: (old(self)@.offset + bytes@.len()) as u64, ..old(self)@ },
                bytes@,
            ),
            texts(r@) == completed(old(self)@, bytes@),
            final(buffer).wf(),
            final(buffer).max_lines == old(buffer).max_lines,
            final(buffer)@ == pushed_all(
                old(buffer)@,
                old(buffer).max_lines as nat,
                completed(old(self)@, bytes@),
            ),
    {
        self.offset = self.offset + bytes.len() as u64;
        self.ingest_bytes(bytes.as_slice(), buffer)
    }

    fn ingest_bytes(&mut self, bytes: &[u8], buffer: &mut LogBuffer) -> (r: Vec<String>)
        requires
            old(buffer).wf(),
        ensures
            final(self)@ == ingested(old(self)@, bytes@),
            texts(r@) == completed(old(self)@, bytes@),
            final(buffer).wf(),
            final(buffer).max_lines == old(buffer).max_lines,
            final(buffer)@ == pushed_all(
                old(buffer)@,
                old(buffer).max_lines as nat,
                completed(old(self)@, bytes@),
            ),
    {
        let mut start: usize = 0;
        let n: usize = bytes.len();
        assert(bytes@.skip(0) =~= bytes@);
        if self.discard_until_newline {
            match find_newline(bytes, 0) {
                Some(k) => {
                    start = k + 1;
                    self.discard_until_newline = false;
                },
                None => {
                    let none: Vec<String> = Vec::new();
                    assert(texts(none@) =~= Seq::<Seq<char>>::empty());
                    return none;
                },
            }
        }
        let input = slice_subrange(bytes, start, n);
        assert(input@ =~= counted_bytes(old(self)@, bytes@));
        add_bytes(&mut self.incomplete, input);
        let ghost pending = old(self)@.incomplete + counted_bytes(old(self)@, bytes@);
        let whole = self.incomplete.as_slice();
        assert(whole@.skip(0) =~= whole@);
        if whole.len() > MAX_LINE_BYTES && find_newline(whole, 0).is_none() {
            let line = line_from_bytes(whole);
            let mut lines: Vec<String> = Vec::new();
            lines.push(line);
            assert(texts(lines@) =~= seq![line_text(pending)]);
            buffer.push_all(&lines);
            self.incomplete = Vec::new();
            self.discard_until_newline = true;
            return lines;
        }
        let lines = split_lines(&mut self.incomplete);
        buffer.push_all(&lines);
        lines
    }

    /// Notes that the poll is over, when the file is now as `id` says.
    pub fn on_polled(&mut self, id: FileIdentity)
        ensures
            final(self)@ == polled(old(self)@, id),
    {
        self.identity = Some(id);
        self.status = LogSourceStatus::Connected;
        self.error = None;
    }
}

// ---------------------------------------------------------------------------
// Laws
// ---------------------------------------------------------------------------
proof fn lemma_newline_at_append(a: Seq<u8>, b: Seq<u8>)
    ensures
        newline_at(a) < a.len() ==> newline_at(a + b) == newline_at(a),
        newline_at(a) >= a.len() ==> newline_at(a + b) == a.len() + newline_at(b),
{
    lemma_newline_at_is(a);
    lemma_newline_at_is(b);
    let s = a + b;
    if newline_at(a) < a.len() {
        lemma_newline_at(s, newline_at(a));
    } else {
        let k = a.len() + newline_at(b);
        assert forall|j: int| 0 <= j < k implies s[j] != NEWLINE by {
            if j >= a.len() {
                assert(s[j] == b[j - a.len()]);
            }
        }
        if k < s.len() {
            assert(s[k as int] == b[newline_at(b) as int]);
        }
        lemma_newline_at(s, k);
    }
}

/// However a log arrives in pieces, its lines are the same: splitting the first
/// piece, and then what it left together with the second, gives the lines and the
/// incomplete end of both pieces at once.
pub proof fn law_pieces_do_not_matter(a: Seq<u8>, b: Seq<u8>)
    ensures
        byte_lines(a + b) == byte_lines(a) + byte_lines(fragment(a) + b),
        fragment(a + b) == fragment(fragment(a) + b),
    decreases a.len(),
{
    let k = newline_at(a);
    lemma_newline_at_is(a);
    lemma_newline_at_append(a, b);
    if k >= a.len() {
        assert(byte_lines(a) + byte_lines(a + b) =~= byte_lines(a + b));
    } else {
        let rest = a.skip((k + 1) as int);
        law_pieces_do_not_matter(rest, b);
        assert((a + b).take(k as int) =~= a.take(k as int));
        assert((a + b).skip((k + 1) as int) =~= rest + b);
        assert(byte_lines(a + b) =~= byte_lines(a) + byte_lines(fragment(a) + b));
    }
}

/// Nothing is lost: the complete lines with their newlines, and the incomplete end,
/// are the bytes.
pub proof fn law_lines_make_the_bytes(s: Seq<u8>)
    ensures
        rejoined(byte_lines(s)) + fragment(s) == s,
    decreases s.len(),
{
    let k = newline_at(s);
    lemma_newline_at_is(s);
    if k >= s.len() {
        assert(Seq::<u8>::empty() + s =~= s);
    } else {
        let rest = s.skip((k + 1) as int);
        law_lines_make_the_bytes(rest);
        let lines = byte_lines(s);
        assert(lines[0] == s.take(k as int));
        assert(lines.drop_first() =~= byte_lines(rest));
        assert(rejoined(lines) + fragment(s) =~= s.take(k as int).push(NEWLINE) + (rejoined(
            byte_lines(rest),
        ) + fragment(rest)));
        assert(s.take(k as int).push(NEWLINE) + rest =~= s);
    }
}

/// A log as it is written: each line in UTF-8, with its newline.
pub open spec fn written(lines: Seq<Seq<char>>) -> Seq<u8>
    decreases lines.len(),
{
    if lines.len() == 0 {
        Seq::empty()
    } else {
        encode_utf8(lines[0]).push(NEWLINE) + written(lines.drop_first())
    }
}

/// Whether a text is one line that is kept whole.
pub open spec fn is_plain_line(line: Seq<char>) -> bool {
    &&& !line.contains('\n')
    &&& line.len() > 0 ==> line.last() != '\r'
    &&& encode_utf8(line).len() <= MAX_LINE_BYTES
}

proof fn lemma_encoded_newline(c: char)
    requires
        c != '\n',
    ensures
        !encode_scalar(c as u32).contains(NEWLINE),
{
    let v = c as u32;
    assert((v & 0x7F) as u8 == 10u8 && v <= 0x7F ==> v == 10) by (bit_vector);
    assert(0xC0u8 | ((v >> 6) & 0x1F) as u8 != 10u8) by (bit_vector);
    assert(0xE0u8 | ((v >> 12) & 0x0F) as u8 != 10u8) by (bit_vector);
    assert(0xF0u8 | ((v >> 18) & 0x7) as u8 != 10u8) by (bit_vector);
    assert(0x80u8 | (v & 0x3F) as u8 != 10u8) by (bit_vector);
    assert(0x80u8 | ((v >> 6) & 0x3F) as u8 != 10u8) by (bit_vector);
    assert(0x80u8 | ((v >> 12) & 0x3F) as u8 != 10u8) by (bit_vector);
}

proof fn lemma_encoded_line(line: Seq<char>)
    requires
        !line.contains('\n'),
    ensures
        !encode_utf8(line).contains(NEWLINE),
    decreases line.len(),
{
    if line.len() > 0 {
        let rest = line.drop_first();
        assert(line.contains(line[0]));
        assert forall|i: int| 0 <= i < rest.len() implies rest[i] != '\n' by {
            assert(line.contains(line[i + 1]));
        }
        lemma_encoded_newline(line[0]);
        lemma_encoded_line(rest);
        let head = encode_scalar(line[0] as u32);
        let tail = encode_utf8(rest);
        assert forall|i: int| 0 <= i < (head + tail).len() implies (head + tail)[i] != NEWLINE by {
            if i < head.len() {
                assert(head.contains(head[i]));
            } else {
                assert(tail.contains(tail[i - head.len()]));
            }
        }
    }
}

/// A log is read as it was written: its lines come back, each as it was.
pub proof fn law_written_lines_are_read(lines: Seq<Seq<char>>)
    requires
        forall|i: int| 0 <= i < lines.len() ==> is_plain_line(#[trigger] lines[i]),
    ensures
        line_texts(byte_lines(written(lines))) == lines,
        fragment(written(lines)) == Seq::<u8>::empty(),
    decreases lines.len(),
{
    let s = written(lines);
    if lines.len() == 0 {
        assert(line_texts(byte_lines(s)) =~= lines);
    } else {
        let line = lines[0];
        let head = encode_utf8(line);
        let rest = lines.drop_first();
        assert forall|i: int| 0 <= i < rest.len() implies is_plain_line(#[trigger] rest[i]) by {
            assert(rest[i] == lines[i + 1]);
        }
        law_written_lines_are_read(rest);
        lemma_encoded_line(line);
        assert forall|j: int| 0 <= j < head.len() implies s[j] != NEWLINE by {
            assert(head.contains(head[j]));
        }
        lemma_newline_at(s, head.len());
        assert(s.take(head.len() as int) =~= head);
        assert(s.skip((head.len() + 1) as int) =~= written(rest));
        vstd::utf8::encode_utf8_valid_utf8(line);
        vstd::utf8::encode_utf8_decode_utf8(line);
        assert(line_text(head) == line);
        let more = byte_lines(written(rest));
        assert(byte_lines(s) == seq![head] + more);
        assert(line_texts(byte_lines(s)) =~= seq![line] + line_texts(more));
        assert(seq![line] + rest =~= lines);
    }
}

/// Lines put together again, each with its newline.
pub open spec fn rejoined(lines: Seq<Seq<u8>>) -> Seq<u8>
    decreases lines.len(),
{
    if lines.len() == 0 {
        Seq::empty()
    } else {
        lines[0].push(NEWLINE) + rejoined(lines.drop_first())
    }
}

/// The incomplete end holds no newline.
pub proof fn law_fragment_is_incomplete(s: Seq<u8>)
    ensures
        newline_at(fragment(s)) == fragment(s).len(),
    decreases s.len(),
{
    lemma_newline_at_is(s);
    if newline_at(s) < s.len() {
        law_fragment_is_incomplete(s.skip((newline_at(s) + 1) as int));
    }
}

proof fn lemma_line_count(s: Seq<u8>)
    ensures
        byte_lines(s).len() == newline_count(s),
    decreases s.len(),
{
    let k = newline_at(s);
    lemma_newline_at_is(s);
    if k >= s.len() {
        lemma_no_newlines(s);
    } else {
        let front = s.take((k + 1) as int);
        let rest = s.skip((k + 1) as int);
        lemma_line_count(rest);
        assert(front + rest =~= s);
        lemma_newline_count_adds(front, rest);
        assert(front.drop_last() =~= s.take(k as int));
        lemma_no_newlines(s.take(k as int));
    }
}

proof fn lemma_no_newlines(s: Seq<u8>)
    requires
        forall|j: int| 0 <= j < s.len() ==> s[j] != NEWLINE,
    ensures
        newline_count(s) == 0,
    decreases s.len(),
{
    if s.len() > 0 {
        assert(s.last() == s[s.len() - 1]);
        lemma_no_newlines(s.drop_last());
    }
}

/// Reading the end of a file gives its last complete lines: once the whole file is
/// read, or more newlines than lines are wanted, what the bytes tell is what the
/// whole file would tell.
pub proof fn law_seed_is_the_end_of_the_file(seed: TailSeed, file: Seq<u8>, max_lines: nat)
    requires
        seed.wf(),
        seed.ends(file),
        seed.pos == 0 || seed.newlines > max_lines,
    ensures
        seed.told(max_lines) == last_lines(file, max_lines),
{
    let acc = seed.bytes@;
    if seed.pos == 0 {
        assert(file.skip(0) =~= file);
    } else {
        let head = file.take(seed.pos as int);
        assert(head + acc =~= file);
        law_pieces_do_not_matter(head, acc);
        lemma_line_count(acc);
        lemma_newline_at_is(acc);
        law_fragment_is_incomplete(head);
        let part = fragment(head);
        lemma_newline_at_append(part, acc);
        let k = newline_at(acc);
        assert(byte_lines(acc).len() > 0);
        assert(k < acc.len());
        let known = acc.skip((k + 1) as int);
        assert((part + acc).skip((part.len() + k + 1) as int) =~= known);
        assert(byte_lines(part + acc).drop_first() =~= byte_lines(known));
        assert(byte_lines(acc).drop_first() =~= byte_lines(known));
        let all = byte_lines(file);
        let few = byte_lines(known);
        let extra = (all.len() - few.len()) as int;
        assert(all.skip(extra) =~= few);
        assert(seed_texts(all).skip(extra) =~= seed_texts(few));
        assert(few.len() >= max_lines);
        let a = seed_texts(all);
        let b = seed_texts(few);
        if b.len() > max_lines {
            assert(a.skip(a.len() - max_lines) =~= b.skip(b.len() - max_lines));
        } else {
            assert(a.skip(a.len() - max_lines) =~= b);
        }
    }
}

proof fn lemma_rejoined_length(lines: Seq<Seq<u8>>, limit: nat)
    requires
        forall|i: int| 0 <= i < lines.len() ==> (#[trigger] lines[i]).len() <= limit,
    ensures
        rejoined(lines).len() <= lines.len() * (limit + 1),
    decreases lines.len(),
{
    if lines.len() > 0 {
        let rest = lines.drop_first();
        assert forall|i: int| 0 <= i < rest.len() implies (#[trigger] rest[i]).len() <= limit by {
            assert(rest[i] == lines[i + 1]);
        }
        lemma_rejoined_length(rest, limit);
        assert(lines[0].len() <= limit);
        assert((rest.len() + 1) * (limit + 1) == rest.len() * (limit + 1) + (limit + 1))
            by (nonlinear_arith);
    }
}

/// Whether no line of a file is longer than the limit, nor its end without a newline.
pub open spec fn has_short_lines(file: Seq<u8>) -> bool {
    &&& forall|i: int|
        0 <= i < byte_lines(file).len() ==> (#[trigger] byte_lines(file)[i]).len()
            <= MAX_LINE_BYTES
    &&& fragment(file).len() <= MAX_LINE_BYTES
}

/// A seed of which nothing more is to be read tells the last lines of the file: where
/// no line is longer than the limit, and fewer lines are wanted than a piece has
/// bytes, reading never stops too early.
pub proof fn law_finished_seed_tells_the_last_lines(seed: TailSeed, file: Seq<u8>, max_lines: nat)
    requires
        seed.wf(),
        seed.ends(file),
        seed.in_pieces(),
        !seed.unfinished(max_lines),
        has_short_lines(file),
        max_lines < SEED_CHUNK,
    ensures
        seed.told(max_lines) == last_lines(file, max_lines),
{
    if seed.pos > 0 && seed.newlines <= max_lines {
        let acc = seed.bytes@;
        let head = file.take(seed.pos as int);
        assert(head + acc =~= file);
        law_pieces_do_not_matter(head, acc);
        let part = fragment(head);
        let whole = part + acc;
        law_fragment_is_incomplete(head);
        lemma_newline_at_is(part);
        lemma_no_newlines(part);
        lemma_newline_count_adds(part, acc);
        lemma_line_count(whole);
        let lines = byte_lines(whole);
        let before = byte_lines(head);
        assert forall|i: int| 0 <= i < lines.len() implies (#[trigger] lines[i]).len()
            <= MAX_LINE_BYTES by {
            assert(byte_lines(file)[before.len() + i] == lines[i]);
        }
        lemma_rejoined_length(lines, MAX_LINE_BYTES as nat);
        law_lines_make_the_bytes(whole);
        let n = lines.len();
        let limit = MAX_LINE_BYTES as nat;
        assert(n * (limit + 1) <= max_lines * (limit + 1)) by (nonlinear_arith)
            requires
                n <= max_lines,
        ;
        assert(max_lines * (limit + 1) + limit == limit * (max_lines + 1) + max_lines)
            by (nonlinear_arith);
        assert(acc.len() <= limit * (max_lines + 1) + max_lines);
        assert(acc.len() > limit * (max_lines + 1));
        assert(limit * (max_lines + 1) == 8192 * (8 * (max_lines + 1))) by (nonlinear_arith)
            requires
                limit == 65_536,
        ;
    }
    law_seed_is_the_end_of_the_file(seed, file, max_lines);
}

/// However much of a file has been read, only its last complete lines are told: as
/// many of them as the bytes tell, none left out in between.
pub proof fn law_seed_tells_last_lines(seed: TailSeed, file: Seq<u8>, max_lines: nat)
    requires
        seed.ends(file),
    ensures
        seed.told(max_lines).len() <= max_lines,
        seed.told(max_lines) == last_lines(file, seed.told(max_lines).len()),
{
    let acc = seed.bytes@;
    let told = seed.told(max_lines);
    let all = byte_lines(file);
    let a = seed_texts(all);
    lemma_newline_at_is(acc);
    if seed.pos == 0 {
        assert(file.skip(0) =~= file);
        assert(told =~= last_of(a, told.len()));
    } else if newline_at(acc) >= acc.len() {
        assert(told =~= last_of(a, 0));
    } else {
        let head = file.take(seed.pos as int);
        assert(head + acc =~= file);
        law_pieces_do_not_matter(head, acc);
        law_fragment_is_incomplete(head);
        let part = fragment(head);
        lemma_newline_at_append(part, acc);
        let k = newline_at(acc);
        let known = acc.skip((k + 1) as int);
        assert((part + acc).skip((part.len() + k + 1) as int) =~= known);
        let few = byte_lines(known);
        assert(byte_lines(part + acc).drop_first() =~= few);
        let extra = (all.len() - few.len()) as int;
        assert(all.skip(extra) =~= few);
        let b = seed_texts(few);
        assert(a.skip(extra) =~= b);
        assert(told =~= last_of(a, told.len()));
    }
}

/// A buffer never holds more lines than it may, and its last line is the newest.
pub proof fn law_buffer_is_bounded(lines: Seq<Seq<char>>, max: nat, more: Seq<Seq<char>>)
    requires
        max >= 1,
        lines.len() <= max,
    ensures
        pushed_all(lines, max, more).len() <= max,
        more.len() > 0 ==> pushed_all(lines, max, more).len() > 0 && pushed_all(
            lines,
            max,
            more,
        ).last() == kept_line(more.last()),
    decreases more.len(),
{
    if more.len() > 0 {
        law_buffer_is_bounded(lines, max, more.drop_last());
    }
}

/// The lines as the buffer keeps them.
pub open spec fn kept_lines(lines: Seq<Seq<char>>) -> Seq<Seq<char>> {
    Seq::new(lines.len(), |i: int| kept_line(lines[i]))
}

/// A buffer holds the newest lines, in the order in which they came.
pub proof fn law_buffer_keeps_the_newest(max: nat, more: Seq<Seq<char>>)
    requires
        max >= 1,
    ensures
        pushed_all(Seq::empty(), max, more) == last_of(kept_lines(more), max),
    decreases more.len(),
{
    if more.len() > 0 {
        let front = more.drop_last();
        law_buffer_keeps_the_newest(max, front);
        let all = kept_lines(more);
        let some = kept_lines(front);
        assert(all.drop_last() =~= some);
        assert(all =~= some.push(kept_line(more.last())));
        assert(pushed_all(Seq::empty(), max, more) =~= last_of(all, max));
    } else {
        assert(kept_lines(more) =~= Seq::<Seq<char>>::empty());
    }
}

/// A kept line has no more bytes than the limit and the mark of a cut together.
pub proof fn law_kept_line_is_short(s: Seq<char>)
    ensures
        text_bytes(kept_line(s)) <= MAX_LINE_BYTES + text_bytes("…[truncated]"@),
{
    if text_bytes(s) > MAX_LINE_BYTES {
        lemma_fitting_fits(s, MAX_LINE_BYTES as nat);
        lemma_text_bytes_add(fitting(s, MAX_LINE_BYTES as nat), "…[truncated]"@);
    }
}

proof fn lemma_fitting_fits(s: Seq<char>, max: nat)
    ensures
        text_bytes(fitting(s, max)) <= max,
    decreases s.len(),
{
    if text_bytes(s) > max {
        lemma_fitting_fits(s.drop_last(), max);
    }
}

proof fn lemma_text_bytes_add(a: Seq<char>, b: Seq<char>)
    ensures
        text_bytes(a + b) == text_bytes(a) + text_bytes(b),
    decreases b.len(),
{
    if b.len() == 0 {
        assert(a + b =~= a);
    } else {
        assert((a + b).drop_last() =~= a + b.drop_last());
        lemma_text_bytes_add(a, b.drop_last());
    }
}

/// A file that is opened for the first time or in place of another is seeded, with no
/// more lines than the limit; one that could not be read is opened again and read from
/// its start; one that is open is only read on.
pub proof fn law_new_files_are_seeded(
    f: Following,
    id: FileIdentity,
    seed: TailSeed,
    reason: Seq<char>,
)
    ensures
        !f.seeded && !f.is_open ==> step_on(f, id) == FollowStep::OpenAndSeed,
        was_replaced(f, id) ==> step_on(f, id) == FollowStep::OpenAndSeed,
        seed.told(INITIAL_TAIL_LINES as nat).len() <= INITIAL_TAIL_LINES,
        opened(f, id, seed).seeded,
        ({
            let again = failed(f, reason);
            f.seeded ==> step_on(again, id) == FollowStep::Open && reopened(again, id).offset == 0
        }),
        f.is_open && f.identity is Some && is_same_file(f.identity->0, id) ==> step_on(f, id)
            == FollowStep::Read,
{
}

/// A file that took the place of another is seeded even where it cannot be opened at
/// once.
pub proof fn law_replaced_file_waits_for_its_seed(
    f: Following,
    id: FileIdentity,
    reason: Seq<char>,
    later: FileIdentity,
)
    requires
        was_replaced(f, id),
    ensures
        step_on(failed(seen(f, id), reason), later) == FollowStep::OpenAndSeed,
{
}

#[verifier::spinoff_prover]
#[verifier::rlimit(30)]
proof fn lemma_seed_ends_the_lines(seed: TailSeed, file: Seq<u8>)
    requires
        seed.ends(file),
        seed.holds_a_start(),
    ensures
        fragment(seed.bytes@) == fragment(file),
{
    let acc = seed.bytes@;
    let head = file.take(seed.pos as int);
    if seed.pos == 0 {
        assert(file.skip(0) =~= file);
    } else {
        assert(head + acc =~= file);
        law_pieces_do_not_matter(head, acc);
        law_fragment_is_incomplete(head);
        let part = fragment(head);
        lemma_newline_at_append(part, acc);
        let k = newline_at(acc);
        assert((part + acc).skip((part.len() + k + 1) as int) =~= acc.skip((k + 1) as int));
        assert(newline_at(part + acc) == part.len() + k);
        assert(fragment(part + acc) == fragment(acc.skip((k + 1) as int)));
        assert(fragment(acc) == fragment(acc.skip((k + 1) as int)));
    }
}

/// Nothing is lost and nothing comes twice where a file is opened: when the file
/// `file` goes on with `more`, the complete lines of the file as it was opened and
/// those of the bytes that are read on are the lines of the whole file. A line half
/// written is among the latter.
pub proof fn law_opening_loses_no_line(
    f: Following,
    id: FileIdentity,
    seed: TailSeed,
    file: Seq<u8>,
    more: Seq<u8>,
)
    requires
        seed.wf(),
        seed.ends(file),
        seed.holds_a_start(),
    ensures
        ({
            let at = opened(f, id, seed).offset as int;
            let read = (file + more).skip(at);
            &&& at == file.len() - fragment(file).len()
            &&& read == fragment(file) + more
            &&& byte_lines(file) + byte_lines(read) == byte_lines(file + more)
            &&& fragment(read) == fragment(file + more)
        }),
{
    lemma_seed_ends_the_lines(seed, file);
    law_lines_make_the_bytes(file);
    law_pieces_do_not_matter(file, more);
    let at = file.len() - fragment(file).len();
    assert(file.skip(at) =~= fragment(file)) by {
        let front = rejoined(byte_lines(file));
        assert((front + fragment(file)).skip(front.len() as int) =~= fragment(file));
    }
    assert((file + more).skip(at) =~= fragment(file) + more);
}

/// A file is followed line by line: its last lines come when it is opened, and then
/// each line once it is complete, also one that was half written. What has been read
/// on and does not end in a newline is the incomplete line. Lines too long to wait
/// for are left out here: the incomplete line is no longer than the limit.
pub proof fn law_file_is_followed(
    f: Following,
    id: FileIdentity,
    seed: TailSeed,
    file: Seq<u8>,
    more: Seq<u8>,
)
    requires
        seed.wf(),
        seed.ends(file),
        seed.pos == 0 || seed.newlines > INITIAL_TAIL_LINES,
        fragment(file + more).len() <= MAX_LINE_BYTES,
    ensures
        ({
            let start = opened(f, id, seed);
            let read = (file + more).skip(start.offset as int);
            &&& seed.told(INITIAL_TAIL_LINES as nat) == last_lines(
                file,
                INITIAL_TAIL_LINES as nat,
            )
            &&& completed(start, read) == line_texts(byte_lines(read))
            &&& byte_lines(file) + byte_lines(read) == byte_lines(file + more)
            &&& ingested(start, read).incomplete == fragment(file + more)
        }),
{
    law_seed_is_the_end_of_the_file(seed, file, INITIAL_TAIL_LINES as nat);
    lemma_newline_at_is(seed.bytes@);
    if newline_at(seed.bytes@) >= seed.bytes@.len() {
        lemma_no_newlines(seed.bytes@);
    }
    law_opening_loses_no_line(f, id, seed, file, more);
    let start = opened(f, id, seed);
    let read = (file + more).skip(start.offset as int);
    assert(start.incomplete + read =~= read);
}

/// However often a file is read, its lines are the same: two reads give the lines of
/// one, as long as no incomplete line is longer than the limit.
pub proof fn law_reads_do_not_matter(f: Following, a: Seq<u8>, b: Seq<u8>)
    requires
        !f.discard_until_newline,
        fragment(f.incomplete + a).len() <= MAX_LINE_BYTES,
        fragment(f.incomplete + (a + b)).len() <= MAX_LINE_BYTES,
    ensures
        completed(f, a) + completed(ingested(f, a), b) == completed(f, a + b),
        ingested(ingested(f, a), b) == ingested(f, a + b),
{
    let pending = f.incomplete + a;
    assert(pending + b =~= f.incomplete + (a + b));
    law_pieces_do_not_matter(pending, b);
    let one = byte_lines(pending);
    let two = byte_lines(fragment(pending) + b);
    assert(line_texts(one) + line_texts(two) =~= line_texts(one + two));
}

/// A file that is opened again comes with all its lines: what is read from its start
/// are its complete lines, and its end without a newline is the incomplete line. Lines
/// too long to wait for are left out here.
pub proof fn law_reopened_file_comes_whole(f: Following, id: FileIdentity, file: Seq<u8>)
    requires
        fragment(file).len() <= MAX_LINE_BYTES,
    ensures
        ({
            let start = reopened(f, id);
            let read = file.skip(start.offset as int);
            &&& completed(start, read) == line_texts(byte_lines(file))
            &&& ingested(start, read).incomplete == fragment(file)
        }),
{
    let start = reopened(f, id);
    assert(file.skip(0) =~= file);
    assert(start.incomplete + file =~= file);
}

/// A file that was cut short is read from its start.
pub proof fn law_cut_file_is_read_anew(f: Following, id: FileIdentity)
    requires
        was_cut(f, id),
    ensures
        seen(f, id).offset == 0,
        seen(f, id).incomplete == Seq::<u8>::empty(),
{
}

/// An absolute or relative path without a leading `~` stays as it is, but for the
/// white space around it.
pub proof fn law_plain_path_is_kept(path: Seq<char>, home: Option<Seq<u8>>)
    requires
        trimmed(path).len() == 0 || trimmed(path)[0] != '~',
    ensures
        expanded(path, home) == encode_utf8(trimmed(path)),
{
    reveal_strlit("~");
    reveal_strlit("~/");
    let t = trimmed(path);
    if t == "~"@ {
        assert(t[0] == '~');
    }
    if has_prefix(t, "~/"@) {
        assert(t.take(2)[0] == t[0]);
    }
}

/// A line of up to 65536 bytes is kept as it is. A longer one is cut behind the last
/// character that still fits, and marked.
pub proof fn law_long_lines_are_cut(s: Seq<char>, n: int)
    ensures
        text_bytes(s) <= 65_536 ==> kept_line(s) == s,
        0 <= n < s.len() && text_bytes(s.take(n)) <= 65_536 && text_bytes(s.take(n + 1)) > 65_536
            ==> kept_line(s) == s.take(n) + "…[truncated]"@,
{
    if 0 <= n < s.len() && text_bytes(s.take(n)) <= 65_536 && text_bytes(s.take(n + 1)) > 65_536 {
        lemma_fitting(s, 65_536, n);
        lemma_text_bytes_grow(s, n + 1);
    }
}

/// A text takes the bytes of its characters.
pub proof fn law_texts_take_their_bytes(s: Seq<char>, c: char)
    ensures
        text_bytes(Seq::empty()) == 0,
        c as u32 <= 0x7f ==> text_bytes(s.push(c)) == text_bytes(s) + 1,
        0x80 <= c as u32 <= 0x7ff ==> text_bytes(s.push(c)) == text_bytes(s) + 2,
        0x800 <= c as u32 <= 0xffff ==> text_bytes(s.push(c)) == text_bytes(s) + 3,
        c as u32 >= 0x1_0000 ==> text_bytes(s.push(c)) == text_bytes(s) + 4,
{
    assert(s.push(c).drop_last() =~= s);
}

/// A line goes behind the others, and only a full buffer lets go of a line: of its oldest.
pub proof fn law_only_full_buffers_let_go(lines: Seq<Seq<char>>, max: nat, line: Seq<char>)
    requires
        max >= 1,
        lines.len() <= max,
    ensures
        lines.len() < max ==> pushed(lines, max, line) == lines.push(kept_line(line)),
        lines.len() == max ==> pushed(lines, max, line) == lines.skip(1).push(kept_line(line)),
{
    if lines.len() == max {
        assert(lines.skip(1) =~= lines.drop_first());
    }
}

/// Lines are what stands before each newline, and what follows the last one waits for its
/// own.
pub proof fn law_lines_end_at_newlines(line: Seq<u8>, rest: Seq<u8>)
    requires
        !line.contains(10u8),
    ensures
        byte_lines(line + seq![10u8] + rest) == seq![line] + byte_lines(rest),
        fragment(line + seq![10u8] + rest) == fragment(rest),
        byte_lines(line) == Seq::<Seq<u8>>::empty(),
        fragment(line) == line,
{
    let s = line + seq![10u8] + rest;
    assert forall|j: int| 0 <= j < line.len() implies line[j] != NEWLINE by {
        assert(line.contains(line[j]));
    }
    assert forall|j: int| 0 <= j < line.len() implies s[j] != NEWLINE by {
        assert(s[j] == line[j]);
    }
    assert(s[line.len() as int] == NEWLINE);
    lemma_newline_at(s, line.len());
    lemma_newline_at(line, line.len());
    assert(s.take(line.len() as int) =~= line);
    assert(s.skip((line.len() + 1) as int) =~= rest);
}

/// A line of bytes gives the text that they encode, without the carriage return of its
/// end; one of more than 65536 bytes gives that of its start, and is marked.
pub proof fn law_lines_give_their_texts(bytes: Seq<u8>, text: Seq<char>)
    ensures
        bytes.len() <= 65_536 && decoded(bytes) == text.push('\r') ==> line_text(bytes) == text,
        bytes.len() <= 65_536 && decoded(bytes) == text && (text.len() == 0 || text.last() != '\r')
            ==> line_text(bytes) == text,
        bytes.len() > 65_536 ==> line_text(bytes) == line_text(bytes.take(65_536))
            + "…[truncated]"@,
{
    assert(text.push('\r').drop_last() =~= text);
}

/// A leading `~` stands for the home directory, and for the current one where there is
/// none.
pub proof fn law_tilde_is_the_home_directory(rest: Seq<char>, home: Seq<u8>)
    requires
        rest.len() > 0,
        !crate::text::is_space(rest.last()),
    ensures
        expanded("~"@, Some(home)) == home,
        expanded("~"@, None) == encode_utf8("."@),
        expanded("~/"@ + rest, Some(home)) == joined(home, encode_utf8(rest)),
        expanded("~/"@ + rest, None) == joined(encode_utf8("."@), encode_utf8(rest)),
{
    reveal_strlit("~");
    reveal_strlit("~/");
    let none = Seq::<char>::empty();
    let path = "~/"@ + rest;
    crate::text::law_trimming(none, "~"@, none);
    assert(none + "~"@ + none =~= "~"@);
    assert(path[0] == '~');
    assert(path.last() == rest.last());
    crate::text::law_trimming(none, path, none);
    assert(none + path + none =~= path);
    assert(path.take(2) =~= "~/"@);
    assert(path.skip(2) =~= rest);
    assert(path.len() != "~"@.len());
}

/// A part goes behind a path with one separator between them, and an absolute part stands
/// alone.
pub proof fn law_paths_are_joined(path: Seq<u8>, part: Seq<u8>)
    ensures
        part.len() > 0 && part[0] == 47 ==> joined(path, part) == part,
        !(part.len() > 0 && part[0] == 47) && path.len() > 0 && path.last() != 47 ==> joined(
            path,
            part,
        ) == path + seq![47u8] + part,
        !(part.len() > 0 && part[0] == 47) && (path.len() == 0 || path.last() == 47) ==> joined(
            path,
            part,
        ) == path + part,
{
    assert(path.push(47u8) =~= path + seq![47u8]);
}

/// A line too long to wait for comes cut once, its rest is dropped, and the line behind
/// its end comes again.
pub proof fn law_rest_of_a_cut_line_is_dropped(
    f: Following,
    start: Seq<u8>,
    rest: Seq<u8>,
    more: Seq<u8>,
)
    requires
        !f.discard_until_newline,
        f.incomplete.len() == 0,
        start.len() > 65_536,
        !start.contains(10u8),
        !rest.contains(10u8),
        fragment(more).len() <= MAX_LINE_BYTES,
    ensures
        ({
            let cut = ingested(f, start);
            let after = ingested(cut, rest + seq![10u8] + more);
            &&& completed(f, start) == seq![line_text(start)]
            &&& completed(cut, rest) == Seq::<Seq<char>>::empty()
            &&& ingested(cut, rest) == cut
            &&& completed(cut, rest + seq![10u8] + more) == line_texts(byte_lines(more))
            &&& after.incomplete == fragment(more)
            &&& !after.discard_until_newline
        }),
{
    let bytes = rest + seq![10u8] + more;
    let cut = ingested(f, start);
    assert(f.incomplete + start =~= start);
    assert forall|j: int| 0 <= j < start.len() implies start[j] != NEWLINE by {
        assert(start.contains(start[j]));
    }
    lemma_newline_at(start, start.len());
    assert forall|j: int| 0 <= j < rest.len() implies rest[j] != NEWLINE by {
        assert(rest.contains(rest[j]));
    }
    lemma_newline_at(rest, rest.len());
    assert forall|j: int| 0 <= j < rest.len() implies bytes[j] != NEWLINE by {
        assert(bytes[j] == rest[j]);
    }
    assert(bytes[rest.len() as int] == NEWLINE);
    lemma_newline_at(bytes, rest.len());
    assert(bytes.skip((rest.len() + 1) as int) =~= more);
    assert(cut.incomplete + more =~= more);
    lemma_newline_at_is(more);
}

/// What a poll finds is noted: a file that is read is connected and without an error, one
/// that could not be read shows why and is opened anew, and one that is gone is waited for
/// with nothing kept of it.
pub proof fn law_polls_are_noted(f: Following, id: FileIdentity, reason: Seq<char>)
    ensures
        polled(f, id) == (Following {
            identity: Some(id),
            status: LogSourceStatus::Connected,
            error: None,
            ..f
        }),
        failed(f, reason) == (Following {
            is_open: false,
            identity: None,
            status: LogSourceStatus::Error,
            error: Some(reason),
            ..f
        }),
        waiting().status == LogSourceStatus::WaitingForFile && waiting().error is None,
        !waiting().is_open && !waiting().seeded && waiting().identity is None,
        waiting().offset == 0 && waiting().incomplete.len() == 0,
        !waiting().discard_until_newline,
{
}

/// A file is told by its device and number: one that shrank below what was read was cut,
/// another one took its place, and otherwise nothing is forgotten.
pub proof fn law_files_are_told_apart(f: Following, before: FileIdentity, id: FileIdentity)
    requires
        f.identity == Some(before),
    ensures
        ({
            let same = before.dev == id.dev && before.ino == id.ino;
            &&& is_same_file(before, id) == same
            &&& same && id.len < f.offset ==> seen(f, id) == (Following {
                offset: 0,
                incomplete: Seq::empty(),
                discard_until_newline: false,
                ..f
            })
            &&& same && id.len >= f.offset ==> seen(f, id) == f
            &&& !same ==> seen(f, id) == (Following { seeded: false, ..f })
            &&& same && f.is_open ==> step_on(seen(f, id), id) == FollowStep::Read
            &&& same && !f.is_open && f.seeded ==> step_on(seen(f, id), id) == FollowStep::Open
            &&& !same || (!f.is_open && !f.seeded) ==> step_on(seen(f, id), id)
                == FollowStep::OpenAndSeed
        }),
{
}

/// The last lines of a file are its last complete lines, in their order, and all of them
/// where it has no more.
pub proof fn law_last_lines_are_the_last(file: Seq<u8>, max: nat, i: int)
    ensures
        ({
            let all = byte_lines(file);
            let shown = last_lines(file, max);
            let skipped = if all.len() > max {
                all.len() - max
            } else {
                0
            };
            &&& shown.len() == all.len() - skipped
            &&& 0 <= i < shown.len() ==> shown[i] == line_text(
                without_return_byte(all[skipped + i]),
            )
        }),
{
}

} // verus!
