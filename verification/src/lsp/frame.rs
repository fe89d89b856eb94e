//! Frames: a header that gives a length, and a body of that length.
//!
//! A single read may bring part of a header, a header with part of a body, or
//! several frames at once. [`FrameParser`] takes whatever arrived and gives out
//! the bodies that are complete.

use super::LspError;
use crate::text;
use vstd::prelude::*;
use vstd::string::*;

verus! {

/// The longest header.
pub const MAX_HEADER_BYTES: usize = 8192;

/// The longest body.
pub const MAX_BODY_BYTES: usize = 33_554_432;

// ---------------------------------------------------------------- search

/// `needle` stands in `hay` at `at`.
pub open spec fn bytes_at(hay: Seq<u8>, needle: Seq<u8>, at: int) -> bool {
    0 <= at && at + needle.len() <= hay.len() && hay.subrange(at, at + needle.len()) == needle
}

/// The first place at or after `from` where `needle` stands in `hay`.
pub open spec fn first_from(hay: Seq<u8>, needle: Seq<u8>, from: nat) -> Option<nat>
    decreases hay.len() - from,
{
    if from + needle.len() > hay.len() {
        None
    } else if bytes_at(hay, needle, from as int) {
        Some(from)
    } else if from >= hay.len() {
        None
    } else {
        first_from(hay, needle, from + 1)
    }
}

pub(crate) proof fn lemma_first_from(hay: Seq<u8>, needle: Seq<u8>, from: nat)
    ensures
        match first_from(hay, needle, from) {
            Some(i) => from <= i && bytes_at(hay, needle, i as int) && forall|k: int|
                from <= k < i ==> !bytes_at(hay, needle, k),
            None => forall|k: int| from <= k ==> !bytes_at(hay, needle, k),
        },
    decreases hay.len() - from,
{
    if from + needle.len() <= hay.len() && !bytes_at(hay, needle, from as int) && from < hay.len() {
        lemma_first_from(hay, needle, from + 1);
    }
}

proof fn lemma_first_is(hay: Seq<u8>, needle: Seq<u8>, i: nat)
    requires
        bytes_at(hay, needle, i as int),
        forall|k: int| 0 <= k < i ==> !bytes_at(hay, needle, k),
    ensures
        first_from(hay, needle, 0) == Some(i),
{
    lemma_first_from(hay, needle, 0);
}

/// `memchr::memmem::find`: the place of the first occurrence of `needle`.
pub assume_specification[ memchr::memmem::find ](haystack: &[u8], needle: &[u8]) -> (r: Option<
    usize,
>)
    ensures
        match r {
            Some(i) => bytes_at(haystack@, needle@, i as int) && forall|k: int|
                0 <= k < i ==> !bytes_at(haystack@, needle@, k),
            None => forall|k: int| !bytes_at(haystack@, needle@, k),
        },
;

/// `memchr::memchr`: the place of the first occurrence of a byte.
pub assume_specification[ memchr::memchr ](needle: u8, haystack: &[u8]) -> (r: Option<usize>)
    ensures
        match r {
            Some(i) => i < haystack@.len() && haystack@[i as int] == needle && forall|k: int|
                0 <= k < i ==> haystack@[k] != needle,
            None => forall|k: int| 0 <= k < haystack@.len() ==> haystack@[k] != needle,
        },
;

/// The end of the first header: behind the first blank line, whichever of the
/// two line endings it is written with.
pub open spec fn header_end(buf: Seq<u8>) -> Option<nat> {
    match (first_from(buf, seq![13u8, 10u8, 13u8, 10u8], 0), first_from(buf, seq![10u8, 10u8], 0)) {
        (Some(a), Some(b)) => Some(
            if a + 4 <= b + 2 {
                a + 4
            } else {
                b + 2
            },
        ),
        (Some(a), None) => Some(a + 4),
        (None, Some(b)) => Some(b + 2),
        (None, None) => None,
    }
}

/// The end of the first header.
pub fn find_header_end(buf: &[u8]) -> (r: Option<usize>)
    ensures
        match r {
            Some(i) => header_end(buf@) == Some(i as nat) && i <= buf@.len(),
            None => header_end(buf@) is None,
        },
{
    let crlf: [u8; 4] = [13, 10, 13, 10];
    let lf: [u8; 2] = [10, 10];
    assert(crlf@ =~= seq![13u8, 10u8, 13u8, 10u8]);
    assert(lf@ =~= seq![10u8, 10u8]);
    let n: usize = buf.len();
    let a = memchr::memmem::find(buf, &crlf);
    let b = memchr::memmem::find(buf, &lf);
    proof {
        lemma_first_from(buf@, crlf@, 0);
        lemma_first_from(buf@, lf@, 0);
        if let Some(i) = a {
            lemma_first_is(buf@, crlf@, i as nat);
        }
        if let Some(i) = b {
            lemma_first_is(buf@, lf@, i as nat);
        }
    }
    match (a, b) {
        (Some(i), Some(j)) => {
            if i + 4 <= j + 2 {
                Some(i + 4)
            } else {
                Some(j + 2)
            }
        },
        (Some(i), None) => Some(i + 4),
        (None, Some(j)) => Some(j + 2),
        (None, None) => None,
    }
}

// ---------------------------------------------------------------- header

/// Bytes as characters, one for one.
pub open spec fn latin(bytes: Seq<u8>) -> Seq<char> {
    bytes.map_values(|b: u8| b as char)
}

/// The bytes `from .. to` as characters.
pub(crate) fn latin_chars(bytes: &[u8], from: usize, to: usize) -> (out: Vec<char>)
    requires
        from <= to <= bytes@.len(),
    ensures
        out@ == latin(bytes@.subrange(from as int, to as int)),
{
    let mut out: Vec<char> = Vec::new();
    let mut i: usize = from;
    while i < to
        invariant
            from <= i <= to <= bytes@.len(),
            out@ == latin(bytes@.subrange(from as int, i as int)),
        decreases to - i,
    {
        out.push(bytes[i] as char);
        assert(out@ =~= latin(bytes@.subrange(from as int, i as int + 1)));
        i = i + 1;
    }
    out
}

/// ASCII white space.
pub open spec fn ascii_space(c: char) -> bool {
    c == ' ' || c == '\t' || c == '\n' || c == '\u{C}' || c == '\r'
}

/// `s` without ASCII white space at its start.
pub open spec fn ascii_trimmed_start(s: Seq<char>) -> Seq<char>
    decreases s.len(),
{
    if s.len() > 0 && ascii_space(s[0]) {
        ascii_trimmed_start(s.drop_first())
    } else {
        s
    }
}

/// `s` without ASCII white space at its end.
pub open spec fn ascii_trimmed_end(s: Seq<char>) -> Seq<char>
    decreases s.len(),
{
    if s.len() > 0 && ascii_space(s.last()) {
        ascii_trimmed_end(s.drop_last())
    } else {
        s
    }
}

/// `s` without ASCII white space at either end.
pub open spec fn ascii_trimmed(s: Seq<char>) -> Seq<char> {
    ascii_trimmed_end(ascii_trimmed_start(s))
}

fn is_space(c: char) -> (r: bool)
    ensures
        r == ascii_space(c),
{
    c == ' ' || c == '\t' || c == '\n' || c == '\u{C}' || c == '\r'
}

fn ascii_trim(s: &[char]) -> (out: Vec<char>)
    ensures
        out@ == ascii_trimmed(s@),
{
    let mut from: usize = 0;
    assert(s@.skip(0) =~= s@);
    while from < s.len() && is_space(s[from])
        invariant
            from <= s@.len(),
            ascii_trimmed_start(s@) == ascii_trimmed_start(s@.skip(from as int)),
        decreases s.len() - from,
    {
        assert(s@.skip(from as int).drop_first() =~= s@.skip(from as int + 1));
        from = from + 1;
    }
    let mut to: usize = s.len();
    assert(s@.skip(from as int) =~= s@.subrange(from as int, to as int));
    while from < to && is_space(s[to - 1])
        invariant
            from <= to <= s@.len(),
            ascii_trimmed(s@) == ascii_trimmed_end(s@.subrange(from as int, to as int)),
        decreases to,
    {
        assert(s@.subrange(from as int, to as int).drop_last() =~= s@.subrange(
            from as int,
            to as int - 1,
        ));
        to = to - 1;
    }
    text::slice_of(s, from, to)
}

/// The number that an optional plus sign and decimal digits write, if it fits.
pub open spec fn size_value(s: Seq<char>) -> Option<nat> {
    let digits = if s.len() > 0 && s[0] == '+' {
        s.drop_first()
    } else {
        s
    };
    if digits.len() > 0 && text::all_digits(digits) && text::digits_value(digits) <= usize::MAX {
        Some(text::digits_value(digits) as nat)
    } else {
        None
    }
}

fn parse_size(s: &[char]) -> (r: Option<usize>)
    ensures
        match r {
            Some(v) => size_value(s@) == Some(v as nat),
            None => size_value(s@) is None,
        },
{
    let digits = if s.len() > 0 && s[0] == '+' {
        text::slice_of(s, 1, s.len())
    } else {
        text::slice_of(s, 0, s.len())
    };
    proof {
        if s@.len() > 0 && s@[0] == '+' {
            assert(digits@ =~= s@.drop_first());
        } else {
            assert(digits@ =~= s@);
        }
    }
    match text::parse_digits(&digits) {
        Some(v) => {
            if v <= usize::MAX as u64 {
                Some(v as usize)
            } else {
                None
            }
        },
        None => None,
    }
}

/// A header line names the length of the body.
pub open spec fn names_length(line: Seq<u8>) -> bool {
    match first_byte(line, 58) {
        Some(colon) => text::ascii_lower(ascii_trimmed(latin(line.take(colon as int))))
            == "content-length"@,
        None => false,
    }
}

/// The first place of a byte.
pub open spec fn first_byte(line: Seq<u8>, b: u8) -> Option<nat> {
    first_from(line, seq![b], 0)
}

/// The length that a header line gives.
pub open spec fn length_in(line: Seq<u8>) -> Option<nat> {
    match first_byte(line, 58) {
        Some(colon) => size_value(ascii_trimmed(latin(line.skip(colon as int + 1)))),
        None => None,
    }
}

/// The lines of a header: what stands between line feeds.
pub open spec fn header_lines(header: Seq<u8>) -> Seq<Seq<u8>>
    decreases header.len(),
{
    if header.len() == 0 {
        seq![Seq::<u8>::empty()]
    } else {
        let before = header_lines(header.drop_last());
        if header.last() == 10 {
            before.push(Seq::<u8>::empty())
        } else {
            before.update(before.len() - 1, before.last().push(header.last()))
        }
    }
}

/// `line` without one carriage return at its end.
pub open spec fn chomped(line: Seq<u8>) -> Seq<u8> {
    if line.len() > 0 && line.last() == 13 {
        line.drop_last()
    } else {
        line
    }
}

/// The length that the first of the lines that names one gives.
pub open spec fn length_of_lines(lines: Seq<Seq<u8>>) -> Option<nat>
    decreases lines.len(),
{
    if lines.len() == 0 {
        None
    } else if names_length(chomped(lines[0])) {
        length_in(chomped(lines[0]))
    } else {
        length_of_lines(lines.drop_first())
    }
}

/// The length of the body that a header announces.
pub open spec fn content_length(header: Seq<u8>) -> Option<nat> {
    length_of_lines(header_lines(header))
}

pub(crate) proof fn lemma_first_byte(line: Seq<u8>, b: u8)
    ensures
        match first_byte(line, b) {
            Some(i) => i < line.len() && line[i as int] == b && forall|k: int|
                0 <= k < i ==> #[trigger] line[k] != b,
            None => forall|k: int| 0 <= k < line.len() ==> #[trigger] line[k] != b,
        },
{
    lemma_first_from(line, seq![b], 0);
    assert forall|k: int| 0 <= k < line.len() implies (#[trigger] line[k] == b <==> bytes_at(
        line,
        seq![b],
        k,
    )) by {
        if line[k] == b {
            assert(line.subrange(k, k + 1) =~= seq![b]);
        }
        if bytes_at(line, seq![b], k) {
            assert(line.subrange(k, k + 1)[0] == b);
        }
    }
    if let Some(i) = first_byte(line, b) {
        assert(line[i as int] == b);
    }
}

pub(crate) proof fn lemma_first_byte_is(line: Seq<u8>, b: u8, i: nat)
    requires
        i < line.len(),
        line[i as int] == b,
        forall|k: int| 0 <= k < i ==> line[k] != b,
    ensures
        first_byte(line, b) == Some(i),
{
    lemma_first_byte(line, b);
}

/// What one header line says: whether it names the length, and the length.
fn read_line(line: &[u8]) -> (r: (bool, Option<usize>))
    ensures
        r.0 == names_length(line@),
        r.0 ==> (match r.1 {
            Some(v) => length_in(line@) == Some(v as nat),
            None => length_in(line@) is None,
        }),
{
    proof {
        lemma_first_byte(line@, 58);
    }
    let n: usize = line.len();
    match memchr::memchr(58, line) {
        None => (false, None),
        Some(colon) => {
            proof {
                lemma_first_byte_is(line@, 58, colon as nat);
            }
            let name = ascii_trim(&latin_chars(line, 0, colon));
            assert(line@.subrange(0, colon as int) =~= line@.take(colon as int));
            let low = text::lower_chars(&name);
            if !text::same_chars(&low, &text::chars_of("content-length")) {
                return (false, None);
            }
            let value = ascii_trim(&latin_chars(line, colon + 1, n));
            assert(line@.subrange(colon as int + 1, line@.len() as int) =~= line@.skip(
                colon as int + 1,
            ));
            (true, parse_size(&value))
        },
    }
}

proof fn lemma_lines_tail(header: Seq<u8>, at: int)
    requires
        0 <= at < header.len(),
        header[at] == 10,
        forall|k: int| 0 <= k < at ==> header[k] != 10,
    ensures
        header_lines(header) == seq![header.take(at)] + header_lines(header.skip(at + 1)),
    decreases header.len(),
{
    let n = header.len();
    if at == n - 1 {
        lemma_lines_none(header.drop_last());
        assert(header.take(at) =~= header.drop_last());
        assert(header.skip(at + 1) =~= Seq::<u8>::empty());
        assert(header_lines(header) =~= seq![header.take(at)] + header_lines(header.skip(at + 1)));
    } else {
        let t = header.drop_last();
        lemma_lines_tail(t, at);
        assert(t.take(at) =~= header.take(at));
        assert(header.skip(at + 1).drop_last() =~= t.skip(at + 1));
        assert(header.skip(at + 1).last() == header.last());
        let rest = header_lines(t.skip(at + 1));
        lemma_lines_nonempty(t.skip(at + 1));
        assert(header_lines(header) =~= seq![header.take(at)] + header_lines(header.skip(at + 1)));
    }
}

pub(crate) proof fn lemma_lines_nonempty(header: Seq<u8>)
    ensures
        header_lines(header).len() > 0,
    decreases header.len(),
{
    if header.len() > 0 {
        lemma_lines_nonempty(header.drop_last());
    }
}

proof fn lemma_lines_none(header: Seq<u8>)
    requires
        forall|k: int| 0 <= k < header.len() ==> header[k] != 10,
    ensures
        header_lines(header) == seq![header],
    decreases header.len(),
{
    if header.len() > 0 {
        lemma_lines_none(header.drop_last());
        assert(header =~= header.drop_last().push(header.last()));
        assert(header_lines(header) =~= seq![header]);
    } else {
        assert(header =~= Seq::<u8>::empty());
    }
}

/// The length of the body that a header announces.
pub fn parse_content_length(header: &[u8]) -> (r: Option<usize>)
    ensures
        match r {
            Some(v) => content_length(header@) == Some(v as nat),
            None => content_length(header@) is None,
        },
{
    let n: usize = header.len();
    let mut from: usize = 0;
    assert(header@.skip(0) =~= header@);
    loop
        invariant
            n == header@.len(),
            from <= n,
            content_length(header@) == length_of_lines(header_lines(header@.skip(from as int))),
        decreases n - from,
    {
        let ghost rest = header@.skip(from as int);
        let mut to: usize = from;
        while to < n && header[to] != 10
            invariant
                n == header@.len(),
                from <= to <= n,
                rest == header@.skip(from as int),
                forall|k: int| 0 <= k < to - from ==> rest[k] != 10,
            decreases n - to,
        {
            assert(rest[to - from] == header@[to as int]);
            to = to + 1;
        }
        let end: usize = if to > from && header[to - 1] == 13 {
            to - 1
        } else {
            to
        };
        let line = vstd::slice::slice_subrange(header, from, end);
        proof {
            let whole = header@.subrange(from as int, to as int);
            assert(line@ =~= chomped(whole));
            assert(whole =~= rest.take(to - from));
            if to < n {
                assert(rest[to - from] == header@[to as int]);
                lemma_lines_tail(rest, to - from);
                assert(rest.skip(to - from + 1) =~= header@.skip(to as int + 1));
                let all = header_lines(rest);
                assert(all[0] == whole);
                assert(all.drop_first() =~= header_lines(rest.skip(to - from + 1)));
            } else {
                assert(whole =~= rest);
                lemma_lines_none(rest);
                assert(header_lines(rest)[0] == whole);
                assert(header_lines(rest).drop_first() =~= Seq::<Seq<u8>>::empty());
            }
        }
        let (named, value) = read_line(line);
        if named {
            return value;
        }
        if to >= n {
            assert(length_of_lines(Seq::<Seq<u8>>::empty()) is None);
            return None;
        }
        from = to + 1;
    }
}

// ---------------------------------------------------------------- frames

/// What can be made of the bytes that have arrived.
pub ghost enum Step {
    /// There is no complete frame yet.
    More,
    /// The bytes are no frame.
    Broken(Seq<char>),
    /// A frame: its body starts at `from` and ends before `to`.
    Frame { from: nat, to: nat },
}

/// What can be made of `buf`.
pub open spec fn step_of(buf: Seq<u8>) -> Step {
    match header_end(buf) {
        None => if buf.len() > MAX_HEADER_BYTES {
            Step::Broken("LSP header exceeded 8192 bytes without a terminator"@)
        } else {
            Step::More
        },
        Some(end) => match content_length(buf.take(end as int)) {
            None => Step::Broken("LSP message missing Content-Length header"@),
            Some(len) => if len > MAX_BODY_BYTES {
                Step::Broken("LSP payload "@ + text::decimal(len) + " exceeds 33554432 bytes"@)
            } else if buf.len() < end + len {
                Step::More
            } else {
                Step::Frame { from: end, to: end + len }
            },
        },
    }
}

/// Splits a stream of bytes into the bodies of its frames.
#[derive(Debug)]
pub struct FrameParser {
    buf: Vec<u8>,
}

impl FrameParser {
    /// The bytes that have arrived and were not given out.
    pub closed spec fn pending(self) -> Seq<u8> {
        self.buf@
    }

    pub fn new() -> (r: FrameParser)
        ensures
            r.pending() == Seq::<u8>::empty(),
    {
        FrameParser { buf: Vec::new() }
    }

    /// Takes what arrived.
    pub fn ingest(&mut self, data: &[u8])
        ensures
            final(self).pending() == old(self).pending() + data@,
    {
        let ghost was = self.buf@;
        let mut i: usize = 0;
        assert(was + data@.take(0) =~= was);
        while i < data.len()
            invariant
                i <= data@.len(),
                self.buf@ == was + data@.take(i as int),
            decreases data.len() - i,
        {
            self.buf.push(data[i]);
            assert(self.buf@ =~= was + data@.take(i as int + 1));
            i = i + 1;
        }
        assert(data@.take(data@.len() as int) =~= data@);
    }

    /// The body of the next frame, if it is complete.
    pub fn next(&mut self) -> (r: Result<Option<Vec<u8>>, LspError>)
        ensures
            match step_of(old(self).pending()) {
                Step::More => r matches Ok(None) && final(self).pending() == old(self).pending(),
                Step::Broken(why) => r matches Err(LspError::Protocol(s)) && s@ == why
                    && final(self).pending() == old(self).pending(),
                Step::Frame { from, to } => r matches Ok(Some(body)) && body@
                    == old(self).pending().subrange(from as int, to as int)
                    && final(self).pending() == old(self).pending().skip(to as int),
            },
    {
        let end: usize = match find_header_end(&self.buf) {
            None => {
                if self.buf.len() > MAX_HEADER_BYTES {
                    return Err(
                        LspError::Protocol(
                            String::from_str("LSP header exceeded 8192 bytes without a terminator"),
                        ),
                    );
                }
                return Ok(None);
            },
            Some(end) => end,
        };
        let header = vstd::slice::slice_subrange(self.buf.as_slice(), 0, end);
        assert(header@ =~= self.buf@.take(end as int));
        let len: usize = match parse_content_length(header) {
            None => {
                return Err(
                    LspError::Protocol(String::from_str("LSP message missing Content-Length header")),
                );
            },
            Some(len) => len,
        };
        if len > MAX_BODY_BYTES {
            let digits = text::string_of(&text::to_decimal(len as u64));
            return Err(
                LspError::Protocol(
                    String::from_str("LSP payload ").concat(digits.as_str()).concat(
                        " exceeds 33554432 bytes",
                    ),
                ),
            );
        }
        if self.buf.len() - end < len {
            return Ok(None);
        }
        let total: usize = end + len;
        let ghost all = self.buf@;
        let rest = self.buf.split_off(total);
        let body = self.buf.split_off(end);
        assert(body@ =~= all.subrange(end as int, total as int));
        self.buf = rest;
        assert(self.buf@ =~= all.skip(total as int));
        Ok(Some(body))
    }
}

impl Default for FrameParser {
    fn default() -> (r: FrameParser)
        ensures
            r.pending() == Seq::<u8>::empty(),
    {
        FrameParser::new()
    }
}

/// Characters as bytes, one for one.
pub open spec fn bytes_of_ascii(s: Seq<char>) -> Seq<u8> {
    s.map_values(|c: char| c as u8)
}

/// The header of a body of `n` bytes.
pub open spec fn header_for(n: nat) -> Seq<u8> {
    bytes_of_ascii("Content-Length: "@ + text::decimal(n)) + seq![13u8, 10u8, 13u8, 10u8]
}

/// The frame of a body.
pub open spec fn framed(body: Seq<u8>) -> Seq<u8> {
    header_for(body.len()) + body
}

fn push_ascii(out: &mut Vec<u8>, s: &[char])
    ensures
        final(out)@ == old(out)@ + bytes_of_ascii(s@),
{
    let ghost was = out@;
    let mut i: usize = 0;
    assert(was + bytes_of_ascii(s@.take(0)) =~= was);
    while i < s.len()
        invariant
            i <= s@.len(),
            out@ == was + bytes_of_ascii(s@.take(i as int)),
        decreases s.len() - i,
    {
        out.push(s[i] as u8);
        assert(out@ =~= was + bytes_of_ascii(s@.take(i as int + 1)));
        i = i + 1;
    }
    assert(s@.take(s@.len() as int) =~= s@);
}

/// The frame of a body, as it is written.
pub fn write_frame(body: &[u8]) -> (out: Vec<u8>)
    ensures
        out@ == framed(body@),
{
    let mut out: Vec<u8> = Vec::new();
    push_ascii(&mut out, &text::chars_of("Content-Length: "));
    push_ascii(&mut out, &text::to_decimal(body.len() as u64));
    assert(out@ =~= bytes_of_ascii("Content-Length: "@ + text::decimal(body@.len())));
    out.push(13);
    out.push(10);
    out.push(13);
    out.push(10);
    assert(out@ =~= header_for(body@.len()));
    let ghost header = out@;
    let mut i: usize = 0;
    assert(header + body@.take(0) =~= header);
    while i < body.len()
        invariant
            i <= body@.len(),
            out@ == header + body@.take(i as int),
        decreases body.len() - i,
    {
        out.push(body[i]);
        assert(out@ =~= header + body@.take(i as int + 1));
        i = i + 1;
    }
    assert(body@.take(body@.len() as int) =~= body@);
    out
}

// ------------------------------------------------------------------ laws

proof fn lemma_first_with_more(hay: Seq<u8>, more: Seq<u8>, needle: Seq<u8>)
    requires
        needle.len() > 0,
    ensures
        first_from(hay, needle, 0) matches Some(i) ==> first_from(hay + more, needle, 0) == Some(i),
        first_from(hay, needle, 0) is None ==> (first_from(hay + more, needle, 0) matches Some(i)
            ==> i + needle.len() > hay.len()),
{
    let all = hay + more;
    lemma_first_from(hay, needle, 0);
    lemma_first_from(all, needle, 0);
    assert forall|k: int| 0 <= k && k + needle.len() <= hay.len() implies bytes_at(hay, needle, k)
        == bytes_at(all, needle, k) by {
        assert(hay.subrange(k, k + needle.len()) =~= all.subrange(k, k + needle.len()));
    }
    if let Some(i) = first_from(hay, needle, 0) {
        assert(bytes_at(all, needle, i as int));
        assert forall|k: int| 0 <= k < i implies !bytes_at(all, needle, k) by {
            assert(!bytes_at(hay, needle, k));
        }
        lemma_first_is(all, needle, i);
    } else {
        if let Some(i) = first_from(all, needle, 0) {
            assert(!bytes_at(hay, needle, i as int));
        }
    }
}

/// A frame that is complete stays the same frame whatever arrives behind it.
/// So the bodies that are given out do not depend on how the stream was cut
/// into reads.
pub proof fn law_frames_do_not_depend_on_reads(buf: Seq<u8>, more: Seq<u8>)
    requires
        step_of(buf) is Frame,
    ensures
        step_of(buf + more) == step_of(buf),
        (buf + more).subrange(step_of(buf)->from as int, step_of(buf)->to as int)
            == buf.subrange(step_of(buf)->from as int, step_of(buf)->to as int),
        (buf + more).skip(step_of(buf)->to as int) == buf.skip(step_of(buf)->to as int) + more,
{
    let crlf = seq![13u8, 10u8, 13u8, 10u8];
    let lf = seq![10u8, 10u8];
    let all = buf + more;
    lemma_first_with_more(buf, more, crlf);
    lemma_first_with_more(buf, more, lf);
    lemma_first_from(buf, crlf, 0);
    lemma_first_from(buf, lf, 0);
    assert(header_end(all) == header_end(buf));
    let end = header_end(buf).unwrap();
    assert(all.take(end as int) =~= buf.take(end as int));
    let from = step_of(buf)->from as int;
    let to = step_of(buf)->to as int;
    assert(all.subrange(from, to) =~= buf.subrange(from, to));
    assert(all.skip(to) =~= buf.skip(to) + more);
}

proof fn lemma_ascii_both_ways(s: Seq<char>)
    requires
        forall|k: int| 0 <= k < s.len() ==> '\u{0}' <= #[trigger] s[k] < '\u{80}',
    ensures
        latin(bytes_of_ascii(s)) == s,
{
    assert forall|k: int| 0 <= k < s.len() implies latin(bytes_of_ascii(s))[k] == s[k] by {
        let c = s[k];
        assert('\u{0}' <= c < '\u{80}');
        assert((c as u8) as char == c);
    }
    assert(latin(bytes_of_ascii(s)) =~= s);
}

/// The text of the header line for `n` bytes.
spec fn length_line(n: nat) -> Seq<u8> {
    bytes_of_ascii("Content-Length: "@ + text::decimal(n))
}

proof fn lemma_length_line(n: nat)
    ensures
        length_line(n).len() == 16 + text::decimal(n).len(),
        text::decimal(n).len() > 0,
        forall|k: int|
            0 <= k < length_line(n).len() ==> #[trigger] length_line(n)[k] != 10
                && length_line(n)[k] != 13,
{
    let title = "Content-Length: "@;
    let digits = text::decimal(n);
    let line = length_line(n);
    text::lemma_decimal_value(n);
    reveal_strlit("Content-Length: ");
    assert forall|k: int| 0 <= k < line.len() implies #[trigger] line[k] != 10 && line[k] != 13 by {
        if k < 16 {
            assert(line[k] == title[k] as u8);
        } else {
            assert(line[k] == digits[k - 16] as u8);
            assert(text::is_digit(digits[k - 16]));
        }
    }
}

proof fn lemma_length_name(n: nat)
    ensures
        names_length(length_line(n)),
        first_byte(length_line(n), 58) == Some(14nat),
{
    let title = "Content-Length: "@;
    let line = length_line(n);
    lemma_length_line(n);
    reveal_strlit("Content-Length: ");
    reveal_strlit("content-length");
    assert(line[14] == title[14] as u8);
    assert forall|k: int| 0 <= k < 14 implies line[k] != 58 by {
        assert(line[k] == title[k] as u8);
    }
    lemma_first_byte_is(line, 58, 14);
    let name = title.take(14);
    assert(line.take(14) =~= bytes_of_ascii(name));
    lemma_ascii_both_ways(name);
    assert(ascii_trimmed_start(name) == name);
    assert(ascii_trimmed_end(name) == name);
    assert(text::ascii_lower(name) =~= "content-length"@);
}

proof fn lemma_length_value(n: nat)
    requires
        n <= usize::MAX,
    ensures
        length_in(length_line(n)) == Some(n),
{
    let title = "Content-Length: "@;
    let digits = text::decimal(n);
    let line = length_line(n);
    lemma_length_line(n);
    lemma_length_name(n);
    text::lemma_decimal_value(n);
    reveal_strlit("Content-Length: ");
    let value = seq![' '] + digits;
    assert(title[15] == ' ');
    assert((title + digits).skip(15) =~= value);
    assert(line.skip(15) =~= bytes_of_ascii(value));
    assert forall|k: int| 0 <= k < value.len() implies '\u{0}' <= #[trigger] value[k]
        < '\u{80}' by {
        if k > 0 {
            assert(text::is_digit(digits[k - 1]));
        }
    }
    lemma_ascii_both_ways(value);
    assert(value.drop_first() =~= digits);
    assert(text::is_digit(digits[0]));
    assert(text::is_digit(digits[digits.len() - 1]));
    assert(ascii_trimmed_start(digits) == digits);
    assert(ascii_trimmed_start(value) == ascii_trimmed_start(value.drop_first()));
    assert(ascii_trimmed_end(digits) == digits);
    assert(size_value(digits) == Some(n));
}

proof fn lemma_header_length(n: nat)
    requires
        n <= usize::MAX,
    ensures
        content_length(header_for(n)) == Some(n),
{
    let line = length_line(n);
    let header = header_for(n);
    lemma_length_line(n);
    lemma_length_name(n);
    lemma_length_value(n);
    let at = line.len() as int + 1;
    assert(header[at] == 10);
    assert forall|k: int| 0 <= k < at implies header[k] != 10 by {
        if k < line.len() {
            assert(header[k] == line[k]);
        }
    }
    lemma_lines_tail(header, at);
    let first = header_lines(header)[0];
    assert(first =~= line.push(13));
    assert(chomped(first) =~= line);
}

/// Reading a frame gives back the body that was written, and leaves what stands
/// behind it.
pub proof fn law_frames_round_trip(body: Seq<u8>, rest: Seq<u8>)
    requires
        body.len() <= MAX_BODY_BYTES,
    ensures
        step_of(framed(body) + rest) is Frame,
        (framed(body) + rest).subrange(
            step_of(framed(body) + rest)->from as int,
            step_of(framed(body) + rest)->to as int,
        ) == body,
        (framed(body) + rest).skip(step_of(framed(body) + rest)->to as int) == rest,
{
    let n = body.len();
    let line = length_line(n);
    let header = header_for(n);
    let buf = framed(body) + rest;
    let crlf = seq![13u8, 10u8, 13u8, 10u8];
    let lf = seq![10u8, 10u8];
    let p = line.len() as int;
    let h = header.len() as int;
    lemma_length_line(n);
    assert forall|k: int| 0 <= k < p implies #[trigger] buf[k] == line[k] by {}
    assert(buf[p] == 13 && buf[p + 1] == 10 && buf[p + 2] == 13 && buf[p + 3] == 10);
    assert(buf.subrange(p, p + 4) =~= crlf);
    assert forall|k: int| 0 <= k < p implies !bytes_at(buf, crlf, k) by {
        if bytes_at(buf, crlf, k) {
            assert(buf.subrange(k, k + 4)[0] == 13);
            assert(buf[k] == line[k]);
        }
    }
    lemma_first_is(buf, crlf, p as nat);
    lemma_first_from(buf, lf, 0);
    if let Some(found) = first_from(buf, lf, 0) {
        let b = found as int;
        assert(buf.subrange(b, b + 2)[0] == 10);
        assert(buf.subrange(b, b + 2)[1] == 10);
        assert(buf[b] == 10 && buf[b + 1] == 10);
        if b < p {
            assert(buf[b] == line[b]);
        }
        assert(b >= p + 3);
    }
    assert(header_end(buf) == Some(h as nat));
    assert(buf.take(h) =~= header);
    lemma_header_length(n);
    assert(buf.subrange(h, h + n) =~= body);
    assert(buf.skip(h + n) =~= rest);
}

/// What was written of frames, one behind the other.
pub open spec fn framed_all(bodies: Seq<Seq<u8>>) -> Seq<u8>
    decreases bodies.len(),
{
    if bodies.len() == 0 {
        Seq::empty()
    } else {
        framed(bodies[0]) + framed_all(bodies.drop_first())
    }
}

/// What arrived in reads, one behind the other.
pub open spec fn joined(reads: Seq<Seq<u8>>) -> Seq<u8>
    decreases reads.len(),
{
    if reads.len() == 0 {
        Seq::empty()
    } else {
        joined(reads.drop_last()) + reads.last()
    }
}

/// The bodies that are given out until no frame is complete, and the bytes that
/// are then left.
pub open spec fn drained(buf: Seq<u8>) -> (Seq<Seq<u8>>, Seq<u8>)
    decreases buf.len(),
{
    match step_of(buf) {
        Step::Frame { from, to } => if 0 < to <= buf.len() {
            let (bodies, left) = drained(buf.skip(to as int));
            (seq![buf.subrange(from as int, to as int)] + bodies, left)
        } else {
            (Seq::empty(), buf)
        },
        _ => (Seq::empty(), buf),
    }
}

/// The bodies that are given out, and the bytes that are left, where after each
/// read the bodies are taken until no frame is complete.
pub open spec fn received(reads: Seq<Seq<u8>>) -> (Seq<Seq<u8>>, Seq<u8>)
    decreases reads.len(),
{
    if reads.len() == 0 {
        (Seq::empty(), Seq::empty())
    } else {
        let (bodies, left) = received(reads.drop_last());
        let (more, rest) = drained(left + reads.last());
        (bodies + more, rest)
    }
}

/// The smallest number of more than `digits` digits.
spec fn ten_to(digits: nat) -> nat
    decreases digits,
{
    if digits == 0 {
        1
    } else {
        10 * ten_to((digits - 1) as nat)
    }
}

proof fn lemma_decimal_length(n: nat, digits: nat)
    requires
        digits > 0,
        n < ten_to(digits),
    ensures
        text::decimal(n).len() <= digits,
    decreases digits,
{
    if n >= 10 {
        assert(ten_to(digits) == 10 * ten_to((digits - 1) as nat));
        assert(ten_to(0) == 1);
        assert(digits > 1);
        lemma_decimal_length(n / 10, (digits - 1) as nat);
    }
}

proof fn lemma_decimal_is_short(n: nat)
    requires
        n <= MAX_BODY_BYTES,
    ensures
        text::decimal(n).len() <= 8,
{
    assert(ten_to(0) == 1);
    assert(ten_to(1) == 10);
    assert(ten_to(2) == 100);
    assert(ten_to(3) == 1_000);
    assert(ten_to(4) == 10_000);
    assert(ten_to(5) == 100_000);
    assert(ten_to(6) == 1_000_000);
    assert(ten_to(7) == 10_000_000);
    assert(ten_to(8) == 100_000_000);
    lemma_decimal_length(n, 8);
}

/// As long as less than a whole frame has arrived there is no frame, and that is
/// no error.
pub proof fn law_partial_frames_are_waited_for(body: Seq<u8>, arrived: int)
    requires
        body.len() <= MAX_BODY_BYTES,
        0 <= arrived < framed(body).len(),
    ensures
        step_of(framed(body).take(arrived)) is More,
{
    let n = body.len();
    let all = framed(body);
    let buf = all.take(arrived);
    let more = all.skip(arrived);
    let header = header_for(n);
    let crlf = seq![13u8, 10u8, 13u8, 10u8];
    let lf = seq![10u8, 10u8];
    assert(buf + more =~= all);
    assert(all + Seq::<u8>::empty() =~= all);
    law_frames_round_trip(body, Seq::empty());
    lemma_length_line(n);
    lemma_decimal_is_short(n);
    lemma_first_with_more(buf, more, crlf);
    lemma_first_with_more(buf, more, lf);
    lemma_first_from(buf, crlf, 0);
    lemma_first_from(buf, lf, 0);
    lemma_first_from(all, crlf, 0);
    lemma_first_from(all, lf, 0);
    let from = step_of(all)->from;
    let to = step_of(all)->to;
    assert(all.skip(to as int).len() == 0);
    assert(all.subrange(from as int, to as int).len() == n);
    assert(from == header.len());
    assert(header_end(all) == Some(from));
    match header_end(buf) {
        Some(end) => {
            assert(end == from);
            assert(buf.take(end as int) =~= all.take(end as int));
        },
        None => {
            if arrived >= from {
                assert(first_from(all, crlf, 0) matches Some(i) ==> i + 4 > arrived);
                assert(first_from(all, lf, 0) matches Some(i) ==> i + 2 > arrived);
                assert(from > arrived);
            }
            assert(buf.len() < header.len());
            assert(header.len() <= 16 + 8 + 4);
        },
    }
}

/// What is left after taking every body from the start of some frames.
proof fn lemma_drained(bodies: Seq<Seq<u8>>, arrived: int)
    requires
        forall|k: int| 0 <= k < bodies.len() ==> (#[trigger] bodies[k]).len() <= MAX_BODY_BYTES,
        0 <= arrived <= framed_all(bodies).len(),
    ensures
        ({
            let (out, left) = drained(framed_all(bodies).take(arrived));
            &&& out.len() <= bodies.len()
            &&& out == bodies.take(out.len() as int)
            &&& framed_all(bodies.skip(out.len() as int)).len() == framed_all(bodies).len() - arrived
                + left.len()
            &&& left == framed_all(bodies.skip(out.len() as int)).take(left.len() as int)
            &&& step_of(left) is More
            &&& arrived == framed_all(bodies).len() ==> out == bodies && left.len() == 0
        }),
    decreases bodies.len(),
{
    let all = framed_all(bodies);
    let buf = all.take(arrived);
    assert(bodies.skip(0) =~= bodies);
    assert(bodies.take(0) =~= Seq::empty());
    if bodies.len() == 0 {
        assert(buf =~= Seq::<u8>::empty());
        lemma_nothing_is_no_frame();
    } else {
        let body = bodies[0];
        let frame = framed(body);
        let rest = framed_all(bodies.drop_first());
        if arrived < frame.len() {
            law_partial_frames_are_waited_for(body, arrived);
            assert(buf =~= frame.take(arrived));
        } else {
            let tail = rest.take(arrived - frame.len());
            assert(buf =~= frame + tail);
            law_frames_round_trip(body, tail);
            let from = step_of(buf)->from as int;
            let to = step_of(buf)->to as int;
            assert(buf.skip(to).len() == tail.len());
            assert(to == frame.len());
            lemma_drained(bodies.drop_first(), arrived - frame.len());
            let (more, left) = drained(tail);
            let (out, _) = drained(buf);
            assert(out =~= seq![body] + more);
            assert(out =~= bodies.take(out.len() as int));
            assert(bodies.skip(out.len() as int) =~= bodies.drop_first().skip(more.len() as int));
        }
    }
}

proof fn lemma_nothing_is_no_frame()
    ensures
        step_of(Seq::<u8>::empty()) is More,
{
    lemma_first_from(Seq::<u8>::empty(), seq![13u8, 10u8, 13u8, 10u8], 0);
    lemma_first_from(Seq::<u8>::empty(), seq![10u8, 10u8], 0);
}

proof fn lemma_joined_start(reads: Seq<Seq<u8>>, n: int)
    requires
        0 <= n <= reads.len(),
    ensures
        joined(reads.take(n)).len() <= joined(reads).len(),
        joined(reads.take(n)) == joined(reads).take(joined(reads.take(n)).len() as int),
    decreases reads.len() - n,
{
    if n == reads.len() {
        assert(reads.take(n) =~= reads);
    } else {
        lemma_joined_start(reads, n + 1);
        assert(reads.take(n + 1).drop_last() =~= reads.take(n));
        let some = joined(reads.take(n + 1));
        assert(joined(reads.take(n)) =~= some.take(joined(reads.take(n)).len() as int));
    }
}

proof fn lemma_framed_tail(bodies: Seq<Seq<u8>>, n: int)
    requires
        0 <= n <= bodies.len(),
    ensures
        framed_all(bodies) == framed_all(bodies.take(n)) + framed_all(bodies.skip(n)),
    decreases n,
{
    if n == 0 {
        assert(bodies.skip(0) =~= bodies);
        assert(framed_all(bodies.take(0)) =~= Seq::<u8>::empty());
    } else {
        lemma_framed_tail(bodies.drop_first(), n - 1);
        assert(bodies.take(n).drop_first() =~= bodies.drop_first().take(n - 1));
        assert(bodies.drop_first().skip(n - 1) =~= bodies.skip(n));
        assert(framed_all(bodies) =~= framed_all(bodies.take(n)) + framed_all(bodies.skip(n)));
    }
}

/// Of the frames of some bodies, `seen` has arrived: the bodies given out are the
/// first ones, and what is left is the start of the next frame.
pub open spec fn given_out(
    bodies: Seq<Seq<u8>>,
    seen: Seq<u8>,
    out: Seq<Seq<u8>>,
    left: Seq<u8>,
) -> bool {
    &&& out.len() <= bodies.len()
    &&& out == bodies.take(out.len() as int)
    &&& framed_all(out) + left == seen
    &&& step_of(left) is More
}

proof fn lemma_rest_arrives(given: Seq<u8>, buf: Seq<u8>, rest: Seq<u8>, arrived: int)
    requires
        0 <= arrived <= (given + rest).len(),
        given + buf == (given + rest).take(arrived),
    ensures
        given.len() <= arrived,
        buf == rest.take(arrived - given.len()),
{
    let all = given + rest;
    assert((given + buf).len() == arrived);
    assert forall|k: int| 0 <= k < buf.len() implies buf[k] == rest[k] by {
        assert((given + buf)[given.len() + k] == all.take(arrived)[given.len() + k]);
    }
    assert(buf =~= rest.take(arrived - given.len()));
}

proof fn lemma_next_read(
    bodies: Seq<Seq<u8>>,
    seen: Seq<u8>,
    out: Seq<Seq<u8>>,
    left: Seq<u8>,
    read: Seq<u8>,
)
    requires
        forall|k: int| 0 <= k < bodies.len() ==> (#[trigger] bodies[k]).len() <= MAX_BODY_BYTES,
        given_out(bodies, seen, out, left),
        (seen + read).len() <= framed_all(bodies).len(),
        seen + read == framed_all(bodies).take((seen + read).len() as int),
    ensures
        ({
            let (more, rest) = drained(left + read);
            &&& given_out(bodies, seen + read, out + more, rest)
            &&& (seen + read).len() == framed_all(bodies).len() ==> out + more == bodies
                && rest.len() == 0
        }),
{
    let all = framed_all(bodies);
    let given = framed_all(out);
    let buf = left + read;
    let arrived = (seen + read).len() as int;
    let after = bodies.skip(out.len() as int);
    lemma_framed_tail(bodies, out.len() as int);
    assert(given + buf =~= seen + read);
    lemma_rest_arrives(given, buf, framed_all(after), arrived);
    lemma_drained(after, arrived - given.len());
    let (more, rest) = drained(buf);
    let m = more.len() as int;
    lemma_framed_tail(after, m);
    assert(framed_all(more) + rest =~= buf);
    let now = out + more;
    assert(now =~= bodies.take(now.len() as int));
    lemma_framed_tail(now, out.len() as int);
    assert(now.take(out.len() as int) =~= out);
    assert(now.skip(out.len() as int) =~= more);
    assert(framed_all(now) + rest =~= seen + read);
    if arrived == all.len() {
        assert(now =~= bodies);
    }
}

/// However the frames of some bodies are cut into reads: after each read, the
/// bodies given out are the first ones in their order, what is left is no error,
/// and after the last read every body was given out and nothing is left.
pub proof fn law_reads_give_back_the_bodies(bodies: Seq<Seq<u8>>, reads: Seq<Seq<u8>>, n: int)
    requires
        forall|k: int| 0 <= k < bodies.len() ==> (#[trigger] bodies[k]).len() <= MAX_BODY_BYTES,
        joined(reads) == framed_all(bodies),
        0 <= n <= reads.len(),
    ensures
        given_out(
            bodies,
            joined(reads.take(n)),
            received(reads.take(n)).0,
            received(reads.take(n)).1,
        ),
        received(reads).0 == bodies,
        received(reads).1.len() == 0,
{
    lemma_reads(bodies, reads, n);
    lemma_reads(bodies, reads, reads.len() as int);
    assert(reads.take(reads.len() as int) =~= reads);
}

proof fn lemma_reads(bodies: Seq<Seq<u8>>, reads: Seq<Seq<u8>>, n: int)
    requires
        forall|k: int| 0 <= k < bodies.len() ==> (#[trigger] bodies[k]).len() <= MAX_BODY_BYTES,
        joined(reads) == framed_all(bodies),
        0 <= n <= reads.len(),
    ensures
        ({
            let (out, left) = received(reads.take(n));
            &&& given_out(bodies, joined(reads.take(n)), out, left)
            &&& n == reads.len() ==> out == bodies && left.len() == 0
        }),
    decreases n,
{
    let now = reads.take(n);
    lemma_joined_start(reads, n);
    if n == 0 {
        assert(now =~= Seq::empty());
        assert(bodies.take(0) =~= Seq::empty());
        lemma_nothing_is_no_frame();
        assert(framed_all(Seq::empty()) + Seq::<u8>::empty() =~= joined(now));
        if reads.len() == 0 {
            assert(now =~= reads);
            if bodies.len() > 0 {
                lemma_length_line(bodies[0].len());
                assert(framed_all(bodies).len() > 0);
            }
            assert(bodies =~= Seq::empty());
        }
    } else {
        lemma_reads(bodies, reads, n - 1);
        assert(now.drop_last() =~= reads.take(n - 1));
        let (out, left) = received(reads.take(n - 1));
        assert(now =~= reads || n < reads.len());
        lemma_next_read(bodies, joined(reads.take(n - 1)), out, left, now.last());
    }
}

} // verus!
