//! Frames: where their headers end, and what they announce.

use crate::lsp::frame;
use crate::lsp::frame::Step;
use crate::text;
use vstd::prelude::*;

verus! {

/// A header ends at `i`: behind a blank line, with either line ending.
pub open spec fn ends_at(buf: Seq<u8>, i: int) -> bool {
    ||| 2 <= i <= buf.len() && buf[i - 2] == 10 && buf[i - 1] == 10
    ||| 4 <= i <= buf.len() && buf[i - 4] == 13 && buf[i - 3] == 10 && buf[i - 2] == 13 && buf[i
        - 1] == 10
}

proof fn lemma_ends(buf: Seq<u8>, i: int)
    ensures
        frame::bytes_at(buf, seq![10u8, 10u8], i - 2) <==> 2 <= i <= buf.len() && buf[i - 2] == 10
            && buf[i - 1] == 10,
        frame::bytes_at(buf, seq![13u8, 10u8, 13u8, 10u8], i - 4) <==> 4 <= i <= buf.len()
            && buf[i - 4] == 13 && buf[i - 3] == 10 && buf[i - 2] == 13 && buf[i - 1] == 10,
{
    let two = seq![10u8, 10u8];
    let four = seq![13u8, 10u8, 13u8, 10u8];
    if 2 <= i <= buf.len() {
        let cut = buf.subrange(i - 2, i);
        assert(cut[0] == buf[i - 2] && cut[1] == buf[i - 1]);
        if buf[i - 2] == 10 && buf[i - 1] == 10 {
            assert(cut =~= two);
        }
    }
    if 4 <= i <= buf.len() {
        let cut = buf.subrange(i - 4, i);
        assert(cut[0] == buf[i - 4] && cut[1] == buf[i - 3] && cut[2] == buf[i - 2] && cut[3]
            == buf[i - 1]);
        if buf[i - 4] == 13 && buf[i - 3] == 10 && buf[i - 2] == 13 && buf[i - 1] == 10 {
            assert(cut =~= four);
        }
    }
}

/// A header ends behind the first blank line.
pub proof fn law_blank_lines_end_headers(buf: &[u8], r: Option<usize>, k: int)
    requires
        call_ensures(frame::find_header_end, (buf,), r),
    ensures
        r matches Some(i) ==> ends_at(buf@, i as int),
        ends_at(buf@, k) ==> (r matches Some(i) && i <= k),
{
    let two = seq![10u8, 10u8];
    let four = seq![13u8, 10u8, 13u8, 10u8];
    frame::lemma_first_from(buf@, two, 0);
    frame::lemma_first_from(buf@, four, 0);
    lemma_ends(buf@, k);
    if let Some(i) = r {
        lemma_ends(buf@, i as int);
    }
}

proof fn lemma_lines_join(a: Seq<u8>, b: Seq<u8>)
    ensures
        frame::header_lines(a.push(10) + b) == frame::header_lines(a) + frame::header_lines(b),
    decreases b.len(),
{
    let whole = a.push(10) + b;
    if b.len() == 0 {
        assert(whole =~= a.push(10));
        assert(a.push(10).drop_last() =~= a);
        assert(frame::header_lines(a).push(Seq::<u8>::empty()) =~= frame::header_lines(a)
            + frame::header_lines(b));
    } else {
        lemma_lines_join(a, b.drop_last());
        frame::lemma_lines_nonempty(b.drop_last());
        frame::lemma_lines_nonempty(a);
        assert(whole.drop_last() =~= a.push(10) + b.drop_last());
        assert(whole.last() == b.last());
        let left = frame::header_lines(a) + frame::header_lines(b.drop_last());
        assert(left.last() == frame::header_lines(b.drop_last()).last());
        assert(frame::header_lines(whole) =~= frame::header_lines(a) + frame::header_lines(b));
    }
}

proof fn lemma_one_line(line: Seq<u8>)
    requires
        !line.contains(10u8),
    ensures
        frame::header_lines(line) == seq![line],
    decreases line.len(),
{
    if line.len() > 0 {
        let front = line.drop_last();
        assert(!front.contains(10u8)) by {
            if front.contains(10u8) {
                let k = choose|k: int| 0 <= k < front.len() && front[k] == 10;
                assert(line[k] == 10);
            }
        }
        lemma_one_line(front);
        assert(line.contains(line[line.len() - 1]));
        assert(seq![front].update(0, front.push(line.last())) =~= seq![line]) by {
            assert(front.push(line.last()) =~= line);
        }
    } else {
        assert(line =~= Seq::<u8>::empty());
    }
}


/// A line that names the length, with any white space around the name and the
/// number and in any letter case, gives it; a line of another name is passed over
/// for those behind it.
pub proof fn law_headers_give_the_length(
    header: &[u8],
    r: Option<usize>,
    rest: &[u8],
    others: Option<usize>,
    line: Seq<u8>,
    colon: int,
)
    requires
        call_ensures(frame::parse_content_length, (header,), r),
        call_ensures(frame::parse_content_length, (rest,), others),
        header@ == line + seq![10u8] + rest@,
        !line.contains(10u8),
        0 <= colon < line.len(),
        line[colon] == 58,
        forall|k: int| 0 <= k < colon ==> #[trigger] line[k] != 58,
        line.last() != 13,
    ensures
        text::ascii_lower(frame::ascii_trimmed(frame::latin(line.take(colon))))
            == "content-length"@ ==> match frame::size_value(
            frame::ascii_trimmed(frame::latin(line.skip(colon + 1))),
        ) {
            Some(n) => r matches Some(v) && v == n,
            None => r is None,
        },
        text::ascii_lower(frame::ascii_trimmed(frame::latin(line.take(colon))))
            != "content-length"@ ==> r == others,
{
    assert(header@ =~= line.push(10) + rest@);
    lemma_lines_join(line, rest@);
    lemma_one_line(line);
    let lines = frame::header_lines(header@);
    assert(lines[0] == line);
    assert(lines.drop_first() =~= frame::header_lines(rest@));
    frame::lemma_first_byte_is(line, 58, colon as nat);
    assert(frame::chomped(line) == line);
}

/// The carriage return before a line feed is no part of the line.
pub proof fn law_carriage_returns_do_not_count(
    a: &[u8],
    b: &[u8],
    line: Seq<u8>,
    rest: Seq<u8>,
    x: Option<usize>,
    y: Option<usize>,
)
    requires
        call_ensures(frame::parse_content_length, (a,), x),
        call_ensures(frame::parse_content_length, (b,), y),
        !line.contains(10u8),
        line.len() == 0 || line.last() != 13,
        a@ == line + seq![10u8] + rest,
        b@ == line + seq![13u8, 10u8] + rest,
    ensures
        x == y,
{
    let other = line.push(13);
    assert(a@ =~= line.push(10) + rest);
    assert(b@ =~= other.push(10) + rest);
    assert(!other.contains(10u8)) by {
        if other.contains(10u8) {
            let k = choose|k: int| 0 <= k < other.len() && other[k] == 10;
            assert(line[k] == 10);
            assert(line.contains(10u8));
        }
    }
    lemma_lines_join(line, rest);
    lemma_lines_join(other, rest);
    lemma_one_line(line);
    lemma_one_line(other);
    let p = frame::header_lines(a@);
    let q = frame::header_lines(b@);
    assert(p[0] == line && q[0] == other);
    assert(p.drop_first() =~= frame::header_lines(rest));
    assert(q.drop_first() =~= frame::header_lines(rest));
    assert(other.drop_last() =~= line);
    assert(frame::chomped(line) == line);
    assert(frame::chomped(other) == line);
}

/// The size of a body is what decimal digits write, with or without a plus sign.
pub proof fn law_sizes_are_decimal(n: nat)
    requires
        n <= usize::MAX,
    ensures
        frame::size_value(text::decimal(n)) == Some(n),
        frame::size_value(seq!['+'] + text::decimal(n)) == Some(n),
        frame::size_value(seq!['-'] + text::decimal(n)) is None,
        frame::size_value(Seq::empty()) is None,
{
    crate::laws::text::law_numbers_read_back(n);
    let digits = text::decimal(n);
    assert((seq!['+'] + digits).drop_first() =~= digits);
    assert(text::is_digit(digits[0]));
    assert(!text::is_digit((seq!['-'] + digits)[0]));
}

/// Bytes are a frame once the header has ended and as many bytes as it announces
/// have followed. They are given up where the header does not end in time,
/// announces nothing, or announces more than a body may have.
pub proof fn law_frames_are_as_long_as_announced(
    buf: &[u8],
    end: Option<usize>,
    header: &[u8],
    len: Option<usize>,
)
    requires
        call_ensures(frame::find_header_end, (buf,), end),
        end matches Some(i) ==> i <= buf@.len() && header@ == buf@.take(i as int),
        call_ensures(frame::parse_content_length, (header,), len),
    ensures
        end is None ==> (frame::step_of(buf@) is More <==> buf@.len() <= 8192),
        end is None ==> !(frame::step_of(buf@) is Frame),
        end is Some && len is None ==> frame::step_of(buf@) is Broken,
        end is Some && len is Some ==> (frame::step_of(buf@) is Broken <==> len.unwrap()
            > 32 * 1024 * 1024),
        frame::step_of(buf@) is Frame <==> end is Some && len is Some && len.unwrap() <= 32 * 1024
            * 1024 && end.unwrap() + len.unwrap() <= buf@.len(),
        frame::step_of(buf@) matches Step::Frame { from, to } ==> from == end.unwrap() && to
            == end.unwrap() + len.unwrap(),
{
}

} // verus!
