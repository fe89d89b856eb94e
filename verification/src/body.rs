//! Source lines with line numbers in front of them.

use crate::text;
use crate::types::CodeSymbol;
use vstd::prelude::*;

verus! {

/// The number of decimal digits of `n`.
pub fn digits_of(n: u32) -> (r: usize)
    ensures
        r == text::decimal(n as nat).len(),
        1 <= r <= 10,
{
    let mut count: usize = 1;
    let mut rest: u32 = n;
    let ghost mut bound: int = 4_294_967_295;
    while rest >= 10
        invariant
            text::decimal(n as nat).len() == count - 1 + text::decimal(rest as nat).len(),
            1 <= count <= 10,
            rest <= bound,
            count == 1 ==> bound == 4_294_967_295,
            count == 2 ==> bound == 429_496_729,
            count == 3 ==> bound == 42_949_672,
            count == 4 ==> bound == 4_294_967,
            count == 5 ==> bound == 429_496,
            count == 6 ==> bound == 42_949,
            count == 7 ==> bound == 4_294,
            count == 8 ==> bound == 429,
            count == 9 ==> bound == 42,
            count == 10 ==> bound == 4,
        decreases rest,
    {
        rest = rest / 10;
        count = count + 1;
        proof {
            bound = bound / 10;
        }
    }
    count
}

/// The width that line numbers up to `end_line` are set in: five columns, or
/// one more than the digits of a longer number.
pub open spec fn number_width(end_line: u32) -> nat {
    let wanted = text::decimal(end_line as nat).len() + 1;
    if wanted < 5 {
        5
    } else {
        wanted
    }
}

/// The width of the line numbers up to `end_line`.
pub fn prefix_width(end_line: u32) -> (r: usize)
    ensures
        r == number_width(end_line),
        5 <= r <= 11,
{
    let wanted: usize = digits_of(end_line) + 1;
    if wanted < 5 {
        5
    } else {
        wanted
    }
}

/// `n` blanks.
pub open spec fn blanks(n: nat) -> Seq<char> {
    Seq::new(n, |i: int| ' ')
}

/// `n` in decimal, set flush right in `width` columns.
pub open spec fn right_aligned(n: nat, width: nat) -> Seq<char> {
    let digits = text::decimal(n);
    if digits.len() < width {
        blanks((width - digits.len()) as nat) + digits
    } else {
        digits
    }
}

/// One line with its number.
pub open spec fn numbered_line(n: nat, width: nat, line: Seq<char>) -> Seq<char> {
    right_aligned(n, width) + seq![' ', '|', ' '] + line + seq!['\n']
}

/// The lines `from ..= to` of a file, as far as it has them, with their numbers.
pub open spec fn numbered_lines(
    lines: Seq<Seq<char>>,
    from: nat,
    to: nat,
    width: nat,
) -> Seq<char>
    decreases to,
{
    if to == 0 || to < from {
        Seq::empty()
    } else {
        let before = numbered_lines(lines, from, (to - 1) as nat, width);
        if to <= lines.len() {
            before + numbered_line(to, width, lines[to - 1])
        } else {
            before
        }
    }
}

proof fn lemma_past_the_end(lines: Seq<Seq<char>>, from: nat, to: nat, width: nat)
    requires
        to >= lines.len(),
    ensures
        numbered_lines(lines, from, to, width) == numbered_lines(lines, from, lines.len(), width),
    decreases to,
{
    if to > lines.len() {
        lemma_past_the_end(lines, from, (to - 1) as nat, width);
    }
}

/// The lines `start_line ..= end_line` of a file whose lines are `lines`, each
/// with its number in front and a line feed at its end. Lines beyond the end
/// of the file are left out, and a range that ends before it starts is empty.
pub fn extract_lines(lines: &[String], start_line: u32, end_line: u32) -> (out: String)
    ensures
        out@ == numbered_lines(
            text::texts(lines@),
            start_line as nat,
            end_line as nat,
            number_width(end_line),
        ),
{
    let ghost all = text::texts(lines@);
    let ghost w = number_width(end_line);
    if start_line > end_line {
        let none: Vec<char> = Vec::new();
        assert(none@ =~= numbered_lines(all, start_line as nat, end_line as nat, w));
        return text::string_of(&none);
    }
    let width: usize = prefix_width(end_line);
    let mut out: Vec<char> = Vec::new();
    let mut i: usize = 0;
    assert(out@ =~= numbered_lines(all, start_line as nat, 0, w));
    while i < lines.len() && (i as u64) < (end_line as u64)
        invariant
            i <= lines@.len(),
            i <= end_line,
            all == text::texts(lines@),
            width == w,
            5 <= width <= 11,
            out@ == numbered_lines(all, start_line as nat, i as nat, w),
        decreases lines.len() - i,
    {
        let number: u64 = i as u64 + 1;
        if number >= start_line as u64 {
            let digits = text::to_decimal(number);
            let ghost was = out@;
            let mut pad: usize = digits.len();
            while pad < width
                invariant
                    digits.len() <= pad,
                    digits.len() < width ==> pad <= width,
                    digits.len() >= width ==> pad == digits.len(),
                    out@ == was + blanks((pad - digits.len()) as nat),
                decreases width - pad,
            {
                out.push(' ');
                assert(out@ =~= was + blanks((pad + 1 - digits.len()) as nat));
                pad = pad + 1;
            }
            let mut own = digits;
            out.append(&mut own);
            assert(out@ =~= was + right_aligned(number as nat, w));
            out.push(' ');
            out.push('|');
            out.push(' ');
            let mut line = text::chars_of(lines[i].as_str());
            assert(line@ == all[i as int]);
            out.append(&mut line);
            out.push('\n');
            assert(out@ =~= was + numbered_line(number as nat, w, all[i as int]));
        } else {
            assert(numbered_lines(all, start_line as nat, i as nat, w) =~= Seq::<char>::empty());
        }
        i = i + 1;
    }
    proof {
        if i == lines@.len() {
            assert(all.len() == lines@.len());
            lemma_past_the_end(all, start_line as nat, end_line as nat, w);
        }
    }
    text::string_of(&out)
}

/// The lines of `symbol`, with their numbers.
pub fn symbol_body(lines: &[String], symbol: &CodeSymbol) -> (out: String)
    ensures
        out@ == numbered_lines(
            text::texts(lines@),
            symbol.start_line as nat,
            symbol.end_line as nat,
            number_width(symbol.end_line),
        ),
{
    extract_lines(lines, symbol.start_line, symbol.end_line)
}

} // verus!
