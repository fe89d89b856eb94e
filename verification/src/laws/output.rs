//! Budgets of tokens, and lines with their numbers.

use crate::body;
use crate::budget;
use crate::text;
use crate::types::CodeSymbol;
use vstd::prelude::*;

verus! {

/// Four characters make a token, and what is left over makes one more.
pub proof fn law_four_characters_make_a_token(s: &str, r: usize)
    requires
        call_ensures(budget::estimate_tokens, (s,), r),
    ensures
        4 * r >= s@.len(),
        4 * r < s@.len() + 4,
{
}

/// A text exceeds a budget exactly where it costs more than is left of it.
pub proof fn law_budgets_are_exceeded_by_what_costs_more(
    b: &budget::TokenBudget,
    s: &str,
    cost: usize,
    left: usize,
    r: bool,
)
    requires
        b.wf(),
        call_ensures(budget::estimate_tokens, (s,), cost),
        call_ensures(budget::TokenBudget::remaining, (b,), left),
        call_ensures(budget::TokenBudget::would_exceed, (b, s), r),
    ensures
        r <==> cost > left,
{
}

/// Texts cost what each of them costs, all together.
pub proof fn law_costs_are_added_up(texts: Seq<String>, n: nat)
    requires
        n < texts.len(),
    ensures
        budget::total_cost(texts, 0) == 0,
        budget::total_cost(texts, n + 1) == budget::total_cost(texts, n) + (texts[n as int]@.len()
            + 3) / 4,
{
}

/// What is kept of items fits the limit, and one more would not, unless all of
/// them are kept.
pub proof fn law_as_many_items_are_kept_as_fit(
    texts: Seq<String>,
    kept: nat,
    all: nat,
    limit: nat,
)
    requires
        budget::fits_limit(texts, kept, all, limit),
    ensures
        kept <= all,
        budget::total_cost(texts, kept) <= limit,
        kept == all || budget::total_cost(texts, kept) + (texts[kept as int]@.len() + 3) / 4
            > limit,
{
}

/// Lines are numbered one by one: the lines of a range are those up to a line of
/// it and then those behind.
pub proof fn law_ranges_of_lines_join(
    lines: Seq<Seq<char>>,
    from: nat,
    mid: nat,
    to: nat,
    width: nat,
)
    requires
        0 < from,
        from <= mid + 1,
        mid <= to,
    ensures
        body::numbered_lines(lines, from, to, width) == body::numbered_lines(
            lines,
            from,
            mid,
            width,
        ) + body::numbered_lines(lines, mid + 1, to, width),
    decreases to,
{
    if to == mid {
        assert(body::numbered_lines(lines, from, mid, width) + Seq::<char>::empty()
            =~= body::numbered_lines(lines, from, mid, width));
    } else {
        law_ranges_of_lines_join(lines, from, mid, (to - 1) as nat, width);
        assert(body::numbered_lines(lines, from, to, width) =~= body::numbered_lines(
            lines,
            from,
            mid,
            width,
        ) + body::numbered_lines(lines, mid + 1, to, width));
    }
}

/// One line of a file is shown with its number, flush right, a bar and its text;
/// a line that the file does not have is not shown.
pub proof fn law_lines_are_shown_with_their_numbers(
    lines: Seq<Seq<char>>,
    n: nat,
    width: nat,
) -> (lead: nat)
    requires
        0 < n,
        text::decimal(n).len() <= width,
    ensures
        n > lines.len() ==> body::numbered_lines(lines, n, n, width).len() == 0,
        n <= lines.len() ==> ({
            let shown = body::numbered_lines(lines, n, n, width);
            &&& lead + text::decimal(n).len() == width
            &&& forall|k: int| 0 <= k < lead ==> #[trigger] shown[k] == ' '
            &&& shown.skip(lead as int) == text::decimal(n) + seq![' ', '|', ' '] + lines[n - 1]
                + seq!['\n']
        }),
{
    let digits = text::decimal(n);
    let lead = (width - digits.len()) as nat;
    assert(body::numbered_lines(lines, n, (n - 1) as nat, width) =~= Seq::<char>::empty());
    let one = body::numbered_line(n, width, lines[n - 1]);
    assert(Seq::<char>::empty() + one =~= one);
    assert(body::right_aligned(n, width) =~= body::blanks(lead) + digits);
    assert(one.skip(lead as int) =~= digits + seq![' ', '|', ' '] + lines[n - 1] + seq!['\n']);
    assert forall|k: int| 0 <= k < lead implies #[trigger] one[k] == ' ' by {
        assert(one[k] == body::blanks(lead)[k]);
    }
    lead
}

/// The body of a symbol is what its range of lines shows, with numbers in columns
/// that the last of them fits into with one to spare, five at least.
pub proof fn law_bodies_are_the_lines_of_a_symbol(
    lines: &[String],
    symbol: &CodeSymbol,
    a: String,
    b: String,
    width: usize,
)
    requires
        call_ensures(body::symbol_body, (lines, symbol), a),
        call_ensures(body::extract_lines, (lines, symbol.start_line, symbol.end_line), b),
        call_ensures(body::prefix_width, (symbol.end_line,), width),
    ensures
        a@ == b@,
        b@ == body::numbered_lines(
            text::texts(lines@),
            symbol.start_line as nat,
            symbol.end_line as nat,
            width as nat,
        ),
        width >= 5,
        width > text::decimal(symbol.end_line as nat).len(),
        width == 5 || width == text::decimal(symbol.end_line as nat).len() + 1,
{
}

} // verus!
