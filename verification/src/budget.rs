//! Token budgets for output.
//!
//! Output stops at its budget without splitting an item: whole lower-ranked
//! items are left out, and their number is reported.

use vstd::prelude::*;
use vstd::string::*;

verus! {

/// Four characters to a token, the last token perhaps short.
pub open spec fn token_cost(s: Seq<char>) -> nat {
    (s.len() + 3) as nat / 4
}

/// A rough token count of a string, by characters rather than bytes.
pub fn estimate_tokens(s: &str) -> (r: usize)
    ensures
        r == token_cost(s@),
{
    let n: usize = s.unicode_len();
    if n % 4 == 0 {
        n / 4
    } else {
        n / 4 + 1
    }
}

/// A number of tokens to spend.
#[derive(Debug)]
pub struct TokenBudget {
    limit: usize,
    used: usize,
}

impl TokenBudget {
    /// No more is spent than there was.
    pub closed spec fn wf(self) -> bool {
        self.used <= self.limit
    }

    /// What is left to spend.
    pub closed spec fn left(self) -> nat {
        (self.limit - self.used) as nat
    }

    pub fn new(limit: usize) -> (r: TokenBudget)
        ensures
            r.wf(),
            r.left() == limit,
    {
        TokenBudget { limit, used: 0 }
    }

    pub fn remaining(&self) -> (r: usize)
        requires
            self.wf(),
        ensures
            r == self.left(),
    {
        self.limit - self.used
    }

    pub fn would_exceed(&self, s: &str) -> (r: bool)
        requires
            self.wf(),
        ensures
            r == (token_cost(s@) > self.left()),
    {
        estimate_tokens(s) > self.remaining()
    }

    /// Charges `s` if it fits; otherwise the budget stays as it is.
    pub fn try_add(&mut self, s: &str) -> (r: bool)
        requires
            old(self).wf(),
        ensures
            final(self).wf(),
            r == (token_cost(s@) <= old(self).left()),
            r ==> final(self).left() == old(self).left() - token_cost(s@),
            !r ==> *final(self) == *old(self),
    {
        let cost: usize = estimate_tokens(s);
        if cost > self.remaining() {
            return false;
        }
        self.used = self.used + cost;
        true
    }
}

/// What the first `n` texts cost together.
pub open spec fn total_cost(texts: Seq<String>, n: nat) -> nat
    decreases n,
{
    if n == 0 {
        0
    } else {
        total_cost(texts, (n - 1) as nat) + token_cost(texts[n - 1]@)
    }
}

/// Of items rendered as `texts`, `kept` fit the limit and no more do: they cost
/// no more than it, and with the next item they would.
pub open spec fn fits_limit(texts: Seq<String>, kept: nat, all: nat, limit: nat) -> bool {
    &&& kept <= all
    &&& total_cost(texts, kept) <= limit
    &&& kept < all ==> texts.len() == kept + 1 && total_cost(texts, (kept + 1) as nat) > limit
    &&& kept == all ==> texts.len() == kept
}

/// Keeps the longest prefix of `items` that fits the limit, and counts the
/// rest. `render` gives the complete text of one item. Once an item does not
/// fit, neither it nor any after it is kept.
pub fn truncate_ranked<T, F: FnMut(&T) -> String>(
    items: &[T],
    limit: usize,
    render: F,
) -> (r: (Vec<&T>, usize))
    requires
        forall|x: &T| #[trigger] render.requires((x,)),
    ensures
        r.0@.len() + r.1 == items@.len(),
        forall|k: int| 0 <= k < r.0@.len() ==> *(#[trigger] r.0@[k]) == items@[k],
        exists|texts: Seq<String>|
            #![trigger fits_limit(texts, r.0@.len(), items@.len(), limit as nat)]
            fits_limit(texts, r.0@.len(), items@.len(), limit as nat) && forall|k: int|
                0 <= k < texts.len() ==> render.ensures((&items@[k],), #[trigger] texts[k]),
{
    let mut draw = render;
    let mut budget = TokenBudget::new(limit);
    let mut kept: Vec<&T> = Vec::new();
    let ghost mut texts: Seq<String> = Seq::empty();
    let mut i: usize = 0;
    while i < items.len()
        invariant
            i <= items@.len(),
            forall|x: &T| #[trigger] draw.requires((x,)),
            draw == render,
            budget.wf(),
            kept@.len() == i,
            texts.len() == i,
            forall|k: int| 0 <= k < i ==> *(#[trigger] kept@[k]) == items@[k],
            forall|k: int|
                0 <= k < texts.len() ==> render.ensures((&items@[k],), #[trigger] texts[k]),
            total_cost(texts, i as nat) + budget.left() == limit,
        decreases items.len() - i,
    {
        let item = &items[i];
        let rendered = draw(item);
        assert(render.ensures((item,), rendered));
        let ghost next = texts.push(rendered);
        proof {
            lemma_total_cost_prefix(texts, next, i as nat);
        }
        if !budget.try_add(rendered.as_str()) {
            assert(fits_limit(next, i as nat, items@.len(), limit as nat));
            return (kept, items.len() - i);
        }
        proof {
            texts = next;
        }
        kept.push(item);
        i = i + 1;
    }
    assert(total_cost(texts, i as nat) <= limit);
    assert(fits_limit(texts, kept@.len(), items@.len(), limit as nat));
    (kept, 0)
}

proof fn lemma_total_cost_prefix(a: Seq<String>, b: Seq<String>, n: nat)
    requires
        n <= a.len() <= b.len(),
        forall|k: int| 0 <= k < n ==> a[k] == b[k],
    ensures
        total_cost(a, n) == total_cost(b, n),
    decreases n,
{
    if n > 0 {
        lemma_total_cost_prefix(a, b, (n - 1) as nat);
    }
}

/// A greater limit never keeps fewer items of the same rendering.
pub proof fn law_more_budget_keeps_more(
    texts: Seq<String>,
    more: Seq<String>,
    kept: nat,
    kept_more: nat,
    all: nat,
    limit: nat,
    greater: nat,
)
    requires
        limit <= greater,
        fits_limit(texts, kept, all, limit),
        fits_limit(more, kept_more, all, greater),
        forall|k: int|
            0 <= k < texts.len() && 0 <= k < more.len() ==> (#[trigger] texts[k])@ == (
            #[trigger] more[k])@,
    ensures
        kept <= kept_more,
{
    if kept_more < kept {
        lemma_total_cost_agrees(texts, more, (kept_more + 1) as nat);
        lemma_total_cost_monotone(texts, (kept_more + 1) as nat, kept);
    }
}

proof fn lemma_total_cost_agrees(a: Seq<String>, b: Seq<String>, n: nat)
    requires
        n <= a.len(),
        n <= b.len(),
        forall|k: int|
            0 <= k < a.len() && 0 <= k < b.len() ==> (#[trigger] a[k])@ == (#[trigger] b[k])@,
    ensures
        total_cost(a, n) == total_cost(b, n),
    decreases n,
{
    if n > 0 {
        lemma_total_cost_agrees(a, b, (n - 1) as nat);
        assert(a[n - 1]@ == b[n - 1]@);
    }
}

proof fn lemma_total_cost_monotone(a: Seq<String>, m: nat, n: nat)
    requires
        m <= n,
    ensures
        total_cost(a, m) <= total_cost(a, n),
    decreases n,
{
    if m < n {
        lemma_total_cost_monotone(a, m, (n - 1) as nat);
    }
}

} // verus!
