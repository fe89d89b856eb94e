//! What is kept of files, and how their contents are told apart.

use crate::cache;
use crate::cache::{CachedFile, Lookup};
use crate::graph::CodeGraph;
use crate::index;
use crate::index::ParsedSource;
use crate::reuse;
use crate::text;
use crate::types::EdgeKind;
use vstd::prelude::*;

verus! {

/// The value of a hexadecimal digit.
pub open spec fn digit_value(c: char) -> int {
    if '0' <= c <= '9' {
        c as int - '0' as int
    } else {
        c as int - 'a' as int + 10
    }
}

/// The number that hexadecimal digits write.
pub open spec fn hex_value(s: Seq<char>) -> int
    decreases s.len(),
{
    if s.len() == 0 {
        0
    } else {
        hex_value(s.drop_last()) * 16 + digit_value(s.last())
    }
}

/// Two to the power of four times a number.
pub open spec fn sixteen_to(n: nat) -> int
    decreases n,
{
    if n == 0 {
        1
    } else {
        16 * sixteen_to((n - 1) as nat)
    }
}

proof fn lemma_hex(h: nat, n: nat)
    requires
        h < sixteen_to(n),
    ensures
        index::hex_digits(h, n).len() == n,
        hex_value(index::hex_digits(h, n)) == h,
        forall|k: int|
            0 <= k < n ==> {
                let c = #[trigger] index::hex_digits(h, n)[k];
                '0' <= c <= '9' || 'a' <= c <= 'f'
            },
    decreases n,
{
    if n > 0 {
        let m = (n - 1) as nat;
        lemma_hex(h / 16, m);
        let front = index::hex_digits(h / 16, m);
        let whole = index::hex_digits(h, n);
        assert(whole.drop_last() =~= front);
        let d = (h % 16) as int;
        assert(digit_value(index::hex_char(d)) == d);
        assert forall|k: int| 0 <= k < n implies {
            let c = #[trigger] whole[k];
            '0' <= c <= '9' || 'a' <= c <= 'f'
        } by {
            if k < m {
                assert(whole[k] == front[k]);
            }
        }
    }
}

/// The key of a text is the FNV-1a hash of its bytes in sixteen lower-case
/// hexadecimal digits, and its lines are counted.
pub proof fn law_contents_are_keyed_by_their_hash(source: &str, r: (String, u32))
    requires
        call_ensures(index::digest, (source,), r),
    ensures
        r.0@.len() == 16,
        hex_value(r.0@) == index::fnv1a(vstd::utf8::encode_utf8(source@)),
        forall|k: int|
            0 <= k < 16 ==> '0' <= #[trigger] r.0@[k] <= '9' || 'a' <= r.0@[k] <= 'f',
        text::lines_of(source@).len() <= u32::MAX ==> r.1 == text::lines_of(source@).len(),
{
    let h = index::fnv1a(vstd::utf8::encode_utf8(source@));
    reveal_with_fuel(sixteen_to, 17);
    lemma_hex(h as nat, 16);
}

/// A hash starts at the offset of FNV-1a and takes each byte in by an exclusive or
/// and a multiplication with its prime, modulo two to the power of sixty-four.
pub proof fn law_hashes_take_bytes_in_one_by_one(bytes: Seq<u8>, b: u8)
    ensures
        index::fnv1a(Seq::empty()) == 14695981039346656037,
        index::fnv1a(bytes.push(b)) as int == ((index::fnv1a(bytes) ^ (b as u64)) * 1099511628211)
            % 0x1_0000_0000_0000_0000,
{
    assert(bytes.push(b).drop_last() =~= bytes);
}

/// The edges of a graph come by their first end, then by the second, imports before
/// calls; no two join the same ends in the same way.
pub proof fn law_edges_come_by_their_ends(
    g: CodeGraph,
    ps: Seq<ParsedSource>,
    call_edges: bool,
    i: int,
    j: int,
)
    requires
        index::is_graph_of(g, ps, call_edges),
        0 <= i < j < g.edges@.len(),
    ensures
        g.edges@[i].from <= g.edges@[j].from,
        g.edges@[i].from == g.edges@[j].from ==> g.edges@[i].to <= g.edges@[j].to,
        g.edges@[i].from == g.edges@[j].from && g.edges@[i].to == g.edges@[j].to
            ==> g.edges@[i].kind == EdgeKind::Import && g.edges@[j].kind == EdgeKind::Call,
{
    assert(index::edge_le(g.edges@[i], g.edges@[j]) && !index::same_edge(
        g.edges@[i],
        g.edges@[j],
    ));
}

/// What is kept of a file is used as long as the file is as old as it was.
pub proof fn law_changed_files_are_stale(entry: Option<CachedFile>, mtime: u64, r: Lookup)
    requires
        call_ensures(cache::judge, (entry, mtime), r),
    ensures
        r is Missing <==> entry is None,
        r is Fresh <==> (entry matches Some(file) && file.1 == mtime),
        r matches Lookup::Fresh(lines) ==> lines == entry.unwrap().0,
{
}

/// A line more weighs as much as its text takes in bytes, and what it takes to hold
/// it.
pub proof fn law_lines_weigh_their_bytes(
    shorter: &Vec<String>,
    longer: &Vec<String>,
    a: u32,
    b: u32,
)
    requires
        call_ensures(cache::entry_weight, (shorter,), a),
        call_ensures(cache::entry_weight, (longer,), b),
        longer@.len() == shorter@.len() + 1,
        longer@.drop_last() == shorter@,
    ensures
        b < u32::MAX ==> b == a + text::utf8_len(longer@.last()@) + vstd::layout::size_of::<
            String,
        >(),
        a <= b,
{
    let s = text::texts(shorter@);
    let l = text::texts(longer@);
    assert(l.drop_last() =~= s);
    assert(l.last() == longer@.last()@);
}

/// What is kept is used where it can be read, and kept anew where there is a place
/// for it and it is not there, or cannot be read.
pub proof fn law_results_are_kept_where_they_are_missing(
    lookup: reuse::Lookup,
    same: &reuse::Lookup,
    wants: bool,
    r: Option<reuse::ParsedFile>,
)
    requires
        *same == lookup,
        call_ensures(reuse::Lookup::wants_result, (same,), wants),
        call_ensures(reuse::Lookup::reusable, (lookup,), r),
    ensures
        r matches Some(p) ==> lookup == reuse::Lookup::Kept(p),
        r is Some <==> lookup is Kept,
        wants ==> r is None,
        wants <==> !(lookup is Kept) && !(lookup is NoStore),
{
}

} // verus!
