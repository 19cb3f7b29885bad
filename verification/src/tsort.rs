//! Topological sorting of the graph given by whitespace-separated pairs of
//! tokens, with Kahn's algorithm; loops are broken and reported.

use vstd::prelude::*;
use crate::decimal::{all_digits, digits_value, is_digit, lemma_digits_value_monotone, lemma_digits_value_push};

verus! {

// ---------------------------------------------------------------------------
// Tokens
// ---------------------------------------------------------------------------

/// The bytes that separate tokens: space, newline, carriage return and tab.
pub open spec fn is_sep(b: u8) -> bool {
    b == 32 || b == 10 || b == 13 || b == 9
}

/// Every byte of `s[lo..hi]` is a separator.
pub open spec fn all_sep(s: Seq<u8>, lo: int, hi: int) -> bool {
    forall|i: int| lo <= i < hi ==> is_sep(#[trigger] s[i])
}

/// No byte of `s[lo..hi]` is a separator.
pub open spec fn no_sep(s: Seq<u8>, lo: int, hi: int) -> bool {
    forall|i: int| lo <= i < hi ==> !is_sep(#[trigger] s[i])
}

/// `spans` are exactly the maximal runs of non-separator bytes of `s[from..]`,
/// in order: every span is such a run, and everything between, before and
/// after them is separators.
pub open spec fn tokens_from(s: Seq<u8>, from: int, spans: Seq<(usize, usize)>) -> bool {
    &&& forall|k: int| 0 <= k < spans.len() ==> {
        &&& (#[trigger] spans[k]).0 < spans[k].1 <= s.len()
        &&& no_sep(s, spans[k].0 as int, spans[k].1 as int)
        &&& (spans[k].1 < s.len() ==> is_sep(s[spans[k].1 as int]))
    }
    &&& forall|k: int| 0 <= k < spans.len() - 1 ==> all_sep(s, (#[trigger] spans[k]).1 as int, spans[k + 1].0 as int)
    &&& spans.len() == 0 ==> all_sep(s, from, s.len() as int)
    &&& spans.len() > 0 ==> from <= spans[0].0 && all_sep(s, from, spans[0].0 as int)
    &&& spans.len() > 0 ==> all_sep(s, spans.last().1 as int, s.len() as int)
}

/// The token bytes of a span.
pub open spec fn span_bytes(s: Seq<u8>, sp: (usize, usize)) -> Seq<u8> {
    s.subrange(sp.0 as int, sp.1 as int)
}

fn is_sep_exec(b: u8) -> (r: bool)
    ensures
        r == is_sep(b),
{
    b == 32u8 || b == 10u8 || b == 13u8 || b == 9u8
}

/// Scans the next token of `input` at or after `pos`: skips separators, then
/// takes the run of non-separators. Returns the token and the position after it.
pub fn next_token(input: &[u8], pos: usize) -> (r: Option<(&[u8], usize)>)
    ensures
        r is None ==> all_sep(input@, pos as int, input@.len() as int),
        r matches Some((tok, end)) ==> {
            &&& pos < end <= input@.len()
            &&& tok@.len() > 0
            &&& pos <= end - tok@.len()
            &&& all_sep(input@, pos as int, end - tok@.len())
            &&& tok@ == input@.subrange(end - tok@.len(), end as int)
            &&& no_sep(input@, end - tok@.len(), end as int)
            &&& (end < input@.len() ==> is_sep(input@[end as int]))
        },
{
    let len = input.len();
    let mut p = pos;
    if p >= len {
        return None;
    }
    while p < len && is_sep_exec(input[p])
        invariant
            pos <= p <= len,
            len == input@.len(),
            all_sep(input@, pos as int, p as int),
        decreases len - p,
    {
        p = p + 1;
    }
    if p >= len {
        return None;
    }
    let start = p;
    while p < len && !is_sep_exec(input[p])
        invariant
            start <= p <= len,
            len == input@.len(),
            no_sep(input@, start as int, p as int),
        decreases len - p,
    {
        p = p + 1;
    }
    assert(input@.subrange(start as int, p as int).len() == p - start);
    Some((&input[start..p], p))
}


/// `spans` are the tokens of `s` that end at or before `pos`, with `pos` the
/// end of the last one (or only separators before `pos` when there is none).
pub open spec fn tokens_prefix(s: Seq<u8>, spans: Seq<(usize, usize)>, pos: int) -> bool {
    &&& forall|k: int| 0 <= k < spans.len() ==> {
        &&& (#[trigger] spans[k]).0 < spans[k].1 <= s.len()
        &&& no_sep(s, spans[k].0 as int, spans[k].1 as int)
        &&& (spans[k].1 < s.len() ==> is_sep(s[spans[k].1 as int]))
    }
    &&& forall|k: int| 0 <= k < spans.len() - 1 ==> all_sep(s, (#[trigger] spans[k]).1 as int, spans[k + 1].0 as int)
    &&& spans.len() == 0 ==> pos == 0
    &&& spans.len() > 0 ==> all_sep(s, 0, spans[0].0 as int) && spans.last().1 == pos
}

/// The spans of all tokens of `input`, in order.
pub fn token_spans(input: &[u8]) -> (r: Vec<(usize, usize)>)
    ensures
        tokens_from(input@, 0, r@),
{
    let mut spans: Vec<(usize, usize)> = Vec::new();
    let mut pos: usize = 0;
    loop
        invariant
            pos <= input@.len(),
            tokens_prefix(input@, spans@, pos as int),
        decreases input@.len() - pos,
    {
        match next_token(input, pos) {
            None => {
                proof {
                    if spans@.len() == 0 {
                        assert(all_sep(input@, 0, input@.len() as int));
                    }
                }
                return spans;
            },
            Some((tok, end)) => {
                let start = end - tok.len();
                let ghost old_spans = spans@;
                spans.push((start, end));
                proof {
                    assert forall|k: int| 0 <= k < spans@.len() - 1 implies all_sep(
                        input@,
                        (#[trigger] spans@[k]).1 as int,
                        spans@[k + 1].0 as int,
                    ) by {
                        if k < old_spans.len() - 1 {
                            assert(spans@[k] == old_spans[k]);
                            assert(spans@[k + 1] == old_spans[k + 1]);
                        }
                    }
                    if old_spans.len() == 0 {
                        assert(all_sep(input@, 0, spans@[0].0 as int));
                    } else {
                        assert(spans@[0] == old_spans[0]);
                    }
                }
                pos = end;
            },
        }
    }
}

/// A token read as a number: nonempty, decimal digits only, and at most
/// `u32::MAX`.
pub open spec fn spec_try_parse_u32(t: Seq<u8>) -> Option<u32> {
    if t.len() >= 1 && all_digits(t) && digits_value(t) <= u32::MAX {
        Some(digits_value(t) as u32)
    } else {
        None
    }
}



/// Reads a token of decimal digits as a number; `None` for anything else or
/// a value above `u32::MAX`.
pub fn try_parse_u32(token: &[u8]) -> (r: Option<u32>)
    ensures
        r == spec_try_parse_u32(token@),
        r matches Some(v) ==> v as nat == digits_value(token@),
{
    if token.len() == 0 {
        return None;
    }
    let mut n: u64 = 0;
    let mut i: usize = 0;
    while i < token.len()
        invariant
            i <= token@.len(),
            token@.len() >= 1,
            all_digits(token@.subrange(0, i as int)),
            n as nat == digits_value(token@.subrange(0, i as int)),
            n <= u32::MAX,
        decreases token@.len() - i,
    {
        let b = token[i];
        if b < 48u8 || b > 57u8 {
            assert(!is_digit(token@[i as int]));
            return None;
        }
        proof {
            assert(token@.subrange(0, i + 1) =~= token@.subrange(0, i as int).push(b));
            lemma_digits_value_push(token@.subrange(0, i as int), b);
        }
        n = n * 10 + (b - 48u8) as u64;
        if n > 0xFFFF_FFFFu64 {
            proof {
                lemma_digits_value_monotone(token@, i + 1);
            }
            return None;
        }
        i = i + 1;
    }
    assert(token@.subrange(0, i as int) =~= token@);
    Some(n as u32)
}



// ---------------------------------------------------------------------------
// Nodes
// ---------------------------------------------------------------------------

/// The name of the node that token `k` stands for: the token itself.
pub open spec fn token_key(s: Seq<u8>, spans: Seq<(usize, usize)>, k: int) -> Seq<u8> {
    span_bytes(s, spans[k])
}

/// The names of all tokens, in input order.
pub open spec fn token_keys(s: Seq<u8>, spans: Seq<(usize, usize)>) -> Seq<Seq<u8>> {
    Seq::new(spans.len(), |k: int| token_key(s, spans, k))
}

/// The byte strings held by a vector of vectors.
pub open spec fn views(v: Seq<Vec<u8>>) -> Seq<Seq<u8>> {
    Seq::new(v.len(), |i: int| v[i]@)
}

/// `names` are the distinct `keys` in order of first appearance, and `ids[k]`
/// is the index in `names` of `keys[k]`.
pub open spec fn interned(keys: Seq<Seq<u8>>, names: Seq<Seq<u8>>, ids: Seq<usize>) -> bool {
    &&& ids.len() == keys.len()
    &&& forall|k: int| 0 <= k < ids.len() ==> (#[trigger] ids[k]) < names.len() && names[ids[k] as int] == keys[k]
    &&& forall|i: int, j: int| 0 <= i < names.len() && 0 <= j < names.len() && i != j ==> #[trigger] names[i] != #[trigger] names[j]
    &&& forall|j: int| 0 <= j < names.len() ==> #[trigger] occurs(ids, j, ids.len() as int)
    &&& forall|k: int, j: int| 0 <= k < ids.len() && 0 <= j < ids[k] ==> #[trigger] occurs(ids, j, k)
}

/// Some entry of `ids` before position `upto` is `j`.
pub open spec fn occurs(ids: Seq<usize>, j: int, upto: int) -> bool {
    exists|k: int| 0 <= k < upto && #[trigger] ids[k] == j
}

fn bytes_eq(a: &[u8], b: &[u8]) -> (r: bool)
    ensures
        r == (a@ == b@),
{
    if a.len() != b.len() {
        return false;
    }
    let mut i: usize = 0;
    while i < a.len()
        invariant
            a@.len() == b@.len(),
            i <= a@.len(),
            forall|j: int| 0 <= j < i ==> a@[j] == b@[j],
        decreases a@.len() - i,
    {
        if a[i] != b[i] {
            return false;
        }
        i = i + 1;
    }
    assert(a@ =~= b@);
    true
}

fn find_name(names: &Vec<Vec<u8>>, tok: &[u8]) -> (r: Option<usize>)
    ensures
        r matches Some(j) ==> j < names@.len() && names@[j as int]@ == tok@,
        r is None ==> forall|j: int| 0 <= j < names@.len() ==> names@[j]@ != tok@,
{
    let mut j: usize = 0;
    while j < names.len()
        invariant
            j <= names@.len(),
            forall|i: int| 0 <= i < j ==> names@[i]@ != tok@,
        decreases names@.len() - j,
    {
        if bytes_eq(names[j].as_slice(), tok) {
            return Some(j);
        }
        j = j + 1;
    }
    None
}

proof fn lemma_interned_push(
    keys: Seq<Seq<u8>>,
    names: Seq<Seq<u8>>,
    ids: Seq<usize>,
    key: Seq<u8>,
    id: usize,
)
    requires
        interned(keys, names, ids),
        id < names.len(),
        names[id as int] == key,
    ensures
        interned(keys.push(key), names, ids.push(id)),
{
    let ids2 = ids.push(id);
    assert forall|j: int| 0 <= j < names.len() implies #[trigger] occurs(ids2, j, ids2.len() as int) by {
        assert(occurs(ids, j, ids.len() as int));
        let k = choose|k: int| 0 <= k < ids.len() && #[trigger] ids[k] == j;
        assert(ids2[k] == j);
    }
    assert forall|k: int, j: int| 0 <= k < ids2.len() && 0 <= j < ids2[k] implies #[trigger] occurs(ids2, j, k) by {
        if k < ids.len() {
            assert(ids2[k] == ids[k]);
            assert(occurs(ids, j, k));
            let k2 = choose|k2: int| 0 <= k2 < k && #[trigger] ids[k2] == j;
            assert(ids2[k2] == j);
        } else {
            assert(occurs(ids, j, ids.len() as int));
            let k2 = choose|k2: int| 0 <= k2 < ids.len() && #[trigger] ids[k2] == j;
            assert(ids2[k2] == j);
        }
    }
}

proof fn lemma_interned_push_new(
    keys: Seq<Seq<u8>>,
    names: Seq<Seq<u8>>,
    ids: Seq<usize>,
    key: Seq<u8>,
)
    requires
        interned(keys, names, ids),
        forall|j: int| 0 <= j < names.len() ==> names[j] != key,
        names.len() < usize::MAX,
    ensures
        interned(keys.push(key), names.push(key), ids.push(names.len() as usize)),
{
    let names2 = names.push(key);
    let ids2 = ids.push(names.len() as usize);
    assert forall|j: int| 0 <= j < names2.len() implies #[trigger] occurs(ids2, j, ids2.len() as int) by {
        if j < names.len() {
            assert(occurs(ids, j, ids.len() as int));
            let k = choose|k: int| 0 <= k < ids.len() && #[trigger] ids[k] == j;
            assert(ids2[k] == j);
        } else {
            assert(ids2[ids.len() as int] == j);
        }
    }
    assert forall|k: int, j: int| 0 <= k < ids2.len() && 0 <= j < ids2[k] implies #[trigger] occurs(ids2, j, k) by {
        if k < ids.len() {
            assert(ids2[k] == ids[k]);
            assert(occurs(ids, j, k));
            let k2 = choose|k2: int| 0 <= k2 < k && #[trigger] ids[k2] == j;
            assert(ids2[k2] == j);
        } else {
            assert(occurs(ids, j, ids.len() as int));
            let k2 = choose|k2: int| 0 <= k2 < ids.len() && #[trigger] ids[k2] == j;
            assert(ids2[k2] == j);
        }
    }
    assert forall|i: int, j: int| 0 <= i < names2.len() && 0 <= j < names2.len() && i != j implies #[trigger] names2[i] != #[trigger] names2[j] by {
        if i < names.len() && j < names.len() {
        } else if i < names.len() {
            assert(names2[j] == key);
        } else {
            assert(names2[i] == key);
        }
    }
    assert forall|k: int| 0 <= k < ids2.len() implies (#[trigger] ids2[k]) < names2.len() && names2[ids2[k] as int] == keys.push(key)[k] by {
        if k < ids.len() {
            assert(names2[ids[k] as int] == names[ids[k] as int]);
        }
    }
}

/// Gives every distinct token a node number, in order of first appearance,
/// and returns the node names and the node of each token.
#[verifier::spinoff_prover]
#[verifier::rlimit(50)]
pub fn intern_tokens(input: &[u8], spans: &Vec<(usize, usize)>) -> (r: (Vec<Vec<u8>>, Vec<usize>))
    requires
        tokens_from(input@, 0, spans@),
    ensures
        interned(token_keys(input@, spans@), views(r.0@), r.1@),
{
    let mut names: Vec<Vec<u8>> = Vec::new();
    let mut ids: Vec<usize> = Vec::new();
    let ghost keys = token_keys(input@, spans@);
    {
        {
            let mut k: usize = 0;
            while k < spans.len()
                invariant
                    tokens_from(input@, 0, spans@),
                    keys == token_keys(input@, spans@),
                    k <= spans@.len(),
                    names@.len() <= k,
                    interned(keys.subrange(0, k as int), views(names@), ids@),
                decreases spans@.len() - k,
            {
                let (a, b) = spans[k];
                assert(spans@[k as int].0 < spans@[k as int].1 <= input@.len());
                let tok = &input[a..b];
                let ghost key = keys[k as int];
                assert(key == tok@);
                match find_name(&names, tok) {
                    Some(j) => {
                        proof {
                            lemma_interned_push(keys.subrange(0, k as int), views(names@), ids@, key, j);
                        }
                        ids.push(j);
                    },
                    None => {
                        let id = names.len();
                        proof {
                            lemma_interned_push_new(keys.subrange(0, k as int), views(names@), ids@, key);
                        }
                        let ghost names_before = names@;
                        names.push(vstd::slice::slice_to_vec(tok));
                        ids.push(id);
                        proof {
                            assert(views(names@) =~= views(names_before).push(key));
                        }
                    },
                }
                proof {
                    assert(keys.subrange(0, k + 1) =~= keys.subrange(0, k as int).push(key));
                }
                k = k + 1;
            }
            proof {
                assert(keys.subrange(0, k as int) =~= keys);
            }
        }
    }
    (names, ids)
}


// ---------------------------------------------------------------------------
// Graph
// ---------------------------------------------------------------------------

/// The successor lists of an adjacency vector.
pub open spec fn rows(adj: Seq<Vec<usize>>) -> Seq<Seq<usize>> {
    Seq::new(adj.len(), |i: int| adj[i]@)
}

/// Every edge of `g` leads to a node of `g`.
pub open spec fn edges_in_range(g: Seq<Seq<usize>>) -> bool {
    forall|u: int, k: int| 0 <= u < g.len() && 0 <= k < g[u].len() ==> (#[trigger] g[u][k]) < g.len()
}

/// A well-formed graph on nodes `0..n`: successors are in range, no node is
/// its own successor, and no successor is listed twice.
pub open spec fn wf_graph(g: Seq<Seq<usize>>) -> bool {
    &&& forall|u: int, k: int| 0 <= u < g.len() && 0 <= k < g[u].len() ==> (#[trigger] g[u][k]) < g.len() && g[u][k] != u
    &&& forall|u: int, k1: int, k2: int| 0 <= u < g.len() && 0 <= k1 < k2 < g[u].len() ==> #[trigger] g[u][k1] != #[trigger] g[u][k2]
}

/// The number of nodes `u < k`, not yet removed, that have an edge to `v`.
pub open spec fn count_preds(g: Seq<Seq<usize>>, removed: Seq<bool>, v: usize, k: int) -> nat
    decreases k,
{
    if k <= 0 {
        0
    } else {
        count_preds(g, removed, v, k - 1) + if !removed[k - 1] && g[k - 1].contains(v) { 1nat } else { 0nat }
    }
}

/// No node of `0..n` is removed.
pub open spec fn none_removed(n: nat) -> Seq<bool> {
    Seq::new(n, |i: int| false)
}

/// Token pair `i` (tokens `2i` and `2i+1`) before pair `m` is an edge from `u` to `v`.
pub open spec fn edge_in_pairs(ids: Seq<usize>, u: usize, v: usize, m: int) -> bool {
    u != v && exists|i: int| 0 <= i < m && #[trigger] ids[2 * i] == u && ids[2 * i + 1] == v
}

proof fn lemma_count_bound(g: Seq<Seq<usize>>, removed: Seq<bool>, v: usize, k: int)
    ensures
        count_preds(g, removed, v, k) <= if k < 0 { 0 } else { k },
    decreases k,
{
    if k > 0 {
        lemma_count_bound(g, removed, v, k - 1);
    }
}

proof fn lemma_count_empty(g: Seq<Seq<usize>>, removed: Seq<bool>, v: usize, k: int)
    requires
        k <= g.len(),
        forall|u: int| 0 <= u < g.len() ==> (#[trigger] g[u]).len() == 0,
    ensures
        count_preds(g, removed, v, k) == 0,
    decreases k,
{
    if k > 0 {
        lemma_count_empty(g, removed, v, k - 1);
        assert(!g[k - 1].contains(v));
    }
}

proof fn lemma_count_add_edge(g: Seq<Seq<usize>>, removed: Seq<bool>, f: int, t: usize, v: usize, k: int)
    requires
        0 <= f < g.len(),
        k <= g.len(),
        !g[f].contains(t),
    ensures
        count_preds(g.update(f, g[f].push(t)), removed, v, k) == count_preds(g, removed, v, k) + if 0 <= f < k
            && !removed[f] && v == t { 1nat } else { 0nat },
    decreases k,
{
    let g2 = g.update(f, g[f].push(t));
    if k > 0 {
        lemma_count_add_edge(g, removed, f, t, v, k - 1);
        if k - 1 == f {
            assert(g2[f] == g[f].push(t));
            assert(g2[f].contains(v) == (g[f].contains(v) || v == t)) by {
                if g[f].contains(v) {
                    let i = choose|i: int| 0 <= i < g[f].len() && g[f][i] == v;
                    assert(g2[f][i] == v);
                }
                if v == t {
                    assert(g2[f][g[f].len() as int] == v);
                }
                if g2[f].contains(v) {
                    let i = choose|i: int| 0 <= i < g2[f].len() && g2[f][i] == v;
                    if i < g[f].len() {
                        assert(g[f][i] == v);
                    }
                }
            }
        } else {
            assert(g2[k - 1] == g[k - 1]);
        }
    }
}

proof fn lemma_count_remove(g: Seq<Seq<usize>>, removed: Seq<bool>, x: int, v: usize, k: int)
    requires
        0 <= x < removed.len(),
        k <= removed.len(),
    ensures
        count_preds(g, removed.update(x, true), v, k) + if 0 <= x < k && !removed[x] && g[x].contains(v) {
            1nat
        } else {
            0nat
        } == count_preds(g, removed, v, k),
    decreases k,
{
    if k > 0 {
        lemma_count_remove(g, removed, x, v, k - 1);
    }
}

proof fn lemma_count_zero(g: Seq<Seq<usize>>, removed: Seq<bool>, v: usize, k: int)
    requires
        count_preds(g, removed, v, k) == 0,
    ensures
        forall|u: int| 0 <= u < k ==> removed[u] || !(#[trigger] g[u]).contains(v),
    decreases k,
{
    if k > 0 {
        lemma_count_zero(g, removed, v, k - 1);
    }
}

fn vec_contains(v: &Vec<usize>, x: usize) -> (r: bool)
    ensures
        r == v@.contains(x),
{
    let mut i: usize = 0;
    while i < v.len()
        invariant
            i <= v@.len(),
            forall|j: int| 0 <= j < i ==> v@[j] != x,
        decreases v@.len() - i,
    {
        if v[i] == x {
            return true;
        }
        i = i + 1;
    }
    false
}

/// The graph on nodes `0..n` made from the first `p` token pairs: each pair
/// (`ids[2i]`, `ids[2i+1]`) appends its second node to the successors of its
/// first, unless the two are the same node or the edge is already there.
pub open spec fn pair_graph(ids: Seq<usize>, n: nat, p: int) -> Seq<Seq<usize>>
    decreases p,
{
    if p <= 0 {
        Seq::new(n, |i: int| Seq::<usize>::empty())
    } else {
        let g = pair_graph(ids, n, p - 1);
        let from = ids[2 * (p - 1)];
        let to = ids[2 * (p - 1) + 1];
        if from != to && !g[from as int].contains(to) {
            g.update(from as int, g[from as int].push(to))
        } else {
            g
        }
    }
}

/// Builds the graph on nodes `0..n` whose edges are the token pairs
/// (`ids[2i]` to `ids[2i+1]`), dropping self-edges and repeated edges, and
/// counts each node's predecessors.
#[verifier::spinoff_prover]
#[verifier::rlimit(50)]
pub fn build_graph(ids: &Vec<usize>, n: usize) -> (r: (Vec<Vec<usize>>, Vec<usize>))
    requires
        ids@.len() % 2 == 0,
        forall|k: int| 0 <= k < ids@.len() ==> #[trigger] ids@[k] < n,
    ensures
        r.0@.len() == n,
        r.1@.len() == n,
        wf_graph(rows(r.0@)),
        rows(r.0@) == pair_graph(ids@, n as nat, (ids@.len() / 2) as int),
        forall|u: usize, v: usize| u < n && v < n ==> (rows(r.0@)[u as int].contains(v) <==> edge_in_pairs(
            ids@,
            u,
            v,
            (ids@.len() / 2) as int,
        )),
        forall|v: int| 0 <= v < n ==> #[trigger] r.1@[v] == count_preds(rows(r.0@), none_removed(n as nat), v as usize, n as int),
{
    let mut adj: Vec<Vec<usize>> = Vec::new();
    let mut in_deg: Vec<usize> = Vec::new();
    let mut i: usize = 0;
    while i < n
        invariant
            i <= n,
            adj@.len() == i,
            in_deg@.len() == i,
            forall|u: int| 0 <= u < i ==> (#[trigger] adj@[u])@.len() == 0,
            forall|u: int| 0 <= u < i ==> #[trigger] in_deg@[u] == 0,
        decreases n - i,
    {
        adj.push(Vec::new());
        in_deg.push(0);
        i = i + 1;
    }
    let ghost none = none_removed(n as nat);
    proof {
        assert forall|u: int| 0 <= u < n implies #[trigger] rows(adj@)[u] =~= Seq::<usize>::empty() by {
            assert(adj@[u]@.len() == 0);
        }
        assert(rows(adj@) =~= pair_graph(ids@, n as nat, 0));
        assert forall|v: int| 0 <= v < n implies #[trigger] in_deg@[v] == count_preds(rows(adj@), none, v as usize, n as int) by {
            lemma_count_empty(rows(adj@), none, v as usize, n as int);
        }
    }
    let pairs = ids.len() / 2;
    let mut p: usize = 0;
    while p < pairs
        invariant
            pairs == ids@.len() / 2,
            ids@.len() % 2 == 0,
            forall|k: int| 0 <= k < ids@.len() ==> #[trigger] ids@[k] < n,
            p <= pairs,
            adj@.len() == n,
            in_deg@.len() == n,
            none == none_removed(n as nat),
            wf_graph(rows(adj@)),
            rows(adj@) == pair_graph(ids@, n as nat, p as int),
            forall|u: usize, v: usize| u < n && v < n ==> (rows(adj@)[u as int].contains(v) <==> edge_in_pairs(ids@, u, v, p as int)),
            forall|v: int| 0 <= v < n ==> #[trigger] in_deg@[v] == count_preds(rows(adj@), none, v as usize, n as int),
        decreases pairs - p,
    {
        assert(ids@.len() == ids.len());
        assert(2 * p + 1 < ids@.len()) by {
            vstd::arithmetic::div_mod::lemma_fundamental_div_mod(ids@.len() as int, 2);
        }
        let from = ids[2 * p];
        let to = ids[2 * p + 1];
        let ghost g = rows(adj@);
        assert(2 * (p + 1 - 1) == 2 * p);
        if from != to && !vec_contains(&adj[from], to) {
            let ghost old_in = in_deg@;
            adj[from].push(to);
            proof {
                assert(rows(adj@) =~= g.update(from as int, g[from as int].push(to)));
                assert forall|v: int| 0 <= v < n implies #[trigger] count_preds(rows(adj@), none, v as usize, n as int)
                    == count_preds(g, none, v as usize, n as int) + if v == to { 1nat } else { 0nat } by {
                    lemma_count_add_edge(g, none, from as int, to, v as usize, n as int);
                }
                lemma_count_bound(rows(adj@), none, to, n as int);
            }
            let d = in_deg[to];
            in_deg.set(to, d + 1);
            proof {
                let g2 = rows(adj@);
                assert forall|u: int, k: int| 0 <= u < g2.len() && 0 <= k < g2[u].len() implies (#[trigger] g2[u][k]) < g2.len() && g2[u][k] != u by {
                    if u != from || k < g[u].len() {
                        assert(g2[u][k] == g[u][k]);
                    }
                }
                assert forall|u: int, k1: int, k2: int| 0 <= u < g2.len() && 0 <= k1 < k2 < g2[u].len() implies #[trigger] g2[u][k1] != #[trigger] g2[u][k2] by {
                    if u == from && k2 == g[u].len() {
                        assert(g2[u][k1] == g[u][k1]);
                        assert(g[u].contains(g2[u][k1]));
                    } else {
                        assert(g2[u][k1] == g[u][k1]);
                        assert(g2[u][k2] == g[u][k2]);
                    }
                }
                assert forall|u: usize, v: usize| u < n && v < n implies (g2[u as int].contains(v) <==> edge_in_pairs(ids@, u, v, p + 1)) by {
                    if edge_in_pairs(ids@, u, v, p + 1) && !edge_in_pairs(ids@, u, v, p as int) {
                        let i = choose|i: int| 0 <= i < p + 1 && #[trigger] ids@[2 * i] == u && ids@[2 * i + 1] == v;
                        assert(i == p);
                        assert(g2[u as int][g[u as int].len() as int] == v);
                    }
                    if edge_in_pairs(ids@, u, v, p as int) {
                        let i = choose|i: int| 0 <= i < p && #[trigger] ids@[2 * i] == u && ids@[2 * i + 1] == v;
                        assert(ids@[2 * i] == u);
                    }
                    if g2[u as int].contains(v) {
                        let k = choose|k: int| 0 <= k < g2[u as int].len() && g2[u as int][k] == v;
                        if u == from && k == g[u as int].len() {
                            assert(ids@[2 * p as int] == u && ids@[2 * p + 1] == v);
                        } else {
                            assert(g[u as int][k] == v);
                        }
                    }
                    if g[u as int].contains(v) {
                        let k = choose|k: int| 0 <= k < g[u as int].len() && g[u as int][k] == v;
                        assert(g2[u as int][k] == v);
                    }
                }
            }
        } else {
            proof {
                assert forall|u: usize, v: usize| u < n && v < n implies (g[u as int].contains(v) <==> edge_in_pairs(ids@, u, v, p + 1)) by {
                    if edge_in_pairs(ids@, u, v, p + 1) && !edge_in_pairs(ids@, u, v, p as int) {
                        let i = choose|i: int| 0 <= i < p + 1 && #[trigger] ids@[2 * i] == u && ids@[2 * i + 1] == v;
                        assert(i == p);
                    }
                    if edge_in_pairs(ids@, u, v, p as int) {
                        let i = choose|i: int| 0 <= i < p && #[trigger] ids@[2 * i] == u && ids@[2 * i + 1] == v;
                        assert(ids@[2 * i] == u);
                    }
                }
            }
        }
        p = p + 1;
    }
    (adj, in_deg)
}


// ---------------------------------------------------------------------------
// Sorting
// ---------------------------------------------------------------------------

/// The number of `true` entries among the first `k` of `r`.
pub open spec fn count_true(r: Seq<bool>, k: int) -> nat
    decreases k,
{
    if k <= 0 { 0 } else { count_true(r, k - 1) + if r[k - 1] { 1nat } else { 0nat } }
}

/// The number of entries equal to `usize::MAX` among the first `k` of `s`.
pub open spec fn count_unmarked(s: Seq<usize>, k: int) -> nat
    decreases k,
{
    if k <= 0 { 0 } else { count_unmarked(s, k - 1) + if s[k - 1] == usize::MAX { 1nat } else { 0nat } }
}

/// No value occurs twice in `s`.
pub open spec fn distinct(s: Seq<usize>) -> bool {
    forall|i: int, j: int| 0 <= i < s.len() && 0 <= j < s.len() && i != j ==> #[trigger] s[i] != #[trigger] s[j]
}

/// `members` is a cycle of the graph: each has an edge to the next, and the
/// last to the first.
pub open spec fn is_cycle(g: Seq<Seq<usize>>, members: Seq<usize>) -> bool {
    &&& members.len() >= 1
    &&& forall|i: int| 0 <= i < members.len() - 1 ==> g[#[trigger] members[i] as int].contains(members[i + 1])
    &&& g[members.last() as int].contains(members[0])
}

/// Every node placed in `order` comes after all of its predecessors.
pub open spec fn respects_edges(g: Seq<Seq<usize>>, order: Seq<usize>) -> bool {
    forall|i: int, u: int| 0 <= i < order.len() && 0 <= u < g.len() && (#[trigger] g[u]).contains(
        #[trigger] order[i],
    ) ==> occurs(order, u, i)
}

proof fn lemma_count_true_bound(r: Seq<bool>, k: int)
    ensures
        count_true(r, k) <= if k < 0 { 0 } else { k },
    decreases k,
{
    if k > 0 {
        lemma_count_true_bound(r, k - 1);
    }
}

proof fn lemma_count_true_set(r: Seq<bool>, x: int, k: int)
    requires
        0 <= x < r.len(),
        k <= r.len(),
    ensures
        count_true(r.update(x, true), k) == count_true(r, k) + if 0 <= x < k && !r[x] { 1nat } else { 0nat },
    decreases k,
{
    if k > 0 {
        lemma_count_true_set(r, x, k - 1);
    }
}

proof fn lemma_count_true_full(r: Seq<bool>, k: int)
    requires
        0 <= k <= r.len(),
        count_true(r, k) >= k,
    ensures
        forall|i: int| 0 <= i < k ==> #[trigger] r[i],
    decreases k,
{
    if k > 0 {
        lemma_count_true_bound(r, k - 1);
        lemma_count_true_full(r, k - 1);
    }
}

proof fn lemma_count_unmarked_set(s: Seq<usize>, x: int, val: usize, k: int)
    requires
        0 <= x < s.len(),
        k <= s.len(),
        val != usize::MAX,
    ensures
        count_unmarked(s.update(x, val), k) + if 0 <= x < k && s[x] == usize::MAX { 1nat } else { 0nat }
            == count_unmarked(s, k),
    decreases k,
{
    if k > 0 {
        lemma_count_unmarked_set(s, x, val, k - 1);
    }
}

/// A loop found while sorting: how many nodes had been output when it was
/// found, and its members, the first of which is output next.
pub struct LoopReport {
    pub emitted: usize,
    pub members: Vec<usize>,
}

/// The outcome of sorting: every node once, in output order, and the loops
/// that had to be broken on the way.
pub struct SortResult {
    pub order: Vec<usize>,
    pub loops: Vec<LoopReport>,
}

/// `w` is a walk through nodes not yet removed: each node has an edge to the next.
pub open spec fn live_walk(g: Seq<Seq<usize>>, removed: Seq<bool>, w: Seq<usize>) -> bool {
    &&& w.len() >= 1
    &&& forall|i: int| 0 <= i < w.len() ==> (#[trigger] w[i]) < g.len() && !removed[w[i] as int]
    &&& forall|i: int| 0 <= i < w.len() - 1 ==> g[#[trigger] w[i] as int].contains(w[i + 1])
}

/// A cycle of nodes not yet removed can be reached from `start` along edges
/// between nodes not yet removed.
pub open spec fn loop_reachable(g: Seq<Seq<usize>>, removed: Seq<bool>, start: usize) -> bool {
    exists|w: Seq<usize>, c: Seq<usize>|
        #![trigger live_walk(g, removed, w), live_walk(g, removed, c)]
        live_walk(g, removed, w) && w[0] == start && live_walk(g, removed, c) && is_cycle(g, c) && w.last() == c[0]
}

/// Every node given up by the search has all its successors not yet removed
/// given up before it.
pub open spec fn dead_closed(g: Seq<Seq<usize>>, removed: Seq<bool>, dead: Seq<bool>, dtime: Seq<int>) -> bool {
    forall|d: int, e: usize|
        #![trigger dead[d], g[d].contains(e)]
        0 <= d < dead.len() && dead[d] && g[d].contains(e) && !removed[e as int] ==> dead[e as int] && dtime[e as int]
            < dtime[d]
}

proof fn lemma_dead_walk(g: Seq<Seq<usize>>, removed: Seq<bool>, dead: Seq<bool>, dtime: Seq<int>, w: Seq<usize>, k: int)
    requires
        dead.len() == g.len(),
        edges_in_range(g),
        dead_closed(g, removed, dead, dtime),
        live_walk(g, removed, w),
        dead[w[0] as int],
        0 <= k < w.len(),
    ensures
        dead[w[k] as int],
        dtime[w[k] as int] <= dtime[w[0] as int] - k,
    decreases k,
{
    if k > 0 {
        lemma_dead_walk(g, removed, dead, dtime, w, k - 1);
        assert(g[w[k - 1] as int].contains(w[k]));
        assert(!removed[w[k] as int]);
    }
}

/// A search that has given up on `start` shows that no loop can be reached from it.
proof fn lemma_dead_start_no_loop(g: Seq<Seq<usize>>, removed: Seq<bool>, dead: Seq<bool>, dtime: Seq<int>, start: usize)
    requires
        dead.len() == g.len(),
        edges_in_range(g),
        dead_closed(g, removed, dead, dtime),
        start < g.len(),
        dead[start as int],
    ensures
        !loop_reachable(g, removed, start),
{
    if loop_reachable(g, removed, start) {
        let (w, c) = choose|w: Seq<usize>, c: Seq<usize>|
            #![trigger live_walk(g, removed, w), live_walk(g, removed, c)]
            live_walk(g, removed, w) && w[0] == start && live_walk(g, removed, c) && is_cycle(g, c) && w.last()
                == c[0];
        lemma_dead_walk(g, removed, dead, dtime, w, w.len() - 1);
        let last = (c.len() - 1) as int;
        lemma_dead_walk(g, removed, dead, dtime, c, last);
        assert(g[c[last] as int].contains(c[0]));
        assert(dead[c[last] as int]);
        assert(!removed[c[0] as int]);
        assert(dtime[c[0] as int] < dtime[c[last] as int]);
    }
}

/// Searches depth first from `start`, through nodes not yet removed, for a
/// cycle; at each node it takes the successors in order. It returns the
/// cycle found (the part of the search path from the repeated node on), or
/// just `start` when no cycle can be reached from it.
#[verifier::spinoff_prover]
#[verifier::rlimit(80)]
pub fn find_cycle(start: usize, adj: &Vec<Vec<usize>>, removed: &Vec<bool>) -> (r: Vec<usize>)
    requires
        adj@.len() == removed@.len(),
        start < removed@.len(),
        !removed@[start as int],
        edges_in_range(rows(adj@)),
    ensures
        r@.len() >= 1,
        forall|i: int| 0 <= i < r@.len() ==> (#[trigger] r@[i]) < removed@.len() && !removed@[r@[i] as int],
        distinct(r@),
        is_cycle(rows(adj@), r@) || (r@ == seq![start] && !loop_reachable(rows(adj@), removed@, start)),
        loop_reachable(rows(adj@), removed@, start) ==> is_cycle(rows(adj@), r@),
{
    let n = removed.len();
    let ghost g = rows(adj@);
    let mut visited: Vec<usize> = vec![usize::MAX; n];
    let mut dead: Vec<bool> = vec![false; n];
    let mut path: Vec<usize> = Vec::new();
    let ghost mut dtime: Seq<int> = Seq::new(n as nat, |i: int| 0int);
    let ghost mut clock: int = 0;
    proof {
        lemma_count_unmarked_all(visited@, n as int);
        lemma_count_none(dead@, n as int);
        lemma_count_unmarked_set(visited@, start as int, 0, n as int);
    }
    visited.set(start, 0);
    path.push(start);
    loop
        invariant
            n == removed@.len() == adj@.len() == visited@.len() == dead@.len() == dtime.len(),
            g == rows(adj@),
            edges_in_range(g),
            path@.len() >= 1,
            path@[0] == start,
            forall|i: int| 0 <= i < path@.len() ==> (#[trigger] path@[i]) < n && !removed@[path@[i] as int]
                && !dead@[path@[i] as int],
            forall|i: int| 0 <= i < path@.len() ==> visited@[#[trigger] path@[i] as int] == i,
            forall|v: int| 0 <= v < n && #[trigger] visited@[v] != usize::MAX ==> dead@[v] || (visited@[v] < path@.len()
                && path@[visited@[v] as int] == v),
            forall|v: int| 0 <= v < n && #[trigger] dead@[v] ==> visited@[v] != usize::MAX && dtime[v] < clock,
            forall|i: int| 0 <= i < path@.len() - 1 ==> g[#[trigger] path@[i] as int].contains(path@[i + 1]),
            dead_closed(g, removed@, dead@, dtime),
            path@.len() + count_unmarked(visited@, n as int) + count_true(dead@, n as int) == n,
        decreases count_unmarked(visited@, n as int) + (n - count_true(dead@, n as int)),
    {
        let top = path[path.len() - 1];
        let ghost t = path@.len() - 1;
        assert(path@[t] == top);
        let row = &adj[top];
        let mut k: usize = 0;
        let mut next: Option<usize> = None;
        while k < row.len() && next.is_none()
            invariant
                k <= row@.len(),
                row@ == g[top as int],
                n == removed@.len() == dead@.len(),
                edges_in_range(g),
                g.len() == n,
                top < n,
                next matches Some(x) ==> x < n && !removed@[x as int] && !dead@[x as int] && g[top as int].contains(x),
                next is None ==> forall|j: int| 0 <= j < k ==> removed@[(#[trigger] row@[j]) as int] || dead@[row@[j] as int],
            decreases row@.len() - k + if next is None { 1int } else { 0int },
        {
            let nb = row[k];
            assert(g[top as int][k as int] < g.len());
            if !removed[nb] && !dead[nb] {
                next = Some(nb);
            }
            k = k + 1;
        }
        match next {
            Some(x) => {
                let seen = visited[x];
                if seen != usize::MAX {
                    assert(seen < path@.len() && path@[seen as int] == x);
                    let cyc = vstd::slice::slice_to_vec(&path.as_slice()[seen..path.len()]);
                    proof {
                        let c = cyc@;
                        assert(c =~= path@.subrange(seen as int, path@.len() as int));
                        assert forall|i: int, j: int| 0 <= i < c.len() && 0 <= j < c.len() && i != j implies #[trigger] c[i]
                            != #[trigger] c[j] by {
                            assert(visited@[path@[seen + i] as int] == seen + i);
                            assert(visited@[path@[seen + j] as int] == seen + j);
                        }
                        assert forall|i: int| 0 <= i < c.len() - 1 implies g[#[trigger] c[i] as int].contains(c[i + 1]) by {
                            assert(c[i] == path@[seen + i]);
                            assert(c[i + 1] == path@[seen + i + 1]);
                        }
                        assert(c[0] == x);
                        assert(c.last() == top);
                        assert forall|i: int| 0 <= i < c.len() implies (#[trigger] c[i]) < n && !removed@[c[i] as int] by {
                            assert(c[i] == path@[seen + i]);
                        }
                    }
                    return cyc;
                }
                proof {
                    assert(!dead@[x as int]);
                    lemma_count_unmarked_set(visited@, x as int, 0, n as int);
                    lemma_count_true_bound(dead@, n as int);
                    assert(path@.len() < n);
                    lemma_count_unmarked_set(visited@, x as int, path@.len() as usize, n as int);
                    assert forall|i: int| 0 <= i < path@.len() implies #[trigger] path@[i] != x by {
                        assert(visited@[path@[i] as int] == i);
                    }
                }
                let ghost old_path = path@;
                let ghost old_visited = visited@;
                visited.set(x, path.len());
                path.push(x);
                proof {
                    assert forall|i: int| 0 <= i < path@.len() implies visited@[#[trigger] path@[i] as int] == i by {
                        if i < old_path.len() {
                            assert(path@[i] == old_path[i]);
                        }
                    }
                    assert forall|v: int| 0 <= v < n && #[trigger] visited@[v] != usize::MAX implies dead@[v] || (
                    visited@[v] < path@.len() && path@[visited@[v] as int] == v) by {
                        if v != x {
                            assert(old_visited[v] == visited@[v]);
                            if !dead@[v] {
                                assert(path@[visited@[v] as int] == old_path[visited@[v] as int]);
                            }
                        }
                    }
                    assert forall|v: int| 0 <= v < n && #[trigger] dead@[v] implies visited@[v] != usize::MAX && dtime[v] < clock by {
                        assert(old_visited[v] != usize::MAX);
                    }
                    assert forall|i: int| 0 <= i < path@.len() - 1 implies g[#[trigger] path@[i] as int].contains(path@[i + 1]) by {
                        if i < old_path.len() - 1 {
                            assert(path@[i] == old_path[i]);
                            assert(path@[i + 1] == old_path[i + 1]);
                        }
                    }
                }
            },
            None => {
                let ghost old_dead = dead@;
                let ghost old_dtime = dtime;
                proof {
                    lemma_count_true_set(dead@, top as int, n as int);
                    assert forall|e: usize| g[top as int].contains(e) && !removed@[e as int] implies old_dead[e as int]
                        && old_dtime[e as int] < clock by {
                        let j = choose|j: int| 0 <= j < g[top as int].len() && g[top as int][j] == e;
                        assert(removed@[row@[j] as int] || dead@[row@[j] as int]);
                    }
                }
                dead.set(top, true);
                proof {
                    dtime = dtime.update(top as int, clock);
                    clock = clock + 1;
                    assert forall|d: int, e: usize|
                        #![trigger dead@[d], g[d].contains(e)]
                        0 <= d < dead@.len() && dead@[d] && g[d].contains(e) && !removed@[e as int] implies dead@[e as int]
                            && dtime[e as int] < dtime[d] by {
                        if d == top as int {
                            assert(old_dead[e as int]);
                            assert(e != top) by {
                                let j = choose|j: int| 0 <= j < g[d].len() && g[d][j] == e;
                                assert(removed@[row@[j] as int] || old_dead[row@[j] as int]);
                            }
                        } else {
                            assert(old_dead[d]);
                            assert(old_dead[e as int] && old_dtime[e as int] < old_dtime[d]);
                        }
                    }
                }
                let ghost old_path = path@;
                path.pop();
                proof {
                    assert(path@ =~= old_path.drop_last());
                    assert forall|v: int| 0 <= v < n && #[trigger] visited@[v] != usize::MAX implies dead@[v] || (
                    visited@[v] < path@.len() && path@[visited@[v] as int] == v) by {
                        if v != top as int && !old_dead[v] {
                            if visited@[v] == t {
                                assert(old_path[t] == top);
                            }
                        }
                    }
                    assert forall|v: int| 0 <= v < n && #[trigger] dead@[v] implies visited@[v] != usize::MAX && dtime[v] < clock by {
                        if v == top as int {
                            assert(visited@[old_path[t] as int] == t);
                        } else {
                            assert(old_dead[v]);
                        }
                    }
                    assert forall|i: int| 0 <= i < path@.len() implies (#[trigger] path@[i]) < n && !removed@[path@[i] as int]
                        && !dead@[path@[i] as int] by {
                        assert(path@[i] == old_path[i]);
                        assert(visited@[old_path[i] as int] == i);
                        assert(old_path[i] != top);
                    }
                    assert forall|i: int| 0 <= i < path@.len() implies visited@[#[trigger] path@[i] as int] == i by {
                        assert(path@[i] == old_path[i]);
                    }
                    assert forall|i: int| 0 <= i < path@.len() - 1 implies g[#[trigger] path@[i] as int].contains(path@[i + 1]) by {
                        assert(path@[i] == old_path[i]);
                        assert(path@[i + 1] == old_path[i + 1]);
                    }
                }
                if path.len() == 0 {
                    proof {
                        assert(top == start);
                        lemma_dead_start_no_loop(g, removed@, dead@, dtime, start);
                    }
                    let mut only: Vec<usize> = Vec::new();
                    only.push(start);
                    assert(only@ =~= seq![start]);
                    return only;
                }
            },
        }
    }
}

/// A node that is not removed and has an edge to `v`.
fn live_pred_of(v: usize, adj: &Vec<Vec<usize>>, removed: &Vec<bool>) -> (u: usize)
    requires
        adj@.len() == removed@.len(),
        has_live_pred(rows(adj@), removed@, v),
    ensures
        u < removed@.len(),
        !removed@[u as int],
        rows(adj@)[u as int].contains(v),
{
    let n = adj.len();
    let ghost g = rows(adj@);
    let mut u: usize = 0;
    while u < n
        invariant
            n == adj@.len() == removed@.len(),
            g == rows(adj@),
            u <= n,
            forall|x: int| 0 <= x < u ==> removed@[x] || !(#[trigger] g[x]).contains(v),
        decreases n - u,
    {
        if !removed[u] && vec_contains(&adj[u], v) {
            return u;
        }
        u = u + 1;
    }
    proof {
        let w = choose|w: usize| (w as int) < g.len() && !removed@[w as int] && #[trigger] g[w as int].contains(v);
        assert(removed@[w as int] || !g[w as int].contains(v));
    }
    0
}

/// Walks back from `start` along predecessors that are not removed until a
/// node repeats, and returns the loop so found, in the direction of its
/// edges, starting at the repeated node. Every node not removed must have
/// such a predecessor, as when no node is left to output.
pub fn find_loop_back(start: usize, adj: &Vec<Vec<usize>>, removed: &Vec<bool>) -> (r: Vec<usize>)
    requires
        adj@.len() == removed@.len(),
        start < removed@.len(),
        !removed@[start as int],
        forall|v: usize| (v as int) < removed@.len() && !removed@[v as int] ==> #[trigger] has_live_pred(rows(adj@), removed@, v),
    ensures
        is_cycle(rows(adj@), r@),
        distinct(r@),
        forall|i: int| 0 <= i < r@.len() ==> (#[trigger] r@[i]) < removed@.len() && !removed@[r@[i] as int],
{
    let n = removed.len();
    let ghost g = rows(adj@);
    let mut visited: Vec<usize> = vec![usize::MAX; n];
    let mut path: Vec<usize> = Vec::new();
    let mut current = start;
    proof {
        lemma_count_unmarked_all(visited@, n as int);
    }
    loop
        invariant
            n == removed@.len() == adj@.len() == visited@.len(),
            g == rows(adj@),
            forall|v: usize| (v as int) < n && !removed@[v as int] ==> #[trigger] has_live_pred(g, removed@, v),
            current < n,
            !removed@[current as int],
            forall|i: int| 0 <= i < path@.len() ==> (#[trigger] path@[i]) < n && !removed@[path@[i] as int],
            forall|v: int| 0 <= v < n ==> (#[trigger] visited@[v] == usize::MAX <==> !path@.contains(v as usize)),
            forall|v: int| 0 <= v < n && visited@[v] != usize::MAX ==> #[trigger] visited@[v] < path@.len() && path@[visited@[v] as int] == v,
            forall|i: int| 0 <= i < path@.len() ==> visited@[#[trigger] path@[i] as int] == i,
            forall|i: int| 0 <= i < path@.len() - 1 ==> g[#[trigger] path@[i + 1] as int].contains(path@[i]),
            path@.len() > 0 ==> g[current as int].contains(path@.last()),
            path@.len() + count_unmarked(visited@, n as int) == n,
        decreases count_unmarked(visited@, n as int),
    {
        let seen = visited[current];
        if seen != usize::MAX {
            let m = path.len();
            assert(seen < m && path@[seen as int] == current);
            let mut c: Vec<usize> = Vec::new();
            c.push(path[seen]);
            let mut k = m;
            while k > seen + 1
                invariant
                    seen + 1 <= k <= m,
                    m == path@.len(),
                    c@.len() == 1 + m - k,
                    c@[0] == path@[seen as int],
                    forall|t: int| 1 <= t < c@.len() ==> #[trigger] c@[t] == path@[m - t],
                decreases k,
            {
                k = k - 1;
                c.push(path[k]);
            }
            proof {
                let cs = c@;
                assert(cs.len() == m - seen);
                assert forall|t: int| 0 <= t < cs.len() - 1 implies g[#[trigger] cs[t] as int].contains(cs[t + 1]) by {
                    if t == 0 {
                        assert(cs[1] == path@[m - 1]);
                        assert(path@.last() == path@[m - 1]);
                    } else {
                        assert(cs[t] == path@[(m - t - 1) + 1]);
                        assert(cs[t + 1] == path@[m - t - 1]);
                    }
                }
                if cs.len() > 1 {
                    assert(cs.last() == path@[seen + 1]);
                    assert(g[path@[seen + 1] as int].contains(path@[seen as int]));
                } else {
                    assert(path@.last() == path@[seen as int]);
                }
                assert forall|i: int| 0 <= i < cs.len() implies (#[trigger] cs[i]) < n && !removed@[cs[i] as int] by {
                    if i > 0 {
                        assert(cs[i] == path@[m - i]);
                    }
                }
                assert forall|i: int, j: int| 0 <= i < cs.len() && 0 <= j < cs.len() && i != j implies #[trigger] cs[i] != #[trigger] cs[j] by {
                    let pi = if i == 0 { seen as int } else { m - i };
                    let pj = if j == 0 { seen as int } else { m - j };
                    assert(cs[i] == path@[pi]);
                    assert(cs[j] == path@[pj]);
                    assert(visited@[path@[pi] as int] == pi);
                    assert(visited@[path@[pj] as int] == pj);
                }
            }
            return c;
        }
        proof {
            assert(!path@.contains(current));
            lemma_count_unmarked_set(visited@, current as int, 0, n as int);
            assert(path@.len() < n);
            lemma_count_unmarked_set(visited@, current as int, path@.len() as usize, n as int);
            lemma_count_unmarked_bound(visited@, n as int);
        }
        let ghost old_path = path@;
        let ghost old_visited = visited@;
        visited.set(current, path.len());
        path.push(current);
        proof {
            assert forall|v: int| 0 <= v < n implies (#[trigger] visited@[v] == usize::MAX <==> !path@.contains(v as usize)) by {
                if v == current {
                    assert(path@[path@.len() - 1] == current);
                } else {
                    assert(old_visited[v] == visited@[v]);
                    if old_path.contains(v as usize) {
                        let i = choose|i: int| 0 <= i < old_path.len() && old_path[i] == v;
                        assert(path@[i] == v);
                    }
                    if path@.contains(v as usize) {
                        let i = choose|i: int| 0 <= i < path@.len() && path@[i] == v;
                        assert(old_path[i] == v);
                    }
                }
            }
            assert forall|i: int| 0 <= i < path@.len() implies visited@[#[trigger] path@[i] as int] == i by {
                if i < old_path.len() {
                    assert(path@[i] == old_path[i]);
                    assert(old_path[i] != current) by {
                        assert(old_path.contains(old_path[i]));
                    }
                }
            }
            assert forall|i: int| 0 <= i < path@.len() - 1 implies g[#[trigger] path@[i + 1] as int].contains(path@[i]) by {
                if i < old_path.len() - 1 {
                    assert(path@[i] == old_path[i]);
                    assert(path@[i + 1] == old_path[i + 1]);
                } else {
                    assert(path@[i] == old_path.last());
                    assert(path@[i + 1] == current);
                }
            }
            assert(has_live_pred(g, removed@, current));
        }
        current = live_pred_of(current, adj, removed);
    }
}

proof fn lemma_count_unmarked_all(s: Seq<usize>, k: int)
    requires
        0 <= k <= s.len(),
        forall|i: int| 0 <= i < s.len() ==> s[i] == usize::MAX,
    ensures
        count_unmarked(s, k) == k,
    decreases k,
{
    if k > 0 {
        lemma_count_unmarked_all(s, k - 1);
    }
}

proof fn lemma_count_unmarked_bound(s: Seq<usize>, k: int)
    ensures
        count_unmarked(s, k) <= if k < 0 { 0 } else { k },
    decreases k,
{
    if k > 0 {
        lemma_count_unmarked_bound(s, k - 1);
    }
}


/// The graph has no cycle through its nodes.
pub open spec fn acyclic(g: Seq<Seq<usize>>) -> bool {
    forall|m: Seq<usize>| (forall|i: int| 0 <= i < m.len() ==> (m[i] as int) < g.len()) ==> !#[trigger] is_cycle(g, m)
}

/// `v` has a predecessor that is not removed.
pub open spec fn has_live_pred(g: Seq<Seq<usize>>, removed: Seq<bool>, v: usize) -> bool {
    exists|u: usize| (u as int) < g.len() && !removed[u as int] && #[trigger] g[u as int].contains(v)
}

/// A predecessor of `v` that is not removed, when there is one.
pub open spec fn live_pred(g: Seq<Seq<usize>>, removed: Seq<bool>, v: usize) -> usize {
    choose|u: usize| (u as int) < g.len() && !removed[u as int] && #[trigger] g[u as int].contains(v)
}

/// A walk backwards from `start` along live predecessors, `k` steps long.
pub open spec fn back_walk(g: Seq<Seq<usize>>, removed: Seq<bool>, start: usize, k: nat) -> Seq<usize>
    decreases k,
{
    if k == 0 {
        seq![start]
    } else {
        let w = back_walk(g, removed, start, (k - 1) as nat);
        w.push(live_pred(g, removed, w.last()))
    }
}

proof fn lemma_count_pos(g: Seq<Seq<usize>>, removed: Seq<bool>, v: usize, k: int)
    requires
        count_preds(g, removed, v, k) > 0,
        k <= g.len(),
        g.len() <= usize::MAX,
    ensures
        has_live_pred(g, removed, v),
    decreases k,
{
    if k > 0 {
        if !removed[k - 1] && g[k - 1].contains(v) {
            let u = (k - 1) as usize;
            assert(g[u as int].contains(v));
        } else {
            lemma_count_pos(g, removed, v, k - 1);
        }
    }
}

proof fn lemma_back_walk(g: Seq<Seq<usize>>, removed: Seq<bool>, start: usize, k: nat)
    requires
        removed.len() == g.len(),
        (start as int) < g.len(),
        !removed[start as int],
        forall|v: usize| (v as int) < g.len() && !removed[v as int] ==> #[trigger] has_live_pred(g, removed, v),
    ensures
        back_walk(g, removed, start, k).len() == k + 1,
        back_walk(g, removed, start, k)[0] == start,
        forall|i: int| 0 <= i < k + 1 ==> (#[trigger] back_walk(g, removed, start, k)[i] as int) < g.len()
            && !removed[back_walk(g, removed, start, k)[i] as int],
        forall|i: int| 0 <= i < k ==> g[#[trigger] back_walk(g, removed, start, k)[i + 1] as int].contains(
            back_walk(g, removed, start, k)[i],
        ),
    decreases k,
{
    if k > 0 {
        lemma_back_walk(g, removed, start, (k - 1) as nat);
        let w = back_walk(g, removed, start, (k - 1) as nat);
        let last = w.last();
        assert(w[k - 1] == last);
        assert(has_live_pred(g, removed, last));
        let u = live_pred(g, removed, last);
        let w2 = back_walk(g, removed, start, k);
        assert(w2 == w.push(u));
        assert forall|i: int| 0 <= i < k + 1 implies (#[trigger] w2[i] as int) < g.len() && !removed[w2[i] as int] by {
            if i < k {
                assert(w2[i] == w[i]);
            }
        }
        assert forall|i: int| 0 <= i < k implies g[#[trigger] w2[i + 1] as int].contains(w2[i]) by {
            if i < k - 1 {
                assert(w2[i + 1] == w[i + 1]);
                assert(w2[i] == w[i]);
            } else {
                assert(w2[i + 1] == u);
                assert(w2[i] == last);
            }
        }
    }
}

/// More than `n` values below `n` repeat one.
proof fn lemma_pigeonhole(w: Seq<usize>, n: int)
    requires
        w.len() > n,
        n >= 0,
        forall|i: int| 0 <= i < w.len() ==> (#[trigger] w[i] as int) < n,
    ensures
        exists|i: int, j: int| 0 <= i < j < w.len() && #[trigger] w[i] == #[trigger] w[j],
{
    let s = w.map_values(|x: usize| x as int);
    if !(exists|i: int, j: int| 0 <= i < j < w.len() && #[trigger] w[i] == #[trigger] w[j]) {
        assert(s.no_duplicates()) by {
            assert forall|i: int, j: int| 0 <= i < s.len() && 0 <= j < s.len() && i != j implies s[i] != s[j] by {
                if i < j {
                    assert(w[i] != w[j]);
                } else {
                    assert(w[j] != w[i]);
                }
            }
        }
        s.unique_seq_to_set();
        vstd::set_lib::lemma_int_range(0, n);
        assert(s.to_set().subset_of(vstd::set_lib::set_int_range(0, n))) by {
            assert forall|x: int| s.to_set().contains(x) implies vstd::set_lib::set_int_range(0, n).contains(x) by {
                let i = choose|i: int| 0 <= i < s.len() && s[i] == x;
                assert(s[i] == w[i] as int);
            }
        }
        vstd::set_lib::lemma_len_subset(s.to_set(), vstd::set_lib::set_int_range(0, n));
        assert(false);
    }
}

/// When some node is not removed and every such node has a predecessor that
/// is not removed, the graph has a cycle.
proof fn lemma_stuck_has_cycle(g: Seq<Seq<usize>>, removed: Seq<bool>, start: usize)
    requires
        removed.len() == g.len(),
        (start as int) < g.len(),
        !removed[start as int],
        forall|v: usize| (v as int) < g.len() && !removed[v as int] ==> #[trigger] has_live_pred(g, removed, v),
    ensures
        !acyclic(g),
{
    let n = g.len();
    let w = back_walk(g, removed, start, n);
    lemma_back_walk(g, removed, start, n);
    lemma_pigeonhole(w, n as int);
    let (i, j) = choose|i: int, j: int| 0 <= i < j < w.len() && #[trigger] w[i] == #[trigger] w[j];
    let m = Seq::new((j - i) as nat, |k: int| w[j - k]);
    assert(m.len() >= 1);
    assert forall|k: int| 0 <= k < m.len() - 1 implies g[#[trigger] m[k] as int].contains(m[k + 1]) by {
        assert(m[k] == w[(j - k - 1) + 1]);
        assert(m[k + 1] == w[j - k - 1]);
    }
    assert(m.last() == w[i + 1]);
    assert(g[w[i + 1] as int].contains(w[i]));
    assert(is_cycle(g, m));
    assert forall|k: int| 0 <= k < m.len() implies (m[k] as int) < g.len() by {
        assert(m[k] == w[j - k]);
    }
}

/// `v` waits in the queue at or after `head`.
pub open spec fn in_queue(queue: Seq<usize>, head: int, v: usize) -> bool {
    exists|i: int| head <= i < queue.len() && #[trigger] queue[i] == v
}

/// If `v` is not removed and has no remaining predecessor, it waits in the
/// queue or among `extra`.
pub open spec fn zero_waits(removed: Seq<bool>, in_deg: Seq<usize>, queue: Seq<usize>, head: int, extra: Seq<usize>, v: usize) -> bool {
    ((v as int) < removed.len() && !removed[v as int] && in_deg[v as int] == 0) ==> (in_queue(queue, head, v)
        || extra.contains(v))
}

/// The nodes of `g` that are in `done`, as a removal mask.
pub open spec fn removed_of(n: nat, done: Seq<usize>) -> Seq<bool> {
    Seq::new(n, |v: int| done.contains(v as usize))
}

/// `v` is ready once the nodes of `done` are output: it is not among them and
/// has no predecessor outside them.
pub open spec fn is_ready(g: Seq<Seq<usize>>, done: Seq<usize>, v: usize) -> bool {
    !done.contains(v) && count_preds(g, removed_of(g.len(), done), v, g.len() as int) == 0
}

/// The nodes of `s` that are ready, in the order of `s`.
pub open spec fn ready_among(g: Seq<Seq<usize>>, done: Seq<usize>, s: Seq<usize>) -> Seq<usize>
    decreases s.len(),
{
    if s.len() == 0 {
        Seq::empty()
    } else {
        let r = ready_among(g, done, s.drop_last());
        if is_ready(g, done, s.last()) { r.push(s.last()) } else { r }
    }
}

/// The nodes with no predecessor, in index order.
pub open spec fn sources(g: Seq<Seq<usize>>) -> Seq<usize> {
    ready_among(g, Seq::empty(), Seq::new(g.len(), |i: int| i as usize))
}

/// The successors of `order[i]` that outputting it makes ready, in edge order.
pub open spec fn freed(g: Seq<Seq<usize>>, order: Seq<usize>, i: int) -> Seq<usize> {
    ready_among(g, order.subrange(0, i + 1), g[order[i] as int])
}

/// `s` from its last element to its first.
pub open spec fn backwards(s: Seq<usize>) -> Seq<usize> {
    Seq::new(s.len(), |i: int| s[s.len() - 1 - i])
}

/// The loop-breaking nodes queued once `p` nodes are output, from the pairs
/// (nodes output when the loop was found, node queued).
pub open spec fn break_at(breaks: Seq<(usize, usize)>, p: int) -> Seq<usize>
    decreases breaks.len(),
{
    if breaks.len() == 0 {
        Seq::empty()
    } else {
        let r = break_at(breaks.drop_last(), p);
        if breaks.last().0 == p { r.push(breaks.last().1) } else { r }
    }
}

/// The queue of Kahn's algorithm, first come first served, after the first
/// `k` nodes of `order` are output: the sources in index order, then for each
/// output node the nodes it makes ready, last successor first, with the
/// first member of each broken loop queued when nothing else is ready.
pub open spec fn kahn_queue(g: Seq<Seq<usize>>, order: Seq<usize>, breaks: Seq<(usize, usize)>, k: int) -> Seq<usize>
    decreases k,
{
    if k <= 0 {
        sources(g) + break_at(breaks, 0)
    } else {
        kahn_queue(g, order, breaks, k - 1) + backwards(freed(g, order, k - 1)) + break_at(breaks, k)
    }
}

/// The (output position, queued node) pairs of a sort's loop reports.
pub open spec fn loop_breaks(loops: Seq<LoopReport>) -> Seq<(usize, usize)> {
    Seq::new(loops.len(), |k: int| (loops[k].emitted, loops[k].members@[0]))
}

proof fn lemma_kahn_queue_prefix(g: Seq<Seq<usize>>, o1: Seq<usize>, o2: Seq<usize>, b: Seq<(usize, usize)>, k: int)
    requires
        0 <= k <= o1.len(),
        k <= o2.len(),
        o1.subrange(0, k) == o2.subrange(0, k),
    ensures
        kahn_queue(g, o1, b, k) == kahn_queue(g, o2, b, k),
    decreases k,
{
    if k > 0 {
        assert(o1.subrange(0, k - 1) =~= o1.subrange(0, k).subrange(0, k - 1));
        assert(o2.subrange(0, k - 1) =~= o2.subrange(0, k).subrange(0, k - 1));
        lemma_kahn_queue_prefix(g, o1, o2, b, k - 1);
        assert(o1[k - 1] == o1.subrange(0, k)[k - 1]);
        assert(o2[k - 1] == o2.subrange(0, k)[k - 1]);
        assert(o1.subrange(0, k) =~= o2.subrange(0, k));
    }
}

proof fn lemma_break_at_none(b: Seq<(usize, usize)>, p: int)
    requires
        forall|i: int| 0 <= i < b.len() ==> (#[trigger] b[i]).0 != p,
    ensures
        break_at(b, p) == Seq::<usize>::empty(),
    decreases b.len(),
{
    if b.len() > 0 {
        assert forall|i: int| 0 <= i < b.drop_last().len() implies (#[trigger] b.drop_last()[i]).0 != p by {
            assert(b.drop_last()[i] == b[i]);
        }
        lemma_break_at_none(b.drop_last(), p);
        assert(b.last() == b[b.len() - 1]);
    }
}

proof fn lemma_kahn_queue_push_break(g: Seq<Seq<usize>>, o: Seq<usize>, b: Seq<(usize, usize)>, k: usize, x: usize, j: int)
    requires
        0 <= j <= k,
        forall|i: int| 0 <= i < b.len() ==> (#[trigger] b[i]).0 < k,
    ensures
        j < k ==> kahn_queue(g, o, b.push((k, x)), j) == kahn_queue(g, o, b, j),
        j == k ==> kahn_queue(g, o, b.push((k, x)), j) == kahn_queue(g, o, b, j).push(x),
    decreases j,
{
    let b2 = b.push((k, x));
    assert(b2.drop_last() =~= b);
    assert(break_at(b2, j) == if j == k { break_at(b, j).push(x) } else { break_at(b, j) });
    if j == k {
        assert forall|i: int| 0 <= i < b.len() implies (#[trigger] b[i]).0 != k by {}
        lemma_break_at_none(b, k as int);
    }
    if j > 0 {
        lemma_kahn_queue_push_break(g, o, b, k, x, j - 1);
        if j == k {
            assert(kahn_queue(g, o, b2, j) =~= kahn_queue(g, o, b, j).push(x));
        }
    } else if j == k {
        assert(kahn_queue(g, o, b2, j) =~= kahn_queue(g, o, b, j).push(x));
    }
}

/// `m` is a loop found in `g`: a cycle of distinct nodes of `g`.
pub open spec fn loop_found(g: Seq<Seq<usize>>, m: Seq<usize>) -> bool {
    &&& is_cycle(g, m)
    &&& distinct(m)
    &&& forall|i: int| 0 <= i < m.len() ==> (#[trigger] m[i] as int) < g.len()
}

proof fn lemma_removed_of(g: Seq<Seq<usize>>, removed: Seq<bool>, order: Seq<usize>)
    requires
        removed.len() == g.len(),
        g.len() <= usize::MAX,
        forall|i: int| 0 <= i < order.len() ==> (#[trigger] order[i]) < g.len() && removed[order[i] as int],
        forall|v: int| 0 <= v < g.len() && #[trigger] removed[v] ==> occurs(order, v, order.len() as int),
    ensures
        removed == removed_of(g.len(), order),
{
    assert forall|v: int| 0 <= v < g.len() implies removed[v] == #[trigger] removed_of(g.len(), order)[v] by {
        if removed[v] {
            let i = choose|i: int| 0 <= i < order.len() && #[trigger] order[i] == v;
            assert(order[i] == v as usize);
        }
        if order.contains(v as usize) {
            let i = choose|i: int| 0 <= i < order.len() && #[trigger] order[i] == v as usize;
            assert(removed[order[i] as int]);
        }
    }
    assert(removed =~= removed_of(g.len(), order));
}

proof fn lemma_removed_of_push(n: nat, order: Seq<usize>, x: usize)
    requires
        x < n,
        n <= usize::MAX,
    ensures
        removed_of(n, order.push(x)) == removed_of(n, order).update(x as int, true),
{
    assert forall|v: int| 0 <= v < n implies #[trigger] removed_of(n, order.push(x))[v] == removed_of(n, order).update(x as int, true)[v] by {
        if v != x as int && order.push(x).contains(v as usize) {
            let i = choose|i: int| 0 <= i < order.push(x).len() && order.push(x)[i] == v as usize;
            assert(order[i] == v as usize);
        }
        if order.contains(v as usize) {
            let i = choose|i: int| 0 <= i < order.len() && order[i] == v as usize;
            assert(order.push(x)[i] == v as usize);
        }
        if v == x as int {
            assert(order.push(x)[order.len() as int] == x);
        }
    }
    assert(removed_of(n, order.push(x)) =~= removed_of(n, order).update(x as int, true));
}

/// The invariant of Kahn's loop between two steps.
pub open spec fn kahn_inv(
    g: Seq<Seq<usize>>,
    removed: Seq<bool>,
    in_deg: Seq<usize>,
    order: Seq<usize>,
    queue: Seq<usize>,
    head: int,
    no_loops: bool,
) -> bool {
    let n = g.len();
    &&& removed.len() == n
    &&& in_deg.len() == n
    &&& wf_graph(g)
    &&& distinct(order)
    &&& forall|i: int| 0 <= i < order.len() ==> (#[trigger] order[i]) < n && removed[order[i] as int]
    &&& forall|v: int| 0 <= v < n && #[trigger] removed[v] ==> occurs(order, v, order.len() as int)
    &&& order.len() == count_true(removed, n as int)
    &&& 0 <= head <= queue.len()
    &&& forall|i: int| head <= i < queue.len() ==> (#[trigger] queue[i]) < n && !removed[queue[i] as int]
        && in_deg[queue[i] as int] == 0
    &&& forall|i: int, j: int| head <= i < queue.len() && head <= j < queue.len() && i != j ==> #[trigger] queue[i]
        != #[trigger] queue[j]
    &&& forall|v: int| 0 <= v < n && !removed[v] ==> #[trigger] in_deg[v] == count_preds(g, removed, v as usize, n as int)
        || (in_deg[v] == 0 && head < queue.len() && queue[head] == v as usize)
    &&& no_loops ==> forall|v: int| 0 <= v < n && !removed[v] ==> #[trigger] in_deg[v] == count_preds(g, removed, v as usize, n as int)
    &&& no_loops ==> respects_edges(g, order)
}

/// Kahn's topological sort with loop breaking: repeatedly outputs a node with
/// no remaining predecessor (first come, first served); when none is left but
/// nodes remain, reports a loop through the first remaining node and outputs
/// the loop's first member next.
#[verifier::spinoff_prover]
#[verifier::rlimit(50)]
pub fn kahn_sort(adj: &Vec<Vec<usize>>, in_deg: Vec<usize>) -> (r: SortResult)
    requires
        wf_graph(rows(adj@)),
        in_deg@.len() == adj@.len(),
        forall|v: int| 0 <= v < adj@.len() ==> #[trigger] in_deg@[v] == count_preds(
            rows(adj@),
            none_removed(adj@.len()),
            v as usize,
            adj@.len() as int,
        ),
    ensures
        r.order@.len() == adj@.len(),
        distinct(r.order@),
        forall|i: int| 0 <= i < r.order@.len() ==> (#[trigger] r.order@[i]) < adj@.len(),
        forall|v: int| 0 <= v < adj@.len() ==> #[trigger] occurs(r.order@, v, adj@.len() as int),
        r.loops@.len() == 0 ==> respects_edges(rows(adj@), r.order@),
        forall|k: int| 0 <= k < r.loops@.len() ==> loop_found(rows(adj@), #[trigger] r.loops@[k].members@),
        forall|k: int| 0 <= k < r.loops@.len() ==> (#[trigger] r.loops@[k]).emitted < r.order@.len()
            && r.order@[r.loops@[k].emitted as int] == r.loops@[k].members@[0],
        forall|k: int, k2: int| 0 <= k < k2 < r.loops@.len() ==> (#[trigger] r.loops@[k]).emitted < (#[trigger] r.loops@[k2]).emitted,
        acyclic(rows(adj@)) ==> r.loops@.len() == 0,
        r.order@ == kahn_queue(rows(adj@), r.order@, loop_breaks(r.loops@), adj@.len() as int),
{
    let n = adj.len();
    let ghost g = rows(adj@);
    let mut in_deg = in_deg;
    let mut removed: Vec<bool> = vec![false; n];
    let mut order: Vec<usize> = Vec::new();
    let mut queue: Vec<usize> = Vec::new();
    let mut loops: Vec<LoopReport> = Vec::new();
    assert(removed@ =~= none_removed(n as nat));
    assert(removed_of(n as nat, Seq::<usize>::empty()) =~= none_removed(n as nat));
    assert(queue@ =~= ready_among(g, Seq::<usize>::empty(), Seq::new(0, |i: int| i as usize)));
    let mut v: usize = 0;
    while v < n
        invariant
            v <= n,
            n == adj@.len(),
            g == rows(adj@),
            in_deg@.len() == n,
            removed@ == none_removed(n as nat),
            forall|i: int| 0 <= i < queue@.len() ==> (#[trigger] queue@[i]) < v && in_deg@[queue@[i] as int] == 0,
            forall|i: int, j: int| 0 <= i < j < queue@.len() ==> queue@[i] < queue@[j],
            forall|u: usize| #![trigger in_deg@[u as int]] u < v && in_deg@[u as int] == 0 ==> queue@.contains(u),
            forall|u: int| 0 <= u < n ==> #[trigger] in_deg@[u] == count_preds(g, none_removed(n as nat), u as usize, n as int),
            removed_of(n as nat, Seq::<usize>::empty()) == none_removed(n as nat),
            queue@ == ready_among(g, Seq::<usize>::empty(), Seq::new(v as nat, |i: int| i as usize)),
        decreases n - v,
    {
        let ghost old_queue = queue@;
        if in_deg[v] == 0 {
            queue.push(v);
            proof {
                assert(queue@[queue@.len() - 1] == v);
            }
        }
        proof {
            let s = Seq::new((v + 1) as nat, |i: int| i as usize);
            assert(s.drop_last() =~= Seq::new(v as nat, |i: int| i as usize));
            assert(s.last() == v);
            assert(is_ready(g, Seq::<usize>::empty(), v) == (in_deg@[v as int] == 0));
        }
        proof {
            assert forall|u: usize| #![trigger in_deg@[u as int]] u < v + 1 && in_deg@[u as int] == 0 implies queue@.contains(u) by {
                if u < v {
                    assert(old_queue.contains(u));
                    let i = choose|i: int| 0 <= i < old_queue.len() && old_queue[i] == u;
                    assert(queue@[i] == u);
                } else {
                    assert(queue@[queue@.len() - 1] == v);
                }
            }
        }
        v = v + 1;
    }
    let mut head: usize = 0;
    proof {
        assert(Seq::new(n as nat, |i: int| i as usize) == Seq::new(g.len(), |i: int| i as usize));
        assert(queue@ == sources(g));
        assert(loop_breaks(loops@) =~= Seq::<(usize, usize)>::empty());
        assert(break_at(loop_breaks(loops@), 0) =~= Seq::<usize>::empty());
        assert(queue@ =~= kahn_queue(g, order@, loop_breaks(loops@), 0));
        assert(order@ =~= queue@.subrange(0, 0));
        assert forall|u: usize| #[trigger] zero_waits(removed@, in_deg@, queue@, 0, Seq::<usize>::empty(), u) by {
            if (u as int) < removed@.len() && !removed@[u as int] && in_deg@[u as int] == 0 {
                assert(queue@.contains(u));
                let i = choose|i: int| 0 <= i < queue@.len() && queue@[i] == u;
                assert(in_queue(queue@, 0, u));
            }
        }
        assert(count_true(removed@, n as int) == 0) by {
            lemma_count_none(removed@, n as int);
        }
        assert forall|i: int, j: int| 0 <= i < queue@.len() && 0 <= j < queue@.len() && i != j implies #[trigger] queue@[i] != #[trigger] queue@[j] by {
            if i < j {
                assert(queue@[i] < queue@[j]);
            } else {
                assert(queue@[j] < queue@[i]);
            }
        }
    }
    loop
        invariant
            n == adj@.len(),
            g == rows(adj@),
            kahn_inv(g, removed@, in_deg@, order@, queue@, head as int, loops@.len() == 0),
            order@ == queue@.subrange(0, head as int),
            queue@ == kahn_queue(g, order@, loop_breaks(loops@), order@.len() as int),
            forall|k: int| 0 <= k < loops@.len() ==> loop_found(g, #[trigger] loops@[k].members@),
            forall|k: int| 0 <= k < loops@.len() ==> (#[trigger] loops@[k]).emitted <= order@.len(),
            forall|k: int| 0 <= k < loops@.len() && (#[trigger] loops@[k]).emitted < order@.len() ==> order@[loops@[k].emitted as int]
                == loops@[k].members@[0],
            forall|k: int| 0 <= k < loops@.len() && (#[trigger] loops@[k]).emitted == order@.len() ==> head < queue@.len()
                && queue@[head as int] == loops@[k].members@[0],
            forall|k: int, k2: int| 0 <= k < k2 < loops@.len() ==> (#[trigger] loops@[k]).emitted < (#[trigger] loops@[k2]).emitted,
            forall|u: usize| #[trigger] zero_waits(removed@, in_deg@, queue@, head as int, Seq::<usize>::empty(), u),
            acyclic(g) ==> loops@.len() == 0,
        ensures
            order@.len() >= n,
            head >= queue@.len(),
            order@ == queue@.subrange(0, head as int),
            queue@ == kahn_queue(g, order@, loop_breaks(loops@), order@.len() as int),
            head <= queue@.len(),
            acyclic(g) ==> loops@.len() == 0,
        decreases 2 * (n - order@.len()) + if head < queue@.len() { 0int } else { 1int },
    {
        proof {
            lemma_count_true_bound(removed@, n as int);
        }
        if head < queue.len() {
            let node = queue[head];
            let ghost q_top = queue@;
            let ghost old_head = head as int;
            head = head + 1;
            let ghost old_removed = removed@;
            let ghost old_order = order@;
            proof {
                if loops@.len() == 0 {
                    lemma_count_zero(g, old_removed, node, n as int);
                }
                lemma_count_true_set(old_removed, node as int, n as int);
                assert(!old_order.contains(node)) by {
                    if old_order.contains(node) {
                        let i = choose|i: int| 0 <= i < old_order.len() && old_order[i] == node;
                        assert(old_removed[old_order[i] as int]);
                    }
                }
            }
            proof {
                lemma_removed_of(g, old_removed, old_order);
                lemma_removed_of_push(n as nat, old_order, node);
            }
            removed.set(node, true);
            order.push(node);
            proof {
                assert forall|v: int| 0 <= v < n && 0 <= v < n implies #[trigger] count_preds(g, removed@, v as usize, n as int) + if !old_removed[node as int] && g[node as int].contains(v as usize) { 1nat } else { 0nat } == count_preds(g, old_removed, v as usize, n as int) by {
                    lemma_count_remove(g, old_removed, node as int, v as usize, n as int);
                }
            }
            let row = &adj[node];
            let mut new_zeros: Vec<usize> = Vec::new();
            let mut j: usize = 0;
            proof {
                assert forall|u: usize| #[trigger] zero_waits(removed@, in_deg@, queue@, head as int, new_zeros@, u) by {
                    assert(zero_waits(old_removed, in_deg@, queue@, old_head, Seq::<usize>::empty(), u));
                    if (u as int) < removed@.len() && !removed@[u as int] && in_deg@[u as int] == 0 {
                        assert(!old_removed[u as int]);
                        assert(in_queue(queue@, old_head, u));
                        let i = choose|i: int| old_head <= i < queue@.len() && #[trigger] queue@[i] == u;
                        assert(i != old_head);
                        assert(in_queue(queue@, head as int, u));
                    }
                }
                assert(row@.subrange(0, row@.len() as int) =~= row@);
                assert(row@ == g[node as int]);
                assert(new_zeros@ =~= ready_among(g, order@, row@.subrange(0, 0)));
                assert forall|v: int| 0 <= v < n && !removed@[v] implies #[trigger] in_deg@[v] == count_preds(g, removed@, v as usize, n as int) + if row@.subrange(0, row@.len() as int).contains(v as usize) { 1nat } else { 0nat } by {
                    assert(!old_removed[v]);
                    assert(v != node as int);
                }
            }
            while j < row.len()
                invariant
                    n == adj@.len(),
                    g == rows(adj@),
                    row@ == g[node as int],
                    node < n,
                    j <= row@.len(),
                    removed@ == old_removed.update(node as int, true),
                    removed@ == removed_of(n as nat, order@),
                    new_zeros@ == ready_among(g, order@, row@.subrange(0, j as int)),
                    !old_removed[node as int],
                    in_deg@.len() == n,
                    removed@.len() == n,
                    wf_graph(g),
                    head <= queue@.len(),
                    forall|i: int| head <= i < queue@.len() ==> (#[trigger] queue@[i]) < n && !removed@[queue@[i] as int]
                        && in_deg@[queue@[i] as int] == 0,
                    forall|i: int| 0 <= i < new_zeros@.len() ==> (#[trigger] new_zeros@[i]) < n && !removed@[new_zeros@[i] as int]
                        && in_deg@[new_zeros@[i] as int] == 0,
                    forall|i: int, k: int| 0 <= i < new_zeros@.len() && 0 <= k < new_zeros@.len() && i != k ==> #[trigger] new_zeros@[i] != #[trigger] new_zeros@[k],
                    forall|i: int, k: int| head <= i < queue@.len() && 0 <= k < new_zeros@.len() ==> #[trigger] queue@[i] != #[trigger] new_zeros@[k],
                    forall|u: usize| #[trigger] zero_waits(removed@, in_deg@, queue@, head as int, new_zeros@, u),
                    forall|v: int| 0 <= v < n && !removed@[v] ==> #[trigger] in_deg@[v] == count_preds(g, removed@, v as usize, n as int) + if row@.subrange(j as int, row@.len() as int).contains(v as usize) { 1nat } else { 0nat },
                    forall|v: int| 0 <= v < n && 0 <= v < n ==> #[trigger] count_preds(g, removed@, v as usize, n as int) + if !old_removed[node as int] && g[node as int].contains(v as usize) { 1nat } else { 0nat } == count_preds(g, old_removed, v as usize, n as int),
                decreases row@.len() - j,
            {
                let nb = row[j];
                proof {
                    assert(g[node as int][j as int] < g.len());
                    assert forall|v: usize| v < n && v != nb implies (#[trigger] row@.subrange(j as int, row@.len() as int).contains(v) == row@.subrange(j + 1, row@.len() as int).contains(v)) by {
                        let a = row@.subrange(j as int, row@.len() as int);
                        let b = row@.subrange(j + 1, row@.len() as int);
                        if a.contains(v) {
                            let i = choose|i: int| 0 <= i < a.len() && a[i] == v;
                            assert(i != 0);
                            assert(b[i - 1] == v);
                        }
                        if b.contains(v) {
                            let i = choose|i: int| 0 <= i < b.len() && b[i] == v;
                            assert(a[i + 1] == v);
                        }
                    }
                    assert(!row@.subrange(j + 1, row@.len() as int).contains(nb)) by {
                        let b = row@.subrange(j + 1, row@.len() as int);
                        if b.contains(nb) {
                            let i = choose|i: int| 0 <= i < b.len() && b[i] == nb;
                            assert(g[node as int][j + 1 + i] == g[node as int][j as int]);
                        }
                    }
                    assert(row@.subrange(j as int, row@.len() as int)[0] == nb);
                }
                let ghost pre_in_deg = in_deg@;
                let ghost pre_zeros = new_zeros@;
                if !removed[nb] && in_deg[nb] > 0 {
                    let d = in_deg[nb] - 1;
                    in_deg.set(nb, d);
                    if d == 0 {
                        new_zeros.push(nb);
                    }
                }
                proof {
                    let s = row@.subrange(0, j + 1);
                    assert(s.drop_last() =~= row@.subrange(0, j as int));
                    assert(s.last() == nb);
                    assert(removed@[nb as int] == order@.contains(nb));
                    assert(new_zeros@ == ready_among(g, order@, s));
                    assert forall|u: usize| #[trigger] zero_waits(removed@, in_deg@, queue@, head as int, new_zeros@, u) by {
                        assert(zero_waits(removed@, pre_in_deg, queue@, head as int, pre_zeros, u));
                        if u == nb {
                            if new_zeros@.len() > pre_zeros.len() {
                                assert(new_zeros@[new_zeros@.len() - 1] == nb);
                            }
                        } else if pre_zeros.contains(u) {
                            let i = choose|i: int| 0 <= i < pre_zeros.len() && pre_zeros[i] == u;
                            assert(new_zeros@[i] == u);
                        }
                    }
                }
                j = j + 1;
            }
            proof {
                assert(row@.subrange(j as int, row@.len() as int) =~= Seq::<usize>::empty());
                assert(row@.subrange(0, j as int) =~= row@);
                assert(order@.subrange(0, order@.len() as int) =~= order@);
                assert(new_zeros@ == freed(g, order@, order@.len() - 1));
            }
            let mut z: usize = new_zeros.len();
            proof {
                assert(new_zeros@.subrange(0, z as int) =~= new_zeros@);
                assert(queue@ =~= q_top + backwards(new_zeros@).subrange(0, 0));
            }
            while z > 0
                invariant
                    z <= new_zeros@.len(),
                    queue@ == q_top + backwards(new_zeros@).subrange(0, new_zeros@.len() - z),
                    n == adj@.len(),
                    head <= queue@.len(),
                    in_deg@.len() == n,
                    removed@.len() == n,
                    forall|i: int| head <= i < queue@.len() ==> (#[trigger] queue@[i]) < n && !removed@[queue@[i] as int]
                        && in_deg@[queue@[i] as int] == 0,
                    forall|i: int| 0 <= i < new_zeros@.len() ==> (#[trigger] new_zeros@[i]) < n && !removed@[new_zeros@[i] as int]
                        && in_deg@[new_zeros@[i] as int] == 0,
                    forall|i: int, k: int| 0 <= i < new_zeros@.len() && 0 <= k < new_zeros@.len() && i != k ==> #[trigger] new_zeros@[i] != #[trigger] new_zeros@[k],
                    forall|i: int, k: int| head <= i < queue@.len() && 0 <= k < z ==> #[trigger] queue@[i] != #[trigger] new_zeros@[k],
                    forall|i: int, j: int| head <= i < queue@.len() && head <= j < queue@.len() && i != j ==> #[trigger] queue@[i]
                        != #[trigger] queue@[j],
                    forall|u: usize| #[trigger] zero_waits(removed@, in_deg@, queue@, head as int, new_zeros@.subrange(0, z as int), u),
                    forall|v: int| 0 <= v < n && !removed@[v] ==> #[trigger] in_deg@[v] == count_preds(g, removed@, v as usize, n as int),
                    g.len() == n,
                decreases z,
            {
                let x = new_zeros[z - 1];
                let ghost old_queue = queue@;
                queue.push(x);
                proof {
                    let bw = backwards(new_zeros@);
                    let l = new_zeros@.len() as int;
                    assert(bw[l - z] == x);
                    assert(bw.subrange(0, l - z + 1) =~= bw.subrange(0, l - z).push(x));
                    assert(queue@ =~= q_top + bw.subrange(0, l - (z - 1)));
                    {
                        assert forall|u: usize| #[trigger] zero_waits(removed@, in_deg@, queue@, head as int, new_zeros@.subrange(0, z - 1), u) by {
                            assert(zero_waits(removed@, in_deg@, old_queue, head as int, new_zeros@.subrange(0, z as int), u));
                            if in_queue(old_queue, head as int, u) {
                                let i = choose|i: int| head <= i < old_queue.len() && #[trigger] old_queue[i] == u;
                                assert(queue@[i] == u);
                            } else if new_zeros@.subrange(0, z as int).contains(u) {
                                let i = choose|i: int| 0 <= i < z && #[trigger] new_zeros@.subrange(0, z as int)[i] == u;
                                if i == z - 1 {
                                    assert(queue@[old_queue.len() as int] == u);
                                } else {
                                    assert(new_zeros@.subrange(0, z - 1)[i] == u);
                                }
                            }
                        }
                    }
                    assert forall|i: int, j: int| head <= i < queue@.len() && head <= j < queue@.len() && i != j implies #[trigger] queue@[i]
                        != #[trigger] queue@[j] by {
                        if i < old_queue.len() && j < old_queue.len() {
                        } else if i < old_queue.len() {
                            assert(queue@[j] == new_zeros@[z - 1]);
                            assert(queue@[i] == old_queue[i]);
                        } else {
                            assert(queue@[i] == new_zeros@[z - 1]);
                            assert(queue@[j] == old_queue[j]);
                        }
                    }
                    assert forall|i: int, k: int| head <= i < queue@.len() && 0 <= k < z - 1 implies #[trigger] queue@[i] != #[trigger] new_zeros@[k] by {
                        if i < old_queue.len() {
                            assert(queue@[i] == old_queue[i]);
                        }
                    }
                }
                z = z - 1;
            }
            proof {
                assert forall|u: usize| #[trigger] zero_waits(removed@, in_deg@, queue@, head as int, Seq::<usize>::empty(), u) by {
                    assert(zero_waits(removed@, in_deg@, queue@, head as int, new_zeros@.subrange(0, z as int), u));
                    assert(new_zeros@.subrange(0, z as int) =~= Seq::<usize>::empty());
                }
                let b = loop_breaks(loops@);
                let k = order@.len() as int;
                assert(backwards(new_zeros@).subrange(0, new_zeros@.len() as int) =~= backwards(new_zeros@));
                assert(order@.subrange(0, k - 1) =~= old_order.subrange(0, k - 1));
                lemma_kahn_queue_prefix(g, old_order, order@, b, k - 1);
                assert forall|i: int| 0 <= i < b.len() implies (#[trigger] b[i]).0 != k by {
                    assert(loops@[i].emitted <= old_order.len());
                }
                lemma_break_at_none(b, k);
                assert(queue@ =~= kahn_queue(g, order@, b, k));
                assert(order@ =~= queue@.subrange(0, head as int));
                let ord = order@;
                assert(ord[ord.len() - 1] == node);
                assert forall|i: int, k: int| 0 <= i < ord.len() && 0 <= k < ord.len() && i != k implies #[trigger] ord[i] != #[trigger] ord[k] by {
                    if i < old_order.len() && k < old_order.len() {
                        assert(ord[i] == old_order[i] && ord[k] == old_order[k]);
                    } else if i < old_order.len() {
                        assert(ord[i] == old_order[i]);
                        assert(old_order.contains(old_order[i]));
                    } else {
                        assert(ord[k] == old_order[k]);
                        assert(old_order.contains(old_order[k]));
                    }
                }
                assert forall|i: int| 0 <= i < ord.len() implies (#[trigger] ord[i]) < n && removed@[ord[i] as int] by {
                    if i < old_order.len() {
                        assert(ord[i] == old_order[i]);
                    }
                }
                assert forall|v: int| 0 <= v < n && #[trigger] removed@[v] implies occurs(ord, v, ord.len() as int) by {
                    if v == node {
                        assert(ord[ord.len() - 1] == v);
                    } else {
                        assert(old_removed[v]);
                        assert(occurs(old_order, v, old_order.len() as int));
                        let i = choose|i: int| 0 <= i < old_order.len() && #[trigger] old_order[i] == v;
                        assert(ord[i] == v);
                    }
                }
                lemma_count_true_bound(removed@, n as int);
                if loops@.len() == 0 {
                    assert forall|i: int, u: int| 0 <= i < ord.len() && 0 <= u < g.len() && (#[trigger] g[u]).contains(
                        #[trigger] ord[i]) implies occurs(ord, u, i) by {
                        if i < old_order.len() {
                            assert(ord[i] == old_order[i]);
                            assert(occurs(old_order, u, i));
                            let k = choose|k: int| 0 <= k < i && #[trigger] old_order[k] == u;
                            assert(ord[k] == u);
                        } else {
                            assert(ord[i] == node);
                            assert(old_removed[u]);
                            assert(occurs(old_order, u, old_order.len() as int));
                            let k = choose|k: int| 0 <= k < old_order.len() && #[trigger] old_order[k] == u;
                            assert(ord[k] == u);
                        }
                    }
                }
            }
        } else if order.len() >= n {
            break;
        } else {
            proof {
                lemma_count_true_has_false(removed@, n as int);
            }
            let mut start: usize = 0;
            while start < n && removed[start]
                invariant
                    start <= n,
                    removed@.len() == n,
                    exists|x: int| start <= x < n && !removed@[x],
                decreases n - start,
            {
                start = start + 1;
            }
            proof {
                assert(!removed@[start as int]);
                assert forall|u: usize| (u as int) < g.len() && !removed@[u as int] implies #[trigger] has_live_pred(g, removed@, u) by {
                    assert(zero_waits(removed@, in_deg@, queue@, head as int, Seq::<usize>::empty(), u));
                    assert(!in_queue(queue@, head as int, u));
                    assert(in_deg@[u as int] == count_preds(g, removed@, u, n as int));
                    lemma_count_pos(g, removed@, u, n as int);
                }
                lemma_stuck_has_cycle(g, removed@, start);
            }
            let forward = find_cycle(start, adj, &removed);
            let cycle = if forward.len() >= 2 { forward } else { find_loop_back(start, adj, &removed) };
            proof {
                if forward.len() >= 2 {
                    assert(forward@ != seq![start]);
                }
                assert(loop_found(g, cycle@));
            }
            let first = cycle[0];
            let ghost old_queue = queue@;
            let ghost old_in_deg = in_deg@;
            let ghost old_loops = loops@;
            in_deg.set(first, 0);
            queue.push(first);
            let report = LoopReport { emitted: order.len(), members: cycle };
            loops.push(report);
            proof {
                assert(head == old_queue.len());
                assert(queue@[head as int] == first);
                assert forall|i: int, j: int| head <= i < queue@.len() && head <= j < queue@.len() && i != j implies #[trigger] queue@[i]
                    != #[trigger] queue@[j] by {
                }
                assert forall|v: int| 0 <= v < n && !removed@[v] implies #[trigger] in_deg@[v] == count_preds(g, removed@, v as usize, n as int)
                    || (in_deg@[v] == 0 && head < queue@.len() && queue@[head as int] == v as usize) by {
                    if v != first as int {
                        assert(old_in_deg[v] == in_deg@[v]);
                    }
                }
                assert forall|u: usize| #[trigger] zero_waits(removed@, in_deg@, queue@, head as int, Seq::<usize>::empty(), u) by {
                    if u == first {
                        assert(queue@[head as int] == first);
                    } else if (u as int) < n {
                        assert(zero_waits(removed@, old_in_deg, old_queue, head as int, Seq::<usize>::empty(), u));
                        assert(!in_queue(old_queue, head as int, u));
                    }
                }
                assert forall|k: int| 0 <= k < loops@.len() implies loop_found(g, #[trigger] loops@[k].members@) by {
                    if k < old_loops.len() {
                        assert(loops@[k] == old_loops[k]);
                    }
                }
                assert forall|k: int| 0 <= k < old_loops.len() implies (#[trigger] old_loops[k]).emitted < order@.len() by {
                    if old_loops[k].emitted == order@.len() {
                        assert(head < old_queue.len());
                    }
                }
                assert forall|k: int| 0 <= k < loops@.len() implies (#[trigger] loops@[k]).emitted <= order@.len() by {
                    if k < old_loops.len() {
                        assert(loops@[k] == old_loops[k]);
                    }
                }
                assert forall|k: int| 0 <= k < loops@.len() && (#[trigger] loops@[k]).emitted < order@.len() implies order@[loops@[k].emitted as int]
                    == loops@[k].members@[0] by {
                    assert(loops@[k] == old_loops[k]);
                }
                assert forall|k: int| 0 <= k < loops@.len() && (#[trigger] loops@[k]).emitted == order@.len() implies head < queue@.len()
                    && queue@[head as int] == loops@[k].members@[0] by {
                    if k < old_loops.len() {
                        assert(loops@[k] == old_loops[k]);
                    }
                }
                assert forall|k: int, k2: int| 0 <= k < k2 < loops@.len() implies (#[trigger] loops@[k]).emitted < (#[trigger] loops@[k2]).emitted by {
                    assert(loops@[k] == old_loops[k]);
                    if k2 < old_loops.len() {
                        assert(loops@[k2] == old_loops[k2]);
                    }
                }
                let b = loop_breaks(old_loops);
                assert forall|i: int| 0 <= i < b.len() implies (#[trigger] b[i]).0 < order@.len() by {
                    assert(old_loops[i].emitted < order@.len());
                }
                assert(loop_breaks(loops@) =~= b.push((order@.len() as usize, first)));
                lemma_kahn_queue_push_break(g, order@, b, order@.len() as usize, first, order@.len() as int);
                assert(queue@ =~= old_queue.push(first));
                assert(order@ =~= queue@.subrange(0, head as int));
            }
        }
    }
    proof {
        lemma_count_true_full(removed@, n as int);
        lemma_count_true_bound(removed@, n as int);
        assert(queue@.subrange(0, head as int) =~= queue@);
        assert(order@.len() == n);
        assert forall|i: int| 0 <= i < order@.len() implies (#[trigger] order@[i]) < adj@.len() by {}
        assert forall|v: int| 0 <= v < n implies #[trigger] occurs(order@, v, n as int) by {
            assert(removed@[v]);
        }
    }
    SortResult { order, loops }
}

proof fn lemma_count_none(r: Seq<bool>, k: int)
    requires
        k <= r.len(),
        forall|i: int| 0 <= i < r.len() ==> !r[i],
    ensures
        count_true(r, k) == 0,
    decreases k,
{
    if k > 0 {
        lemma_count_none(r, k - 1);
    }
}

proof fn lemma_count_true_has_false(r: Seq<bool>, k: int)
    requires
        0 <= k <= r.len(),
        count_true(r, k) < k,
    ensures
        exists|x: int| 0 <= x < k && !r[x],
    decreases k,
{
    if k > 0 {
        if r[k - 1] {
            lemma_count_true_has_false(r, k - 1);
        }
    }
}



// ---------------------------------------------------------------------------
// Whole input
// ---------------------------------------------------------------------------

/// The result of topologically sorting an input: whether it had an odd number
/// of tokens (then nothing was sorted), the node names, the order in which
/// they are output, and the loops that were broken.
pub struct TsortOutcome {
    pub odd_tokens: bool,
    pub names: Vec<Vec<u8>>,
    pub order: Vec<usize>,
    pub loops: Vec<LoopReport>,
}

/// The names in output order.
pub open spec fn output_names(names: Seq<Seq<u8>>, order: Seq<usize>) -> Seq<Seq<u8>> {
    Seq::new(order.len(), |i: int| names[order[i] as int])
}

/// `a` is output before `b`.
pub open spec fn precedes(out: Seq<Seq<u8>>, a: Seq<u8>, b: Seq<u8>) -> bool {
    exists|i: int, j: int| 0 <= i < j < out.len() && #[trigger] out[i] == a && #[trigger] out[j] == b
}

/// What sorting promises of an input with an even number of tokens whose
/// node names are `keys`: every distinct name is output exactly once, and,
/// unless a loop was broken, the first name of every pair is output before the
/// second.
pub open spec fn sorted_correctly(keys: Seq<Seq<u8>>, names: Seq<Seq<u8>>, order: Seq<usize>, no_loops: bool) -> bool {
    let out = output_names(names, order);
    &&& order.len() == names.len()
    &&& distinct(order)
    &&& forall|i: int| 0 <= i < order.len() ==> (#[trigger] order[i]) < names.len()
    &&& forall|i: int, j: int| 0 <= i < names.len() && 0 <= j < names.len() && i != j ==> #[trigger] names[i] != #[trigger] names[j]
    &&& forall|k: int| 0 <= k < keys.len() ==> #[trigger] out.contains(keys[k])
    &&& forall|i: int| 0 <= i < out.len() ==> #[trigger] keys.contains(out[i])
    &&& no_loops ==> forall|k: int| 0 <= k < keys.len() / 2 && keys[2 * k] != keys[2 * k + 1] ==> #[trigger] precedes(
        out,
        keys[2 * k],
        keys[2 * k + 1],
    )
}


/// The input pairs name `a` before `b`, two different names.
pub open spec fn pair_edge(keys: Seq<Seq<u8>>, a: Seq<u8>, b: Seq<u8>) -> bool {
    a != b && exists|i: int| 0 <= i < keys.len() / 2 && #[trigger] keys[2 * i] == a && keys[2 * i + 1] == b
}

/// `c` is a loop of names: each is paired before the next, and the last
/// before the first.
pub open spec fn name_cycle(keys: Seq<Seq<u8>>, c: Seq<Seq<u8>>) -> bool {
    &&& c.len() >= 1
    &&& forall|i: int| 0 <= i < c.len() - 1 ==> pair_edge(keys, #[trigger] c[i], c[i + 1])
    &&& pair_edge(keys, c.last(), c[0])
}

/// The pairs of the input form no loop of names.
pub open spec fn pairs_acyclic(keys: Seq<Seq<u8>>) -> bool {
    forall|c: Seq<Seq<u8>>| !#[trigger] name_cycle(keys, c)
}

/// The names of the members of a loop.
pub open spec fn loop_names(names: Seq<Seq<u8>>, m: Seq<usize>) -> Seq<Seq<u8>> {
    Seq::new(m.len(), |i: int| names[m[i] as int])
}

/// Sorts the graph given by the token pairs of `input`.
pub fn run_bytes(input: &[u8]) -> (r: TsortOutcome)
    ensures
        exists|spans: Seq<(usize, usize)>| {
            &&& tokens_from(input@, 0, spans)
            &&& (r.odd_tokens <==> spans.len() % 2 == 1)
            &&& !r.odd_tokens ==> sorted_correctly(token_keys(input@, spans), views(r.names@), r.order@, r.loops@.len() == 0)
            &&& !r.odd_tokens && pairs_acyclic(token_keys(input@, spans)) ==> r.loops@.len() == 0
            &&& forall|k: int| 0 <= k < r.loops@.len() ==> name_cycle(
                token_keys(input@, spans),
                loop_names(views(r.names@), #[trigger] r.loops@[k].members@),
            )
            &&& !r.odd_tokens ==> exists|ids: Seq<usize>| {
                &&& #[trigger] interned(token_keys(input@, spans), views(r.names@), ids)
                &&& r.order@ == kahn_queue(
                    pair_graph(ids, r.names@.len(), (ids.len() / 2) as int),
                    r.order@,
                    loop_breaks(r.loops@),
                    r.names@.len() as int,
                )
            }
        },
        forall|k: int| 0 <= k < r.loops@.len() ==> (#[trigger] r.loops@[k]).emitted < r.order@.len()
            && r.order@[r.loops@[k].emitted as int] == r.loops@[k].members@[0],
        forall|k: int, k2: int| 0 <= k < k2 < r.loops@.len() ==> (#[trigger] r.loops@[k]).emitted < (#[trigger] r.loops@[k2]).emitted,
        forall|k: int, i: int| 0 <= k < r.loops@.len() && 0 <= i < r.loops@[k].members@.len() ==> (
        #[trigger] r.loops@[k].members@[i]) < r.names@.len(),
        r.odd_tokens ==> r.names@.len() == 0 && r.order@.len() == 0 && r.loops@.len() == 0,
        forall|k: int| 0 <= k < r.loops@.len() ==> (#[trigger] r.loops@[k]).members@.len() >= 1,
        forall|k: int| 0 <= k < r.loops@.len() ==> distinct((#[trigger] r.loops@[k]).members@),
{
    let spans = token_spans(input);
    if spans.len() % 2 == 1 {
        return TsortOutcome { odd_tokens: true, names: Vec::new(), order: Vec::new(), loops: Vec::new() };
    }
    let (names, ids) = intern_tokens(input, &spans);
    let ghost keys = token_keys(input@, spans@);
    let n = names.len();
    let (adj, in_deg) = build_graph(&ids, n);
    let sorted = kahn_sort(&adj, in_deg);
    let ghost nm = views(names@);
    let ghost out = output_names(nm, sorted.order@);
    proof {
        if pairs_acyclic(keys) {
            let g = rows(adj@);
            assert forall|m: Seq<usize>| (forall|i: int| 0 <= i < m.len() ==> (m[i] as int) < g.len()) implies !#[trigger] is_cycle(g, m) by {
                if is_cycle(g, m) {
                    let c = Seq::new(m.len(), |i: int| nm[m[i] as int]);
                    assert forall|i: int, a: usize, b: usize| 0 <= i < m.len() && a == m[i] && (b as int) < n && g[a as int].contains(b) implies pair_edge(keys, nm[a as int], nm[b as int]) by {
                        assert(edge_in_pairs(ids@, a, b, (ids@.len() / 2) as int));
                        let p = choose|p: int| 0 <= p < (ids@.len() / 2) as int && #[trigger] ids@[2 * p] == a && ids@[2 * p + 1] == b;
                        assert(keys[2 * p] == nm[a as int]);
                        assert(keys[2 * p + 1] == nm[b as int]);
                        assert(nm[a as int] != nm[b as int]);
                    }
                    assert forall|i: int| 0 <= i < c.len() - 1 implies pair_edge(keys, #[trigger] c[i], c[i + 1]) by {
                        assert(g[m[i] as int].contains(m[i + 1]));
                    }
                    assert(g[m.last() as int].contains(m[0]));
                    assert(c.last() == nm[m.last() as int]);
                    assert(name_cycle(keys, c));
                }
            }
        }
        assert forall|k: int, i: int| 0 <= k < sorted.loops@.len() && 0 <= i < sorted.loops@[k].members@.len() implies (
        #[trigger] sorted.loops@[k].members@[i]) < n by {
            assert(loop_found(rows(adj@), sorted.loops@[k].members@));
        }
        assert forall|k: int| 0 <= k < sorted.loops@.len() implies name_cycle(keys, loop_names(nm, #[trigger] sorted.loops@[k].members@)) by {
            let g = rows(adj@);
            let m = sorted.loops@[k].members@;
            assert(loop_found(g, m));
            let c = loop_names(nm, m);
            assert forall|i: int, a: usize, b: usize| 0 <= i < m.len() && a == m[i] && (b as int) < n && g[a as int].contains(b) implies pair_edge(keys, nm[a as int], nm[b as int]) by {
                assert(edge_in_pairs(ids@, a, b, (ids@.len() / 2) as int));
                let p = choose|p: int| 0 <= p < (ids@.len() / 2) as int && #[trigger] ids@[2 * p] == a && ids@[2 * p + 1] == b;
                assert(keys[2 * p] == nm[a as int]);
                assert(keys[2 * p + 1] == nm[b as int]);
                assert(nm[a as int] != nm[b as int]);
            }
            assert forall|i: int| 0 <= i < c.len() - 1 implies pair_edge(keys, #[trigger] c[i], c[i + 1]) by {
                assert(g[m[i] as int].contains(m[i + 1]));
                assert((m[i + 1] as int) < n);
            }
            assert(g[m.last() as int].contains(m[0]));
            assert((m[0] as int) < n);
            assert(c.last() == nm[m.last() as int]);
            assert(name_cycle(keys, c));
        }
        let order = sorted.order@;
        assert forall|k: int| 0 <= k < keys.len() implies #[trigger] out.contains(keys[k]) by {
            let j = ids@[k];
            assert(occurs(order, j as int, n as int));
            let i = choose|i: int| 0 <= i < n && #[trigger] order[i] == j;
            assert(out[i] == keys[k]);
        }
        assert forall|i: int| 0 <= i < out.len() implies #[trigger] keys.contains(out[i]) by {
            let j = order[i];
            assert(occurs(ids@, j as int, ids@.len() as int));
            let k = choose|k: int| 0 <= k < ids@.len() && #[trigger] ids@[k] == j;
            assert(keys[k] == out[i]);
        }
        if sorted.loops@.len() == 0 {
            assert forall|k: int| 0 <= k < keys.len() / 2 && keys[2 * k] != keys[2 * k + 1] implies #[trigger] precedes(
                out,
                keys[2 * k],
                keys[2 * k + 1],
            ) by {
                let u = ids@[2 * k];
                let v = ids@[2 * k + 1];
                assert(u != v);
                assert(edge_in_pairs(ids@, u, v, (ids@.len() / 2) as int));
                assert(rows(adj@)[u as int].contains(v));
                assert(occurs(order, v as int, n as int));
                let i = choose|i: int| 0 <= i < n && #[trigger] order[i] == v;
                assert(occurs(order, u as int, i));
                let j = choose|j: int| 0 <= j < i && #[trigger] order[j] == u;
                assert(out[j] == keys[2 * k] && out[i] == keys[2 * k + 1]);
            }
        }
        assert forall|k: int| 0 <= k < sorted.loops@.len() implies distinct((#[trigger] sorted.loops@[k]).members@) by {
            assert(loop_found(rows(adj@), sorted.loops@[k].members@));
        }
        assert(interned(keys, nm, ids@));
        assert(sorted.order@ == kahn_queue(pair_graph(ids@, nm.len(), (ids@.len() / 2) as int), sorted.order@, loop_breaks(sorted.loops@), nm.len() as int));
    }
    TsortOutcome { odd_tokens: false, names, order: sorted.order, loops: sorted.loops }
}

/// The exit status of a sort: 1 when the input had an odd number of tokens or
/// a loop, else 0.
pub fn exit_status(r: &TsortOutcome) -> (code: i32)
    ensures
        code == if r.odd_tokens || r.loops@.len() > 0 { 1i32 } else { 0i32 },
{
    if r.odd_tokens || r.loops.len() > 0 {
        1
    } else {
        0
    }
}

} // verus!
