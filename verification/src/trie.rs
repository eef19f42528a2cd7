//! The prefix trie: a character-indexed tree kept in an arena of nodes
//! addressed by index. Each node holds an order-preserving content list
//! capped at ten entries; a node's list holds the contents whose full
//! normalized insertion key spells exactly the path from the root to that
//! node.
//!
//! Insertion normalizes its text (a no-op on already-normalized text);
//! search expects an already-normalized prefix.

use vstd::prelude::*;

use crate::text::copy_chars;
use crate::text::dv;
use crate::text::normalize_chars;
use crate::text::normalize_spec;

verus! {

/// One trie node: outgoing edges (character to child index) in insertion
/// order, and the content list, in insertion order.
pub struct TrieNode {
    pub children: Vec<(char, usize)>,
    pub contents: Vec<Vec<char>>,
}

/// A trie: an arena of nodes; the root is node 0, and every edge points to a
/// strictly larger index, so the arena is acyclic.
pub struct PrefixTrie {
    pub nodes: Vec<TrieNode>,
}

/// Well-formedness: the root exists, every edge target lies strictly between
/// its source and the arena length, no node is the target of two edges (the
/// arena is a tree), no node has two edges for one character, and no content
/// list exceeds the cap of ten entries.
pub open spec fn trie_wf(t: PrefixTrie) -> bool {
    &&& t.nodes@.len() >= 1
    &&& forall|i: int, m: int|
        0 <= i < t.nodes@.len() && 0 <= m < t.nodes@[i].children@.len() ==> i < (
        #[trigger] t.nodes@[i].children@[m]).1 < t.nodes@.len()
    &&& forall|a1: int, m1: int, a2: int, m2: int|
        0 <= a1 < t.nodes@.len() && 0 <= m1 < t.nodes@[a1].children@.len() && 0 <= a2
            < t.nodes@.len() && 0 <= m2 < t.nodes@[a2].children@.len() && (
        #[trigger] t.nodes@[a1].children@[m1]).1 == (#[trigger] t.nodes@[a2].children@[m2]).1 ==> a1
            == a2 && m1 == m2
    &&& forall|a: int, m1: int, m2: int|
        0 <= a < t.nodes@.len() && 0 <= m1 < m2 < t.nodes@[a].children@.len() ==> (
        #[trigger] t.nodes@[a].children@[m1]).0 != (#[trigger] t.nodes@[a].children@[m2]).0
    &&& forall|i: int| 0 <= i < t.nodes@.len() ==> (#[trigger] t.nodes@[i]).contents@.len() <= 10
}

/// A freshly created trie: a lone root with no edges and no contents.
pub open spec fn is_empty_trie(t: PrefixTrie) -> bool {
    &&& t.nodes@.len() == 1
    &&& t.nodes@[0].children@.len() == 0
    &&& t.nodes@[0].contents@.len() == 0
}

/// The target of the first edge labelled `c` at or after position `m`.
pub open spec fn child_from(ch: Seq<(char, usize)>, m: int, c: char) -> Option<int>
    decreases ch.len() - m,
{
    if m < 0 || m >= ch.len() {
        None
    } else if ch[m].0 == c {
        Some(ch[m].1 as int)
    } else {
        child_from(ch, m + 1, c)
    }
}

/// The child of node `i` along character `c`, if any.
pub open spec fn child_of(t: PrefixTrie, i: int, c: char) -> Option<int> {
    child_from(t.nodes@[i].children@, 0, c)
}

/// The node reached from node `i` by following `p` from position `d` on.
pub open spec fn node_at_from(t: PrefixTrie, i: int, p: Seq<char>, d: int) -> Option<int>
    decreases p.len() - d,
{
    if d < 0 || d >= p.len() {
        Some(i)
    } else {
        match child_of(t, i, p[d]) {
            Some(j) => node_at_from(t, j, p, d + 1),
            None => None,
        }
    }
}

/// The node whose path from the root spells `p`, if any.
pub open spec fn node_at(t: PrefixTrie, p: Seq<char>) -> Option<int> {
    node_at_from(t, 0, p, 0)
}

/// The content list of the node addressed by `p` (empty when no such node).
pub open spec fn contents_at(t: PrefixTrie, p: Seq<char>) -> Seq<Seq<char>> {
    match node_at(t, p) {
        Some(i) => if 0 <= i < t.nodes@.len() {
            dv(t.nodes@[i].contents@)
        } else {
            Seq::empty()
        },
        None => Seq::empty(),
    }
}

/// In a well-formed trie a child index lies strictly between its parent and
/// the arena length.
proof fn lemma_child_in_range(t: PrefixTrie, i: int, m: int, c: char, j: int)
    requires
        trie_wf(t),
        0 <= i < t.nodes@.len(),
        0 <= m <= t.nodes@[i].children@.len(),
        child_from(t.nodes@[i].children@, m, c) == Some(j),
    ensures
        i < j < t.nodes@.len(),
    decreases t.nodes@[i].children@.len() - m,
{
    let ch = t.nodes@[i].children@;
    if m < ch.len() && ch[m].0 == c {
        assert(t.nodes@[i].children@[m] == ch[m]);
    } else {
        lemma_child_in_range(t, i, m + 1, c, j);
    }
}

/// Appending an edge for `c` to a child list with no edge for `c` makes that
/// edge the one found.
proof fn lemma_child_push_found(ch: Seq<(char, usize)>, m: int, c: char, j: usize)
    requires
        0 <= m <= ch.len(),
        child_from(ch, m, c) is None,
    ensures
        child_from(ch.push((c, j)), m, c) == Some(j as int),
    decreases ch.len() - m,
{
    if m < ch.len() {
        lemma_child_push_found(ch, m + 1, c, j);
    } else {
        assert(ch.push((c, j))[m] == (c, j));
    }
}

/// When nothing is found for `c`, no listed edge carries `c`.
proof fn lemma_child_none_no_edge(ch: Seq<(char, usize)>, m: int, c: char)
    requires
        0 <= m <= ch.len(),
        child_from(ch, m, c) is None,
    ensures
        forall|n: int| m <= n < ch.len() ==> (#[trigger] ch[n]).0 != c,
    decreases ch.len() - m,
{
    if m < ch.len() {
        lemma_child_none_no_edge(ch, m + 1, c);
    }
}

/// Appending an edge for a different character does not change what is
/// found for `x`.
proof fn lemma_child_push_other(ch: Seq<(char, usize)>, m: int, c: char, x: char, j: usize)
    requires
        0 <= m <= ch.len(),
        x != c,
    ensures
        child_from(ch.push((c, j)), m, x) == child_from(ch, m, x),
    decreases ch.len() - m,
{
    if m < ch.len() {
        lemma_child_push_other(ch, m + 1, c, x, j);
    } else {
        assert(ch.push((c, j))[m] == (c, j));
        assert(child_from(ch.push((c, j)), m + 1, x) is None);
    }
}

/// A walk that ends somewhere ends at a node of the arena.
proof fn lemma_node_at_in_range(t: PrefixTrie, j: int, p: Seq<char>, d: int)
    requires
        trie_wf(t),
        0 <= j < t.nodes@.len(),
    ensures
        match node_at_from(t, j, p, d) {
            Some(n) => 0 <= n < t.nodes@.len(),
            None => true,
        },
    decreases p.len() - d,
{
    if !(d < 0 || d >= p.len()) {
        match child_of(t, j, p[d]) {
            Some(ch) => {
                lemma_child_in_range(t, j, 0, p[d], ch);
                lemma_node_at_in_range(t, ch, p, d + 1);
            },
            None => {},
        }
    }
}

/// What `child_from` finds is one of the listed edges.
proof fn lemma_child_is_edge(ch: Seq<(char, usize)>, m: int, c: char, j: int)
    requires
        0 <= m <= ch.len(),
        child_from(ch, m, c) == Some(j),
    ensures
        exists|n: int| m <= n < ch.len() && (#[trigger] ch[n]).0 == c && ch[n].1 as int == j,
    decreases ch.len() - m,
{
    if m < ch.len() && ch[m].0 == c {
        assert(ch[m].0 == c && ch[m].1 as int == j);
    } else {
        lemma_child_is_edge(ch, m + 1, c, j);
    }
}

/// A nonempty walk ends by taking an edge for its last character from the
/// node its shortened form reaches.
proof fn lemma_last_step(t: PrefixTrie, j: int, p: Seq<char>, d: int, n: int)
    requires
        trie_wf(t),
        0 <= j < t.nodes@.len(),
        0 <= d < p.len(),
        node_at_from(t, j, p, d) == Some(n),
    ensures
        exists|par: int|
            0 <= par < t.nodes@.len() && #[trigger] node_at_from(t, j, p.drop_last(), d) == Some(
                par,
            ) && child_of(t, par, p.last()) == Some(n),
    decreases p.len() - d,
{
    let c = p[d];
    let ch = choose|ch: int| child_of(t, j, c) == Some(ch);
    assert(child_of(t, j, c) == Some(ch));
    lemma_child_in_range(t, j, 0, c, ch);
    if d == p.len() - 1 {
        assert(node_at_from(t, ch, p, d + 1) == Some(ch));
        assert(n == ch);
        assert(d >= p.drop_last().len());
        assert(node_at_from(t, j, p.drop_last(), d) == Some(j));
        assert(p.last() == c);
    } else {
        lemma_last_step(t, ch, p, d + 1, n);
        let par = choose|par: int|
            0 <= par < t.nodes@.len() && #[trigger] node_at_from(t, ch, p.drop_last(), d + 1)
                == Some(par) && child_of(t, par, p.last()) == Some(n);
        assert(p.drop_last()[d] == c);
        assert(node_at_from(t, j, p.drop_last(), d) == node_at_from(t, ch, p.drop_last(), d + 1));
    }
}

/// In a well-formed trie (a tree), distinct paths address distinct nodes:
/// each node is reached by exactly one path.
pub proof fn lemma_node_at_inj(t: PrefixTrie, p1: Seq<char>, p2: Seq<char>)
    requires
        trie_wf(t),
        node_at(t, p1) is Some,
        node_at(t, p1) == node_at(t, p2),
    ensures
        p1 == p2,
    decreases p1.len(),
{
    let n = node_at(t, p1)->0;
    if p1.len() == 0 && p2.len() == 0 {
        assert(p1 =~= p2);
    } else if p1.len() == 0 {
        assert(n == 0);
        lemma_last_step(t, 0, p2, 0, 0int);
        let par = choose|par: int|
            0 <= par < t.nodes@.len() && #[trigger] node_at_from(t, 0, p2.drop_last(), 0) == Some(
                par,
            ) && child_of(t, par, p2.last()) == Some(0int);
        lemma_child_in_range(t, par, 0, p2.last(), 0);
        assert(false);
    } else if p2.len() == 0 {
        assert(n == 0);
        lemma_last_step(t, 0, p1, 0, 0int);
        let par = choose|par: int|
            0 <= par < t.nodes@.len() && #[trigger] node_at_from(t, 0, p1.drop_last(), 0) == Some(
                par,
            ) && child_of(t, par, p1.last()) == Some(0int);
        lemma_child_in_range(t, par, 0, p1.last(), 0);
        assert(false);
    } else {
        lemma_last_step(t, 0, p1, 0, n);
        lemma_last_step(t, 0, p2, 0, n);
        let par1 = choose|par: int|
            0 <= par < t.nodes@.len() && #[trigger] node_at_from(t, 0, p1.drop_last(), 0) == Some(
                par,
            ) && child_of(t, par, p1.last()) == Some(n);
        let par2 = choose|par: int|
            0 <= par < t.nodes@.len() && #[trigger] node_at_from(t, 0, p2.drop_last(), 0) == Some(
                par,
            ) && child_of(t, par, p2.last()) == Some(n);
        lemma_child_is_edge(t.nodes@[par1].children@, 0, p1.last(), n);
        lemma_child_is_edge(t.nodes@[par2].children@, 0, p2.last(), n);
        let m1 = choose|m: int|
            0 <= m < t.nodes@[par1].children@.len() && (#[trigger] t.nodes@[par1].children@[m]).0
                == p1.last() && t.nodes@[par1].children@[m].1 as int == n;
        let m2 = choose|m: int|
            0 <= m < t.nodes@[par2].children@.len() && (#[trigger] t.nodes@[par2].children@[m]).0
                == p2.last() && t.nodes@[par2].children@[m].1 as int == n;
        assert((t.nodes@[par1].children@[m1]).1 == (t.nodes@[par2].children@[m2]).1);
        assert(par1 == par2 && m1 == m2);
        assert(p1.last() == p2.last());
        lemma_node_at_inj(t, p1.drop_last(), p2.drop_last());
        assert(p1 =~= p1.drop_last().push(p1.last()));
        assert(p2 =~= p2.drop_last().push(p2.last()));
        assert(p1 == p2);
    }
}

/// The contents seen from node `j` at the path suffix starting at `d`
/// (empty when the walk fails or leaves the arena).
spec fn contents_from(t: PrefixTrie, j: int, p: Seq<char>, d: int) -> Seq<Seq<char>> {
    match node_at_from(t, j, p, d) {
        Some(n) => if 0 <= n < t.nodes@.len() {
            dv(t.nodes@[n].contents@)
        } else {
            Seq::empty()
        },
        None => Seq::empty(),
    }
}

/// Growing a fresh leaf (with an edge to it from node `i` for a character
/// `i` had no edge for) changes the contents seen along no path: the new
/// leaf's list is empty, exactly what the failed walk yielded before.
proof fn lemma_add_child_preserves(
    cur: PrefixTrie,
    cur2: PrefixTrie,
    i: int,
    c: char,
    fresh: usize,
    j: int,
    p: Seq<char>,
    d: int,
)
    requires
        trie_wf(cur),
        trie_wf(cur2),
        0 <= j < cur.nodes@.len(),
        0 <= i < fresh as int,
        fresh as int == cur.nodes@.len(),
        cur2.nodes@.len() == fresh as int + 1,
        forall|a: int| 0 <= a < fresh as int && a != i ==> #[trigger] cur2.nodes@[a] == cur.nodes@[a],
        cur2.nodes@[i].children@ == cur.nodes@[i].children@.push((c, fresh)),
        cur2.nodes@[i].contents@ == cur.nodes@[i].contents@,
        cur2.nodes@[fresh as int].children@.len() == 0,
        cur2.nodes@[fresh as int].contents@.len() == 0,
        child_of(cur, i, c) is None,
    ensures
        contents_from(cur2, j, p, d) == contents_from(cur, j, p, d),
    decreases p.len() - d,
{
    if d < 0 || d >= p.len() {
        if j == i {
            assert(dv(cur2.nodes@[j].contents@) =~= dv(cur.nodes@[j].contents@));
        } else {
            assert(cur2.nodes@[j] == cur.nodes@[j]);
        }
    } else {
        if j == i && p[d] == c {
            assert(child_of(cur, j, p[d]) is None);
            assert(contents_from(cur, j, p, d) =~= Seq::<Seq<char>>::empty());
            lemma_child_push_found(cur.nodes@[i].children@, 0, c, fresh);
            assert(child_of(cur2, j, p[d]) == Some(fresh as int));
            if d + 1 >= p.len() {
                assert(node_at_from(cur2, fresh as int, p, d + 1) == Some(fresh as int));
                assert(dv(cur2.nodes@[fresh as int].contents@) =~= Seq::<Seq<char>>::empty());
            } else {
                assert(child_of(cur2, fresh as int, p[d + 1]) is None);
                assert(node_at_from(cur2, fresh as int, p, d + 1) is None);
            }
        } else {
            if j == i {
                lemma_child_push_other(cur.nodes@[i].children@, 0, c, p[d], fresh);
                assert(child_of(cur2, j, p[d]) == child_of(cur, j, p[d]));
            } else {
                assert(cur2.nodes@[j] == cur.nodes@[j]);
                assert(child_of(cur2, j, p[d]) == child_of(cur, j, p[d]));
            }
            match child_of(cur, j, p[d]) {
                Some(ch) => {
                    lemma_child_in_range(cur, j, 0, p[d], ch);
                    lemma_add_child_preserves(cur, cur2, i, c, fresh, ch, p, d + 1);
                },
                None => {},
            }
        }
    }
}

/// Strictly increasing step by step means strictly increasing overall.
proof fn lemma_path_increasing(path: Seq<int>, m: int, d: int)
    requires
        0 <= m < d < path.len(),
        forall|x: int| 0 <= x < d ==> #[trigger] path[x] < path[x + 1],
    ensures
        path[m] < path[d],
    decreases d - m,
{
    if m + 1 < d {
        lemma_path_increasing(path, m + 1, d);
    }
}

/// A walk that follows the edges recorded in `path` for the first `d`
/// characters of `p` routes the whole lookup of `p` through `path[d]`.
proof fn lemma_path_routes(t: PrefixTrie, path: Seq<int>, p: Seq<char>, d: int)
    requires
        0 <= d < path.len(),
        path.len() <= p.len() + 1,
        path[0] == 0,
        forall|m: int|
            0 <= m < d ==> child_of(t, #[trigger] path[m], p[m]) == Some(path[m + 1]),
    ensures
        node_at(t, p) == node_at_from(t, path[d], p, d),
    decreases d,
{
    if d > 0 {
        lemma_path_routes(t, path, p, d - 1);
        assert(child_of(t, path[d - 1], p[d - 1]) == Some(path[d]));
    }
}

/// Two tries with identical edge structure address every path at the same
/// node.
proof fn lemma_node_at_same_children(t1: PrefixTrie, t2: PrefixTrie, i: int, p: Seq<char>, d: int)
    requires
        trie_wf(t1),
        0 <= i < t1.nodes@.len(),
        t1.nodes@.len() == t2.nodes@.len(),
        forall|j: int|
            0 <= j < t1.nodes@.len() ==> (#[trigger] t1.nodes@[j]).children@
                == t2.nodes@[j].children@,
    ensures
        node_at_from(t1, i, p, d) == node_at_from(t2, i, p, d),
    decreases p.len() - d,
{
    if !(d < 0 || d >= p.len()) {
        assert(child_of(t1, i, p[d]) == child_of(t2, i, p[d]));
        match child_of(t1, i, p[d]) {
            Some(j) => {
                lemma_child_in_range(t1, i, 0, p[d], j);
                lemma_node_at_same_children(t1, t2, j, p, d + 1);
            },
            None => {},
        }
    }
}

/// Cap enforcement: in a well-formed trie, the content list of any node —
/// hence of any inserted key's node — holds at most ten entries, so at most
/// the first ten inserts that reach a node are retained.
pub proof fn lemma_content_cap(t: PrefixTrie, p: Seq<char>)
    requires
        trie_wf(t),
    ensures
        contents_at(t, p).len() <= 10,
{
    match node_at(t, p) {
        Some(i) => {
            if 0 <= i < t.nodes@.len() {
                assert(t.nodes@[i].contents@.len() <= 10);
            }
        },
        None => {},
    }
}

/// Fold the content list `cs` from position `m` into the accumulator: each
/// content not already present is appended, until the accumulator holds
/// `limit` entries.
pub open spec fn push_contents(cs: Seq<Seq<char>>, m: int, acc: Seq<Seq<char>>, limit: int) -> Seq<
    Seq<char>,
>
    decreases cs.len() - m,
{
    if m < 0 || m >= cs.len() || acc.len() >= limit {
        acc
    } else {
        push_contents(
            cs,
            m + 1,
            if acc.contains(cs[m]) {
                acc
            } else {
                acc.push(cs[m])
            },
            limit,
        )
    }
}

/// Depth-first collection below node `i`: the node's own contents first,
/// then each child subtree in edge order, deduplicated and cut at `limit`.
pub open spec fn collect_node(t: PrefixTrie, i: int, acc: Seq<Seq<char>>, limit: int) -> Seq<
    Seq<char>,
>
    decreases t.nodes@.len() - i, t.nodes@[i].children@.len() + 1,
{
    if i < 0 || i >= t.nodes@.len() {
        acc
    } else {
        collect_kids(t, i, 0, push_contents(dv(t.nodes@[i].contents@), 0, acc, limit), limit)
    }
}

/// Fold the subtrees of node `i`'s children from edge position `m` on into
/// the accumulator, stopping once it holds `limit` entries.
pub open spec fn collect_kids(t: PrefixTrie, i: int, m: int, acc: Seq<Seq<char>>, limit: int) -> Seq<
    Seq<char>,
>
    decreases t.nodes@.len() - i, t.nodes@[i].children@.len() - m,
{
    if i < 0 || i >= t.nodes@.len() || m < 0 || m >= t.nodes@[i].children@.len() {
        acc
    } else if acc.len() >= limit {
        acc
    } else {
        let j = t.nodes@[i].children@[m].1 as int;
        let acc2 = if i < j < t.nodes@.len() {
            collect_node(t, j, acc, limit)
        } else {
            acc
        };
        collect_kids(t, i, m + 1, acc2, limit)
    }
}

/// What a prefix search returns: the depth-first collection below the node
/// addressed by `p`, empty when no node spells `p`.
pub open spec fn trie_search_spec(t: PrefixTrie, p: Seq<char>, limit: int) -> Seq<Seq<char>> {
    match node_at(t, p) {
        Some(i) => collect_node(t, i, Seq::empty(), limit),
        None => Seq::empty(),
    }
}

/// Scanning past edges whose characters all differ from `c` does not change
/// what is found.
proof fn lemma_child_skip(ch: Seq<(char, usize)>, m: int, c: char)
    requires
        0 <= m <= ch.len(),
        forall|n: int| 0 <= n < m ==> (#[trigger] ch[n]).0 != c,
    ensures
        child_from(ch, 0, c) == child_from(ch, m, c),
    decreases m,
{
    if m > 0 {
        lemma_child_skip(ch, m - 1, c);
    }
}

/// Two walks over suffixes that spell the same characters reach the same
/// node.
proof fn lemma_walk_agree(t: PrefixTrie, j: int, p1: Seq<char>, d1: int, p2: Seq<char>, d2: int)
    requires
        0 <= d1 <= p1.len(),
        0 <= d2 <= p2.len(),
        p1.len() - d1 == p2.len() - d2,
        forall|k: int| 0 <= k < p1.len() - d1 ==> #[trigger] p1[d1 + k] == p2[d2 + k],
    ensures
        node_at_from(t, j, p1, d1) == node_at_from(t, j, p2, d2),
    decreases p1.len() - d1,
{
    if d1 < p1.len() {
        assert(p1[d1 + 0] == p2[d2 + 0]);
        assert(p1[d1] == p2[d2]);
        assert forall|k: int| 0 <= k < p1.len() - (d1 + 1) implies #[trigger] p1[d1 + 1 + k]
            == p2[d2 + 1 + k] by {
            assert(p1[d1 + (k + 1)] == p2[d2 + (k + 1)]);
        }
        match child_of(t, j, p1[d1]) {
            Some(ch) => {
                lemma_walk_agree(t, ch, p1, d1 + 1, p2, d2 + 1);
            },
            None => {},
        }
    }
}

/// A walk splits at any midpoint: walk the piece up to `e`, then the rest.
proof fn lemma_walk_split(t: PrefixTrie, j: int, q: Seq<char>, d: int, e: int)
    requires
        0 <= d <= e <= q.len(),
    ensures
        node_at_from(t, j, q, d) == (match node_at_from(t, j, q.subrange(d, e), 0) {
            Some(mid) => node_at_from(t, mid, q, e),
            None => None,
        }),
    decreases e - d,
{
    if d == e {
        assert(q.subrange(d, e).len() == 0);
    } else {
        assert(q.subrange(d, e)[0] == q[d]);
        match child_of(t, j, q[d]) {
            Some(ch) => {
                lemma_walk_split(t, ch, q, d + 1, e);
                assert(q.subrange(d + 1, e) =~= q.subrange(d, e).subrange(1, e - d));
                lemma_walk_agree(t, ch, q.subrange(d, e), 1, q.subrange(d + 1, e), 0);
            },
            None => {},
        }
    }
}

/// Whether some path suffix `s` leads from node `i` to a node whose content
/// list holds `x`.
spec fn reaches_content(t: PrefixTrie, i: int, s: Seq<char>, x: Seq<char>) -> bool {
    match node_at_from(t, i, s, 0) {
        Some(n) => 0 <= n < t.nodes@.len() && dv(t.nodes@[n].contents@).contains(x),
        None => false,
    }
}

proof fn lemma_push_contents_sound(cs: Seq<Seq<char>>, m: int, acc: Seq<Seq<char>>, limit: int, x: Seq<char>)
    requires
        push_contents(cs, m, acc, limit).contains(x),
    ensures
        acc.contains(x) || cs.contains(x),
    decreases cs.len() - m,
{
    if !(m < 0 || m >= cs.len() || acc.len() >= limit) {
        let acc2 = if acc.contains(cs[m]) {
            acc
        } else {
            acc.push(cs[m])
        };
        lemma_push_contents_sound(cs, m + 1, acc2, limit, x);
        if acc2.contains(x) && !acc.contains(x) {
            let idx = choose|idx: int| 0 <= idx < acc2.len() && acc2[idx] == x;
            assert(idx == acc.len());
            assert(x == cs[m]);
        }
    }
}

proof fn lemma_collect_node_sound(t: PrefixTrie, i: int, acc: Seq<Seq<char>>, limit: int, x: Seq<char>)
    requires
        trie_wf(t),
        0 <= i < t.nodes@.len(),
        collect_node(t, i, acc, limit).contains(x),
    ensures
        acc.contains(x) || exists|s: Seq<char>| reaches_content(t, i, s, x),
    decreases t.nodes@.len() - i, t.nodes@[i].children@.len() + 1,
{
    let acc1 = push_contents(dv(t.nodes@[i].contents@), 0, acc, limit);
    lemma_collect_kids_sound(t, i, 0, acc1, limit, x);
    if acc1.contains(x) && !acc.contains(x) {
        lemma_push_contents_sound(dv(t.nodes@[i].contents@), 0, acc, limit, x);
        let s: Seq<char> = Seq::empty();
        assert(node_at_from(t, i, s, 0) == Some(i));
        assert(reaches_content(t, i, s, x));
    }
}

proof fn lemma_collect_kids_sound(t: PrefixTrie, i: int, m: int, acc: Seq<Seq<char>>, limit: int, x: Seq<char>)
    requires
        trie_wf(t),
        0 <= i < t.nodes@.len(),
        collect_kids(t, i, m, acc, limit).contains(x),
    ensures
        acc.contains(x) || exists|s: Seq<char>| reaches_content(t, i, s, x),
    decreases t.nodes@.len() - i, t.nodes@[i].children@.len() - m,
{
    if !(m < 0 || m >= t.nodes@[i].children@.len() || acc.len() >= limit) {
        let c = t.nodes@[i].children@[m].0;
        let j = t.nodes@[i].children@[m].1 as int;
        assert(i < j < t.nodes@.len());
        let acc2 = collect_node(t, j, acc, limit);
        lemma_collect_kids_sound(t, i, m + 1, acc2, limit, x);
        if acc2.contains(x) && !acc.contains(x) {
            lemma_collect_node_sound(t, j, acc, limit, x);
            let s2 = choose|s2: Seq<char>| reaches_content(t, j, s2, x);
            let s = seq![c] + s2;
            assert forall|n: int| 0 <= n < m implies (#[trigger] t.nodes@[i].children@[n]).0
                != c by {}
            lemma_child_skip(t.nodes@[i].children@, m, c);
            assert(child_of(t, i, c) == Some(j));
            assert(s[0] == c);
            assert forall|k: int| 0 <= k < s.len() - 1 implies #[trigger] s[1 + k] == s2[k] by {}
            lemma_walk_agree(t, j, s, 1, s2, 0);
            assert(node_at_from(t, i, s, 0) == node_at_from(t, j, s, 1));
            assert(reaches_content(t, i, s, x));
        }
    }
}

proof fn lemma_push_contents_extends(cs: Seq<Seq<char>>, m: int, acc: Seq<Seq<char>>, limit: int)
    ensures
        acc.is_prefix_of(push_contents(cs, m, acc, limit)),
    decreases cs.len() - m,
{
    if !(m < 0 || m >= cs.len() || acc.len() >= limit) {
        let acc2 = if acc.contains(cs[m]) {
            acc
        } else {
            acc.push(cs[m])
        };
        lemma_push_contents_extends(cs, m + 1, acc2, limit);
        let r = push_contents(cs, m, acc, limit);
        assert(acc2 =~= r.subrange(0, acc2.len() as int));
        assert(acc =~= r.subrange(0, acc.len() as int));
    }
}

proof fn lemma_collect_node_extends(t: PrefixTrie, i: int, acc: Seq<Seq<char>>, limit: int)
    ensures
        acc.is_prefix_of(collect_node(t, i, acc, limit)),
    decreases t.nodes@.len() - i, t.nodes@[i].children@.len() + 1,
{
    if !(i < 0 || i >= t.nodes@.len()) {
        let acc1 = push_contents(dv(t.nodes@[i].contents@), 0, acc, limit);
        lemma_push_contents_extends(dv(t.nodes@[i].contents@), 0, acc, limit);
        lemma_collect_kids_extends(t, i, 0, acc1, limit);
        let r = collect_node(t, i, acc, limit);
        assert(acc1 =~= r.subrange(0, acc1.len() as int));
        assert(acc =~= r.subrange(0, acc.len() as int));
    } else {
        assert(acc =~= collect_node(t, i, acc, limit).subrange(0, acc.len() as int));
    }
}

proof fn lemma_collect_kids_extends(t: PrefixTrie, i: int, m: int, acc: Seq<Seq<char>>, limit: int)
    ensures
        acc.is_prefix_of(collect_kids(t, i, m, acc, limit)),
    decreases t.nodes@.len() - i, t.nodes@[i].children@.len() - m,
{
    if !(i < 0 || i >= t.nodes@.len() || m < 0 || m >= t.nodes@[i].children@.len()) {
        if acc.len() < limit {
            let j = t.nodes@[i].children@[m].1 as int;
            let acc2 = if i < j < t.nodes@.len() {
                collect_node(t, j, acc, limit)
            } else {
                acc
            };
            if i < j < t.nodes@.len() {
                lemma_collect_node_extends(t, j, acc, limit);
            }
            lemma_collect_kids_extends(t, i, m + 1, acc2, limit);
            let r = collect_kids(t, i, m, acc, limit);
            assert(acc2 =~= r.subrange(0, acc2.len() as int));
            assert(acc =~= r.subrange(0, acc.len() as int));
        } else {
            assert(acc =~= collect_kids(t, i, m, acc, limit).subrange(0, acc.len() as int));
        }
    } else {
        assert(acc =~= collect_kids(t, i, m, acc, limit).subrange(0, acc.len() as int));
    }
}

/// Own contents come before descendants: the addressed node's own content
/// list — deduplicated, in insertion order, cut at the limit — is a prefix
/// of what the search returns.
pub proof fn lemma_own_contents_first(t: PrefixTrie, p: Seq<char>, limit: int)
    requires
        node_at(t, p) is Some,
    ensures
        push_contents(contents_at(t, p), 0, Seq::empty(), limit).is_prefix_of(
            trie_search_spec(t, p, limit),
        ),
{
    let i = node_at(t, p)->0;
    if 0 <= i < t.nodes@.len() {
        lemma_collect_kids_extends(
            t,
            i,
            0,
            push_contents(dv(t.nodes@[i].contents@), 0, Seq::empty(), limit),
            limit,
        );
    } else {
        assert(contents_at(t, p) =~= Seq::<Seq<char>>::empty());
        let e = push_contents(Seq::<Seq<char>>::empty(), 0, Seq::<Seq<char>>::empty(), limit);
        assert(e =~= Seq::<Seq<char>>::empty());
        assert(e =~= trie_search_spec(t, p, limit).subrange(0, 0));
    }
}

/// Soundness of the prefix search: everything it returns is stored in the
/// trie under some path extending the prefix.
pub proof fn lemma_search_sound(t: PrefixTrie, p: Seq<char>, limit: int, x: Seq<char>)
    requires
        trie_wf(t),
        trie_search_spec(t, p, limit).contains(x),
    ensures
        exists|q: Seq<char>| p.is_prefix_of(q) && contents_at(t, q).contains(x),
{
    match node_at(t, p) {
        Some(i) => {
            lemma_node_at_in_range(t, 0, p, 0);
            lemma_collect_node_sound(t, i, Seq::empty(), limit, x);
            let s = choose|s: Seq<char>| reaches_content(t, i, s, x);
            let q = p + s;
            assert(q.subrange(0, p.len() as int) =~= p);
            lemma_walk_split(t, 0, q, 0, p.len() as int);
            assert(node_at_from(t, 0, q.subrange(0, p.len() as int), 0) == Some(i));
            assert forall|k: int| 0 <= k < q.len() - p.len() implies #[trigger] q[p.len() + k]
                == s[k] by {}
            lemma_walk_agree(t, i, q, p.len() as int, s, 0);
            assert(node_at(t, q) == node_at_from(t, i, s, 0));
            assert(contents_at(t, q).contains(x));
            assert(p.is_prefix_of(q));
        },
        None => {},
    }
}

/// No content occurs twice in the sequence.
pub open spec fn all_distinct(s: Seq<Seq<char>>) -> bool {
    forall|i: int, j: int| 0 <= i < j < s.len() ==> s[i] != s[j]
}

proof fn lemma_push_contents_props(cs: Seq<Seq<char>>, m: int, acc: Seq<Seq<char>>, limit: int)
    requires
        acc.len() <= limit,
        all_distinct(acc),
    ensures
        push_contents(cs, m, acc, limit).len() <= limit,
        all_distinct(push_contents(cs, m, acc, limit)),
    decreases cs.len() - m,
{
    if !(m < 0 || m >= cs.len() || acc.len() >= limit) {
        let acc2 = if acc.contains(cs[m]) {
            acc
        } else {
            acc.push(cs[m])
        };
        if !acc.contains(cs[m]) {
            assert forall|i: int, j: int| 0 <= i < j < acc2.len() implies acc2[i] != acc2[j] by {
                if j == acc.len() {
                    if acc2[i] == cs[m] {
                        assert(acc.contains(cs[m]));
                    }
                }
            }
        }
        lemma_push_contents_props(cs, m + 1, acc2, limit);
    }
}

proof fn lemma_collect_node_props(t: PrefixTrie, i: int, acc: Seq<Seq<char>>, limit: int)
    requires
        acc.len() <= limit,
        all_distinct(acc),
    ensures
        collect_node(t, i, acc, limit).len() <= limit,
        all_distinct(collect_node(t, i, acc, limit)),
    decreases t.nodes@.len() - i, t.nodes@[i].children@.len() + 1,
{
    if !(i < 0 || i >= t.nodes@.len()) {
        lemma_push_contents_props(dv(t.nodes@[i].contents@), 0, acc, limit);
        lemma_collect_kids_props(
            t,
            i,
            0,
            push_contents(dv(t.nodes@[i].contents@), 0, acc, limit),
            limit,
        );
    }
}

proof fn lemma_collect_kids_props(t: PrefixTrie, i: int, m: int, acc: Seq<Seq<char>>, limit: int)
    requires
        acc.len() <= limit,
        all_distinct(acc),
    ensures
        collect_kids(t, i, m, acc, limit).len() <= limit,
        all_distinct(collect_kids(t, i, m, acc, limit)),
    decreases t.nodes@.len() - i, t.nodes@[i].children@.len() - m,
{
    if !(i < 0 || i >= t.nodes@.len() || m < 0 || m >= t.nodes@[i].children@.len()) {
        if acc.len() < limit {
            let j = t.nodes@[i].children@[m].1 as int;
            let acc2 = if i < j < t.nodes@.len() {
                collect_node(t, j, acc, limit)
            } else {
                acc
            };
            if i < j < t.nodes@.len() {
                lemma_collect_node_props(t, j, acc, limit);
            }
            lemma_collect_kids_props(t, i, m + 1, acc2, limit);
        }
    }
}

/// A prefix search returns at most `limit` entries, and no content more
/// than once.
pub proof fn lemma_search_bounds(t: PrefixTrie, p: Seq<char>, limit: int)
    requires
        limit >= 0,
    ensures
        trie_search_spec(t, p, limit).len() <= limit,
        all_distinct(trie_search_spec(t, p, limit)),
{
    match node_at(t, p) {
        Some(i) => {
            lemma_collect_node_props(t, i, Seq::empty(), limit);
        },
        None => {},
    }
}

/// Whether the collection already holds `x`.
fn contains_vec(rs: &Vec<Vec<char>>, x: &Vec<char>) -> (b: bool)
    ensures
        b == dv(rs@).contains(x@),
{
    let mut m: usize = 0;
    while m < rs.len()
        invariant
            0 <= m <= rs@.len(),
            forall|j: int| 0 <= j < m ==> (#[trigger] rs@[j])@ != x@,
        decreases rs@.len() - m,
    {
        if crate::text::chars_eq(&rs[m], x) {
            proof {
                assert(dv(rs@)[m as int] == x@);
            }
            return true;
        }
        m = m + 1;
    }
    proof {
        assert forall|j: int| 0 <= j < dv(rs@).len() implies dv(rs@)[j] != x@ by {
            assert(dv(rs@)[j] == rs@[j]@);
        }
    }
    false
}

/// The first edge for `c`, scanning a node's child list in order.
fn find_child(node: &TrieNode, c: char) -> (r: Option<usize>)
    ensures
        match r {
            Some(j) => child_from(node.children@, 0, c) == Some(j as int),
            None => child_from(node.children@, 0, c) is None,
        },
{
    let mut m: usize = 0;
    while m < node.children.len()
        invariant
            0 <= m <= node.children@.len(),
            child_from(node.children@, 0, c) == child_from(node.children@, m as int, c),
        decreases node.children@.len() - m,
    {
        if node.children[m].0 == c {
            return Some(node.children[m].1);
        }
        m = m + 1;
    }
    None
}

impl PrefixTrie {
    /// Append a fresh node and an edge to it, labelled `c`, at node `i`,
    /// which must not yet have an edge for `c`.
    fn add_child(&mut self, i: usize, c: char) -> (fresh: usize)
        requires
            trie_wf(*old(self)),
            i < old(self).nodes@.len(),
            child_of(*old(self), i as int, c) is None,
        ensures
            trie_wf(*final(self)),
            fresh as int == old(self).nodes@.len(),
            final(self).nodes@.len() == old(self).nodes@.len() + 1,
            forall|j: int|
                0 <= j < old(self).nodes@.len() && j != i ==> #[trigger] final(self).nodes@[j]
                    == old(self).nodes@[j],
            final(self).nodes@[i as int].children@ == old(self).nodes@[i as int].children@.push(
                (c, fresh),
            ),
            final(self).nodes@[i as int].contents@ == old(self).nodes@[i as int].contents@,
            final(self).nodes@[fresh as int].children@.len() == 0,
            final(self).nodes@[fresh as int].contents@.len() == 0,
            child_of(*final(self), i as int, c) == Some(fresh as int),
    {
        let fresh: usize = self.nodes.len();
        self.nodes.push(TrieNode { children: Vec::new(), contents: Vec::new() });
        let ghost grown: Seq<TrieNode> = self.nodes@;
        let node = self.nodes.remove(i);
        let mut ch = node.children;
        ch.push((c, fresh));
        let node2 = TrieNode { children: ch, contents: node.contents };
        self.nodes.insert(i, node2);
        proof {
            let bn = old(self).nodes@;
            assert(self.nodes@ =~= grown.update(i as int, node2));
            assert(node2.children@ =~= bn[i as int].children@.push((c, fresh)));
            assert forall|a: int, m: int|
                0 <= a < self.nodes@.len() && 0 <= m < self.nodes@[a].children@.len() implies a < (
            #[trigger] self.nodes@[a].children@[m]).1 < self.nodes@.len() by {
                if a == i as int {
                    if m < bn[a].children@.len() {
                        assert(self.nodes@[a].children@[m] == bn[a].children@[m]);
                        assert(a < bn[a].children@[m].1 < bn.len());
                    } else {
                        assert(self.nodes@[a].children@[m] == (c, fresh));
                    }
                } else if a < bn.len() {
                    assert(self.nodes@[a] == bn[a]);
                    assert(a < bn[a].children@[m].1 < bn.len());
                }
            }
            assert forall|a: int|
                0 <= a < self.nodes@.len() implies (#[trigger] self.nodes@[a]).contents@.len()
                <= 10 by {
                if a == i as int {
                    assert(self.nodes@[a].contents@ == bn[a].contents@);
                } else if a < bn.len() {
                    assert(self.nodes@[a] == bn[a]);
                }
            }
            assert forall|a1: int, m1: int, a2: int, m2: int|
                0 <= a1 < self.nodes@.len() && 0 <= m1 < self.nodes@[a1].children@.len() && 0 <= a2
                    < self.nodes@.len() && 0 <= m2 < self.nodes@[a2].children@.len() && (
            #[trigger] self.nodes@[a1].children@[m1]).1 == (
            #[trigger] self.nodes@[a2].children@[m2]).1 implies a1 == a2 && m1 == m2 by {
                let old_edge1 = a1 < bn.len() && (a1 != i as int || m1 < bn[a1].children@.len());
                let old_edge2 = a2 < bn.len() && (a2 != i as int || m2 < bn[a2].children@.len());
                if old_edge1 {
                    if a1 == i as int {
                        assert(self.nodes@[a1].children@[m1] == bn[a1].children@[m1]);
                    } else {
                        assert(self.nodes@[a1] == bn[a1]);
                    }
                    assert(bn[a1].children@[m1].1 < bn.len());
                } else {
                    assert(self.nodes@[a1].children@[m1] == (c, fresh));
                }
                if old_edge2 {
                    if a2 == i as int {
                        assert(self.nodes@[a2].children@[m2] == bn[a2].children@[m2]);
                    } else {
                        assert(self.nodes@[a2] == bn[a2]);
                    }
                    assert(bn[a2].children@[m2].1 < bn.len());
                } else {
                    assert(self.nodes@[a2].children@[m2] == (c, fresh));
                }
                if old_edge1 && old_edge2 {
                    assert(bn[a1].children@[m1].1 == bn[a2].children@[m2].1);
                }
            }
            lemma_child_none_no_edge(bn[i as int].children@, 0, c);
            assert forall|a: int, m1: int, m2: int|
                0 <= a < self.nodes@.len() && 0 <= m1 < m2 < self.nodes@[a].children@.len() implies
                (#[trigger] self.nodes@[a].children@[m1]).0 != (
            #[trigger] self.nodes@[a].children@[m2]).0 by {
                if a == i as int {
                    if m2 < bn[a].children@.len() {
                        assert(self.nodes@[a].children@[m1] == bn[a].children@[m1]);
                        assert(self.nodes@[a].children@[m2] == bn[a].children@[m2]);
                    } else {
                        assert(self.nodes@[a].children@[m1] == bn[a].children@[m1]);
                        assert(self.nodes@[a].children@[m2] == (c, fresh));
                    }
                } else if a < bn.len() {
                    assert(self.nodes@[a] == bn[a]);
                }
            }
            lemma_child_push_found(bn[i as int].children@, 0, c, fresh);
        }
        fresh
    }

    /// Append `content` to the list of node `i`, which must be below the cap.
    fn push_content(&mut self, i: usize, content: &Vec<char>)
        requires
            trie_wf(*old(self)),
            i < old(self).nodes@.len(),
            old(self).nodes@[i as int].contents@.len() < 10,
        ensures
            trie_wf(*final(self)),
            final(self).nodes@.len() == old(self).nodes@.len(),
            forall|j: int|
                0 <= j < old(self).nodes@.len() && j != i ==> #[trigger] final(self).nodes@[j]
                    == old(self).nodes@[j],
            final(self).nodes@[i as int].children@ == old(self).nodes@[i as int].children@,
            dv(final(self).nodes@[i as int].contents@) == dv(
                old(self).nodes@[i as int].contents@,
            ).push(content@),
    {
        let node = self.nodes.remove(i);
        let mut cs = node.contents;
        cs.push(copy_chars(content));
        let node2 = TrieNode { children: node.children, contents: cs };
        self.nodes.insert(i, node2);
        proof {
            let bn = old(self).nodes@;
            assert(self.nodes@ =~= bn.update(i as int, node2));
            assert(dv(self.nodes@[i as int].contents@) =~= dv(bn[i as int].contents@).push(
                content@,
            ));
            assert forall|a: int|
                0 <= a < self.nodes@.len() implies (#[trigger] self.nodes@[a]).contents@.len()
                <= 10 by {
                if a != i as int {
                    assert(self.nodes@[a] == bn[a]);
                }
            }
            assert forall|a: int, m: int|
                0 <= a < self.nodes@.len() && 0 <= m < self.nodes@[a].children@.len() implies a < (
            #[trigger] self.nodes@[a].children@[m]).1 < self.nodes@.len() by {
                if a == i as int {
                    assert(self.nodes@[a].children@ == bn[a].children@);
                    assert(a < bn[a].children@[m].1 < bn.len());
                } else {
                    assert(self.nodes@[a] == bn[a]);
                    assert(a < bn[a].children@[m].1 < bn.len());
                }
            }
            assert forall|a: int|
                0 <= a < self.nodes@.len() implies (#[trigger] self.nodes@[a]).children@
                == bn[a].children@ by {
                if a != i as int {
                    assert(self.nodes@[a] == bn[a]);
                }
            }
        }
    }

    /// An empty trie: a lone root node.
    pub fn new() -> (t: PrefixTrie)
        ensures
            trie_wf(t),
            is_empty_trie(t),
    {
        let root = TrieNode { children: Vec::new(), contents: Vec::new() };
        let mut nodes: Vec<TrieNode> = Vec::new();
        nodes.push(root);
        PrefixTrie { nodes }
    }

    /// Normalize `text`, then insert `content` under the normalized form.
    pub fn insert(&mut self, text: &Vec<char>, content: &Vec<char>)
        requires
            trie_wf(*old(self)),
        ensures
            trie_wf(*final(self)),
            node_at(*final(self), normalize_spec(text@)) is Some,
            contents_at(*final(self), normalize_spec(text@)) == (if contents_at(
                *old(self),
                normalize_spec(text@),
            ).len() < 10 {
                contents_at(*old(self), normalize_spec(text@)).push(content@)
            } else {
                contents_at(*old(self), normalize_spec(text@))
            }),
            forall|p: Seq<char>|
                p != normalize_spec(text@) ==> #[trigger] contents_at(*final(self), p)
                    == contents_at(*old(self), p),
    {
        let n = normalize_chars(text);
        self.insert_normalized(&n, content);
    }

    /// Walk (creating nodes as needed) the path spelled by `key`, which must
    /// already be normalized, and append `content` to the terminal node's
    /// list, unless that list already holds ten entries, in which case the
    /// insert is silently dropped.
    #[verifier::rlimit(100)]
    pub(crate) fn insert_normalized(&mut self, key: &Vec<char>, content: &Vec<char>)
        requires
            trie_wf(*old(self)),
        ensures
            trie_wf(*final(self)),
            node_at(*final(self), key@) is Some,
            contents_at(*final(self), key@) == (if contents_at(*old(self), key@).len() < 10 {
                contents_at(*old(self), key@).push(content@)
            } else {
                contents_at(*old(self), key@)
            }),
            forall|p: Seq<char>|
                p != key@ ==> #[trigger] contents_at(*final(self), p) == contents_at(
                    *old(self),
                    p,
                ),
    {
        let ghost orig: PrefixTrie = *old(self);
        let mut i: usize = 0;
        let mut d: usize = 0;
        let ghost mut path: Seq<int> = seq![0int];
        while d < key.len()
            invariant
                trie_wf(*self),
                trie_wf(orig),
                orig == *old(self),
                0 <= d <= key@.len(),
                i < self.nodes@.len(),
                path.len() == d + 1,
                path[0] == 0,
                path[d as int] == i as int,
                forall|m: int|
                    0 <= m < d ==> child_of(*self, #[trigger] path[m], key@[m]) == Some(
                        path[m + 1],
                    ),
                forall|m: int| 0 <= m < d ==> #[trigger] path[m] < path[m + 1],
                (*self == orig && node_at(orig, key@) == node_at_from(
                    orig,
                    i as int,
                    key@,
                    d as int,
                )) || (node_at(orig, key@) is None && self.nodes@.len() > orig.nodes@.len() && i
                    as int >= orig.nodes@.len() && (forall|j: int|
                    0 <= j < orig.nodes@.len() ==> (#[trigger] self.nodes@[j]).contents@
                        == orig.nodes@[j].contents@) && (forall|j: int|
                    orig.nodes@.len() <= j < self.nodes@.len()
                        ==> (#[trigger] self.nodes@[j]).contents@.len() == 0)),
                forall|p: Seq<char>| #[trigger] contents_at(*self, p) == contents_at(orig, p),
            decreases key@.len() - d,
        {
            let c = key[d];
            match find_child(&self.nodes[i], c) {
                Some(j) => {
                    proof {
                        lemma_child_in_range(*self, i as int, 0, c, j as int);
                        path = path.push(j as int);
                    }
                    i = j;
                },
                None => {
                    proof {
                        // Before growing, settle that the key was absent
                        // when the call began.
                        if *self == orig {
                            assert(node_at_from(orig, i as int, key@, d as int) is None);
                        }
                    }
                    let ghost before: PrefixTrie = *self;
                    let fresh = self.add_child(i, c);
                    proof {
                        assert forall|m: int| 0 <= m < d implies child_of(
                            *self,
                            #[trigger] path[m],
                            key@[m],
                        ) == Some(path[m + 1]) by {
                            lemma_path_increasing(path, m, d as int);
                            if m > 0 {
                                lemma_path_increasing(path, 0, m);
                            }
                            assert(0 <= path[m] < i as int);
                            assert(self.nodes@[path[m]] == before.nodes@[path[m]]);
                        }
                        assert forall|j: int|
                            0 <= j < orig.nodes@.len() implies (
                        #[trigger] self.nodes@[j]).contents@ == orig.nodes@[j].contents@ by {
                            if j == i as int {
                                assert(before.nodes@[j].contents@ == orig.nodes@[j].contents@);
                            } else {
                                assert(self.nodes@[j] == before.nodes@[j]);
                                assert(before.nodes@[j].contents@ == orig.nodes@[j].contents@);
                            }
                        }
                        assert forall|j: int|
                            orig.nodes@.len() <= j < self.nodes@.len() implies (
                        #[trigger] self.nodes@[j]).contents@.len() == 0 by {
                            if j < before.nodes@.len() {
                                if j != i as int {
                                    assert(self.nodes@[j] == before.nodes@[j]);
                                }
                            }
                        }
                        assert forall|p: Seq<char>| #[trigger] contents_at(*self, p)
                            == contents_at(orig, p) by {
                            lemma_add_child_preserves(before, *self, i as int, c, fresh, 0, p, 0);
                            assert(contents_from(*self, 0, p, 0) == contents_at(*self, p));
                            assert(contents_from(before, 0, p, 0) == contents_at(before, p));
                        }
                        path = path.push(fresh as int);
                    }
                    i = fresh;
                },
            }
            d = d + 1;
        }
        proof {
            lemma_path_routes(*self, path, key@, d as int);
            assert(node_at(*self, key@) == Some(i as int));
        }
        let ghost walked: PrefixTrie = *self;
        let ghost old_contents: Seq<Seq<char>> = contents_at(orig, key@);
        proof {
            assert(forall|p: Seq<char>| #[trigger] contents_at(walked, p) == contents_at(orig, p));
        }
        proof {
            if walked == orig {
                assert(old_contents == dv(walked.nodes@[i as int].contents@));
            } else {
                assert(node_at(orig, key@) is None);
                assert(old_contents =~= Seq::<Seq<char>>::empty());
                assert(walked.nodes@[i as int].contents@.len() == 0);
                assert(old_contents =~= dv(walked.nodes@[i as int].contents@));
            }
            assert(old_contents == dv(walked.nodes@[i as int].contents@));
            assert(old_contents.len() == walked.nodes@[i as int].contents@.len());
        }
        if self.nodes[i].contents.len() < 10 {
            self.push_content(i, content);
            proof {
                assert forall|j: int|
                    0 <= j < walked.nodes@.len() implies (#[trigger] walked.nodes@[j]).children@
                    == self.nodes@[j].children@ by {
                    if j != i as int {
                        assert(self.nodes@[j] == walked.nodes@[j]);
                    }
                }
                lemma_node_at_same_children(walked, *self, 0, key@, 0);
                assert(node_at(*self, key@) == Some(i as int));
                assert(contents_at(*self, key@) == old_contents.push(content@));
                assert forall|p: Seq<char>| p != key@ implies #[trigger] contents_at(*self, p)
                    == contents_at(orig, p) by {
                    lemma_node_at_same_children(walked, *self, 0, p, 0);
                    match node_at(walked, p) {
                        Some(n) => {
                            lemma_node_at_in_range(walked, 0, p, 0);
                            if n == i as int {
                                lemma_node_at_inj(walked, p, key@);
                            }
                            assert(n != i as int);
                            assert(self.nodes@[n] == walked.nodes@[n]);
                            assert(contents_at(*self, p) == contents_at(walked, p));
                        },
                        None => {
                            assert(node_at(*self, p) is None);
                            assert(contents_at(*self, p) == contents_at(walked, p));
                        },
                    }
                    assert(contents_at(walked, p) == contents_at(orig, p));
                }
            }
        } else {
            proof {
                assert(contents_at(*self, key@) == old_contents);
                assert(old_contents.len() >= 10);
            }
        }
    }

    /// Depth-first collection below node `i` into `results`: own contents
    /// first, then each child subtree in edge order, skipping contents
    /// already collected and stopping at `limit` entries.
    fn collect(&self, i: usize, results: &mut Vec<Vec<char>>, limit: usize)
        requires
            trie_wf(*self),
            i < self.nodes@.len(),
        ensures
            dv(final(results)@) == collect_node(*self, i as int, dv(old(results)@), limit as int),
        decreases self.nodes@.len() - i,
    {
        let ghost t: PrefixTrie = *self;
        let ghost acc0: Seq<Seq<char>> = dv(old(results)@);
        let ghost cs: Seq<Seq<char>> = dv(self.nodes@[i as int].contents@);
        let mut m: usize = 0;
        while m < self.nodes[i].contents.len()
            invariant
                trie_wf(t),
                t == *self,
                i < t.nodes@.len(),
                cs == dv(t.nodes@[i as int].contents@),
                acc0 == dv(old(results)@),
                0 <= m <= cs.len(),
                push_contents(cs, 0, acc0, limit as int) == push_contents(
                    cs,
                    m as int,
                    dv(results@),
                    limit as int,
                ),
            decreases cs.len() - m,
        {
            if results.len() >= limit {
                proof {
                    assert(push_contents(cs, m as int, dv(results@), limit as int) == dv(
                        results@,
                    ));
                    assert(collect_kids(t, i as int, 0, dv(results@), limit as int) == dv(
                        results@,
                    ));
                }
                return ;
            }
            proof {
                assert(cs[m as int] == t.nodes@[i as int].contents@[m as int]@);
            }
            if !contains_vec(results, &self.nodes[i].contents[m]) {
                let ghost accb: Seq<Seq<char>> = dv(results@);
                let c = copy_chars(&self.nodes[i].contents[m]);
                results.push(c);
                proof {
                    assert(dv(results@) =~= accb.push(cs[m as int]));
                }
            }
            m = m + 1;
        }
        proof {
            assert(push_contents(cs, m as int, dv(results@), limit as int) == dv(results@));
        }
        let ghost acc1: Seq<Seq<char>> = dv(results@);
        let mut k: usize = 0;
        while k < self.nodes[i].children.len()
            invariant
                trie_wf(t),
                t == *self,
                i < t.nodes@.len(),
                acc0 == dv(old(results)@),
                acc1 == push_contents(dv(t.nodes@[i as int].contents@), 0, acc0, limit as int),
                0 <= k <= t.nodes@[i as int].children@.len(),
                collect_kids(t, i as int, 0, acc1, limit as int) == collect_kids(
                    t,
                    i as int,
                    k as int,
                    dv(results@),
                    limit as int,
                ),
            decreases t.nodes@[i as int].children@.len() - k,
        {
            if results.len() >= limit {
                proof {
                    assert(collect_kids(t, i as int, k as int, dv(results@), limit as int) == dv(
                        results@,
                    ));
                }
                return ;
            }
            let j = self.nodes[i].children[k].1;
            proof {
                assert(i < (t.nodes@[i as int].children@[k as int]).1 < t.nodes@.len());
            }
            self.collect(j, results, limit);
            k = k + 1;
        }
    }

    /// Walk the trie along `prefix`; when every character has an edge,
    /// return the depth-first collection below the reached node, at most
    /// `limit` entries; otherwise return nothing.
    ///
    /// Callers are expected to pass an already-normalized prefix.
    pub fn search(&self, prefix: &Vec<char>, limit: usize) -> (r: Vec<Vec<char>>)
        requires
            trie_wf(*self),
        ensures
            dv(r@) == trie_search_spec(*self, prefix@, limit as int),
    {
        let mut i: usize = 0;
        let mut d: usize = 0;
        while d < prefix.len()
            invariant
                trie_wf(*self),
                0 <= d <= prefix@.len(),
                i < self.nodes@.len(),
                node_at(*self, prefix@) == node_at_from(*self, i as int, prefix@, d as int),
            decreases prefix@.len() - d,
        {
            let c = prefix[d];
            match find_child(&self.nodes[i], c) {
                Some(j) => {
                    proof {
                        lemma_child_in_range(*self, i as int, 0, c, j as int);
                    }
                    i = j;
                },
                None => {
                    let r: Vec<Vec<char>> = Vec::new();
                    proof {
                        assert(node_at_from(*self, i as int, prefix@, d as int) is None);
                        assert(dv(r@) =~= Seq::<Seq<char>>::empty());
                    }
                    return r;
                },
            }
            d = d + 1;
        }
        let mut results: Vec<Vec<char>> = Vec::new();
        proof {
            assert(node_at(*self, prefix@) == Some(i as int));
            assert(dv(results@) =~= Seq::<Seq<char>>::empty());
        }
        self.collect(i, &mut results, limit);
        results
    }
}

} // verus!
