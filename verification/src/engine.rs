//! The matching engine: one exact index and one prefix trie. Inserts
//! populate both (the trie receives the leading words of the key and, for
//! short or email-like keys, the whole key); queries try the exact index
//! first and fall back to a guarded prefix search.

use vstd::prelude::*;

use crate::index::ExactIndex;
use crate::index::index_wf;
use crate::index::lookup_spec;
use crate::text::chars_contains;
use crate::text::chars_of;
use crate::text::chars_starts_with;
use crate::text::dv;
use crate::text::lower_chars;
use crate::text::lower_of;
use crate::text::normalize_chars;
use crate::text::normalize_spec;
use crate::text::string_of;
use crate::text::tokenize;
use crate::text::words_of;
use crate::trie::PrefixTrie;
use crate::trie::contents_at;
use crate::trie::is_empty_trie;
use crate::trie::lemma_search_sound;
use crate::trie::node_at;
use crate::trie::trie_search_spec;
use crate::trie::trie_wf;

verus! {

/// The kind of a match: the normalized query equalled a stored key, or was a
/// literal prefix of an indexed string.
#[derive(Clone, Copy, PartialEq, Eq, Structural, Debug)]
pub enum MatchKind {
    Exact,
    Prefix,
}

/// A confidence-scored search result. The confidence is a fixed scalar
/// assigned by rule — ten tenths for an exact match, nine for a prefix
/// match.
pub struct MatchResult {
    pub kind: MatchKind,
    pub confidence_tenths: u8,
    pub content: String,
}

/// The matching engine: an exact index and a prefix trie, nothing more.
pub struct FastPath {
    pub exact: ExactIndex,
    pub trie: PrefixTrie,
}

/// Both structures are well-formed.
pub open spec fn fp_wf(e: FastPath) -> bool {
    index_wf(e.exact) && trie_wf(e.trie)
}

/// A fully reset engine: no stored keys, a bare trie.
pub open spec fn is_empty_engine(e: FastPath) -> bool {
    e.exact.entries@.len() == 0 && is_empty_trie(e.trie)
}

/// What an insert does. To the exact index: the normalized key now maps to
/// the content, and every other key is untouched. To the trie: every node's
/// content list is the fold of one push-below-cap per inserted string equal
/// to its path, in insertion order — so nodes of unfed paths are unchanged,
/// each fed path receives the content while below the cap, and nothing is
/// ever removed.
pub open spec fn insert_post(pre: FastPath, post: FastPath, key: Seq<char>, content: Seq<
    char,
>) -> bool {
    &&& lookup_spec(post.exact, normalize_spec(key)) == Some(content)
    &&& forall|k2: Seq<char>|
        k2 != normalize_spec(key) ==> #[trigger] lookup_spec(post.exact, k2) == lookup_spec(
            pre.exact,
            k2,
        )
    &&& forall|p: Seq<char>|
        #[trigger] contents_at(post.trie, p) == fold_at(
            contents_at(pre.trie, p),
            inserted_keys(key),
            p,
            content,
        )
}

/// One trie insertion's effect on a node's content list: append unless the
/// list is already at the cap of ten.
pub open spec fn trie_push(cs: Seq<Seq<char>>, content: Seq<char>) -> Seq<Seq<char>> {
    if cs.len() < 10 {
        cs.push(content)
    } else {
        cs
    }
}

/// The qualifying tokens among the first `k` words: those longer than two
/// characters, in word order.
pub open spec fn token_terms_upto(ws: Seq<Seq<char>>, k: int) -> Seq<Seq<char>>
    decreases k,
{
    if k <= 0 {
        Seq::empty()
    } else {
        let prev = token_terms_upto(ws, k - 1);
        if 0 <= k - 1 < ws.len() && ws[k - 1].len() > 2 {
            prev.push(ws[k - 1])
        } else {
            prev
        }
    }
}

/// The strings an insert feeds to the trie, in the order they are fed:
/// among the first three words of the normalized key, those longer than two
/// characters; then the whole normalized key when it contains '@' or is
/// shorter than fifty characters. A short single-word key thus appears
/// twice.
pub open spec fn inserted_keys(key: Seq<char>) -> Seq<Seq<char>> {
    let n = normalize_spec(key);
    let ws = words_of(n);
    let count = if ws.len() < 3 {
        ws.len() as int
    } else {
        3
    };
    let toks = token_terms_upto(ws, count);
    if n.contains('@') || n.len() < 50 {
        toks.push(n)
    } else {
        toks
    }
}

/// What the sequence of trie insertions leaves at the node addressed by
/// `p`: starting from its old content list, one push-below-cap for each
/// inserted string equal to `p`, in order.
pub open spec fn fold_at(
    cs: Seq<Seq<char>>,
    terms: Seq<Seq<char>>,
    p: Seq<char>,
    content: Seq<char>,
) -> Seq<Seq<char>>
    decreases terms.len(),
{
    if terms.len() == 0 {
        cs
    } else {
        let cs2 = if terms[0] == p {
            trie_push(cs, content)
        } else {
            cs
        };
        fold_at(cs2, terms.drop_first(), p, content)
    }
}

/// Folding one more term at the end applies one more conditional push.
proof fn lemma_fold_snoc(
    cs: Seq<Seq<char>>,
    terms: Seq<Seq<char>>,
    t: Seq<char>,
    p: Seq<char>,
    content: Seq<char>,
)
    ensures
        fold_at(cs, terms.push(t), p, content) == (if t == p {
            trie_push(fold_at(cs, terms, p, content), content)
        } else {
            fold_at(cs, terms, p, content)
        }),
    decreases terms.len(),
{
    if terms.len() == 0 {
        let one = terms.push(t);
        assert(one[0] == t);
        assert(one.drop_first() =~= Seq::<Seq<char>>::empty());
        let cs2 = if t == p {
            trie_push(cs, content)
        } else {
            cs
        };
        assert(fold_at(cs2, one.drop_first(), p, content) == cs2);
        assert(fold_at(cs, one, p, content) == cs2);
        assert(fold_at(cs, terms, p, content) == cs);
    } else {
        assert(terms.push(t)[0] == terms[0]);
        assert(terms.push(t).drop_first() =~= terms.drop_first().push(t));
        let cs2 = if terms[0] == p {
            trie_push(cs, content)
        } else {
            cs
        };
        lemma_fold_snoc(cs2, terms.drop_first(), t, p, content);
    }
}

/// The fold never removes anything: the old content list stays a prefix of
/// the new one, so an insert evicts nothing anywhere in the trie.
pub proof fn lemma_fold_no_eviction(
    cs: Seq<Seq<char>>,
    terms: Seq<Seq<char>>,
    p: Seq<char>,
    content: Seq<char>,
)
    ensures
        cs.is_prefix_of(fold_at(cs, terms, p, content)),
    decreases terms.len(),
{
    if terms.len() == 0 {
        assert(cs =~= fold_at(cs, terms, p, content).subrange(0, cs.len() as int));
    } else {
        let cs2 = if terms[0] == p {
            trie_push(cs, content)
        } else {
            cs
        };
        lemma_fold_no_eviction(cs2, terms.drop_first(), p, content);
        let r = fold_at(cs, terms, p, content);
        assert(cs2 =~= r.subrange(0, cs2.len() as int));
        assert(cs =~= r.subrange(0, cs.len() as int));
    }
}

/// A fold over terms that never name `p` leaves the list as it was.
proof fn lemma_fold_absent(
    cs: Seq<Seq<char>>,
    terms: Seq<Seq<char>>,
    p: Seq<char>,
    content: Seq<char>,
)
    requires
        !terms.contains(p),
    ensures
        fold_at(cs, terms, p, content) == cs,
    decreases terms.len(),
{
    if terms.len() > 0 {
        assert(terms[0] != p);
        assert(!terms.drop_first().contains(p)) by {
            if terms.drop_first().contains(p) {
                let i = choose|i: int|
                    0 <= i < terms.drop_first().len() && terms.drop_first()[i] == p;
                assert(terms[i + 1] == p);
            }
        }
        lemma_fold_absent(cs, terms.drop_first(), p, content);
    }
}

/// A term that is fed to the trie ends with the content, unless its node's
/// list is full.
proof fn lemma_fold_applied(
    cs: Seq<Seq<char>>,
    terms: Seq<Seq<char>>,
    p: Seq<char>,
    content: Seq<char>,
)
    requires
        terms.contains(p),
    ensures
        fold_at(cs, terms, p, content).len() > 0,
        fold_at(cs, terms, p, content).last() == content || fold_at(
            cs,
            terms,
            p,
            content,
        ).len() >= 10,
    decreases terms.len(),
{
    let cs2 = if terms[0] == p {
        trie_push(cs, content)
    } else {
        cs
    };
    if terms.drop_first().contains(p) {
        lemma_fold_applied(cs2, terms.drop_first(), p, content);
    } else {
        assert(terms[0] == p) by {
            let i = choose|i: int| 0 <= i < terms.len() && terms[i] == p;
            if i > 0 {
                assert(terms.drop_first()[i - 1] == p);
            }
        }
        lemma_fold_absent(cs2, terms.drop_first(), p, content);
    }
}

/// What a search returns: the exact index is consulted first; on a miss,
/// queries of normalized length at least three fall back to the trie, whose
/// first collected entry answers only when its lowercase form begins with
/// the normalized query.
pub open spec fn search_spec(e: FastPath, q: Seq<char>) -> Option<(MatchKind, Seq<char>)> {
    let n = normalize_spec(q);
    match lookup_spec(e.exact, n) {
        Some(c) => Some((MatchKind::Exact, c)),
        None => if n.len() >= 3 {
            let rs = trie_search_spec(e.trie, n, 5);
            if rs.len() > 0 && n.is_prefix_of(lower_of(rs[0])) {
                Some((MatchKind::Prefix, rs[0]))
            } else {
                None
            }
        } else {
            None
        },
    }
}

impl FastPath {
    /// A fresh, empty engine.
    pub fn new() -> (e: FastPath)
        ensures
            fp_wf(e),
            is_empty_engine(e),
    {
        FastPath { exact: ExactIndex::new(), trie: PrefixTrie::new() }
    }

    /// Store `content` under `key`: the exact index maps the normalized key
    /// to the content (overwriting), and the trie is fed the first three
    /// words longer than two characters, plus the whole normalized key when
    /// it contains '@' or is shorter than fifty characters.
    pub fn insert(&mut self, key: String, content: String)
        requires
            fp_wf(*old(self)),
        ensures
            fp_wf(*final(self)),
            insert_post(*old(self), *final(self), key@, content@),
            final(self).exact.entries@.len() == (if lookup_spec(
                old(self).exact,
                normalize_spec(key@),
            ) is Some {
                old(self).exact.entries@.len()
            } else {
                old(self).exact.entries@.len() + 1
            }),
    {
        let ghost orig: FastPath = *old(self);
        let kc = chars_of(key.as_str());
        let cc = chars_of(content.as_str());
        let n = normalize_chars(&kc);
        self.exact.put(&n, &cc);
        let ghost mid: FastPath = *self;
        let toks = tokenize(&n);
        let count: usize = if toks.len() < 3 {
            toks.len()
        } else {
            3
        };
        let ghost ws: Seq<Seq<char>> = words_of(n@);
        let mut ti: usize = 0;
        while ti < count
            invariant
                trie_wf(self.trie),
                self.exact == mid.exact,
                orig.trie == old(self).trie,
                n@ == normalize_spec(key@),
                cc@ == content@,
                ws == words_of(n@),
                dv(toks@) == ws,
                0 <= ti <= count,
                count <= toks@.len(),
                count <= 3,
                forall|p: Seq<char>|
                    #[trigger] contents_at(self.trie, p) == fold_at(
                        contents_at(orig.trie, p),
                        token_terms_upto(ws, ti as int),
                        p,
                        cc@,
                    ),
            decreases count - ti,
        {
            proof {
                assert(dv(toks@)[ti as int] == toks@[ti as int]@);
                assert(ws[ti as int] == toks@[ti as int]@);
            }
            if toks[ti].len() > 2 {
                let ghost pre: PrefixTrie = self.trie;
                self.trie.insert_normalized(&toks[ti], &cc);
                proof {
                    let tok = ws[ti as int];
                    assert(token_terms_upto(ws, ti + 1) == token_terms_upto(ws, ti as int).push(
                        tok,
                    ));
                    assert forall|p: Seq<char>| #[trigger] contents_at(self.trie, p) == fold_at(
                        contents_at(orig.trie, p),
                        token_terms_upto(ws, ti + 1),
                        p,
                        cc@,
                    ) by {
                        lemma_fold_snoc(
                            contents_at(orig.trie, p),
                            token_terms_upto(ws, ti as int),
                            tok,
                            p,
                            cc@,
                        );
                        if p != tok {
                            assert(contents_at(self.trie, p) == contents_at(pre, p));
                        }
                    }
                }
            } else {
                proof {
                    assert(token_terms_upto(ws, ti + 1) == token_terms_upto(ws, ti as int));
                }
            }
            ti = ti + 1;
        }
        proof {
            assert(count as int == (if ws.len() < 3 {
                ws.len() as int
            } else {
                3
            }));
        }
        if chars_contains(&n, '@') || n.len() < 50 {
            let ghost pre: PrefixTrie = self.trie;
            self.trie.insert_normalized(&n, &cc);
            proof {
                assert(inserted_keys(key@) == token_terms_upto(ws, count as int).push(n@));
                assert forall|p: Seq<char>| #[trigger] contents_at(self.trie, p) == fold_at(
                    contents_at(orig.trie, p),
                    inserted_keys(key@),
                    p,
                    cc@,
                ) by {
                    lemma_fold_snoc(
                        contents_at(orig.trie, p),
                        token_terms_upto(ws, count as int),
                        n@,
                        p,
                        cc@,
                    );
                    if p != n@ {
                        assert(contents_at(self.trie, p) == contents_at(pre, p));
                    }
                }
            }
        } else {
            proof {
                assert(inserted_keys(key@) == token_terms_upto(ws, count as int));
            }
        }
    }

    /// Answer `query`: an exact match (confidence ten tenths) when the
    /// normalized query is a stored key; otherwise, for queries of
    /// normalized length at least three, a prefix match (nine tenths) when
    /// the trie's first collected entry begins, lowercased, with the query;
    /// otherwise no match.
    pub fn search(&self, query: String) -> (r: Option<MatchResult>)
        requires
            fp_wf(*self),
        ensures
            match r {
                Some(m) => search_spec(*self, query@) == Some((m.kind, m.content@)) && (m.kind
                    == MatchKind::Exact ==> m.confidence_tenths == 10) && (m.kind
                    == MatchKind::Prefix ==> m.confidence_tenths == 9),
                None => search_spec(*self, query@) is None,
            },
    {
        let qc = chars_of(query.as_str());
        let n = normalize_chars(&qc);
        match self.exact.get(&n) {
            Some(content) => {
                let s = string_of(&content);
                return Some(
                    MatchResult { kind: MatchKind::Exact, confidence_tenths: 10, content: s },
                );
            },
            None => {},
        }
        if n.len() >= 3 {
            let rs = self.trie.search(&n, 5);
            if rs.len() > 0 {
                proof {
                    assert(dv(rs@)[0] == rs@[0]@);
                }
                let low = lower_chars(&rs[0]);
                if chars_starts_with(&low, &n) {
                    let s = string_of(&rs[0]);
                    return Some(
                        MatchResult { kind: MatchKind::Prefix, confidence_tenths: 9, content: s },
                    );
                }
            }
        }
        None
    }

    /// Discard both structures, replacing them with empty instances.
    pub fn clear(&mut self)
        ensures
            fp_wf(*final(self)),
            is_empty_engine(*final(self)),
            forall|q: Seq<char>| #[trigger] search_spec(*final(self), q) is None,
    {
        self.exact = ExactIndex::new();
        self.trie = PrefixTrie::new();
        proof {
            assert forall|q: Seq<char>| #[trigger] search_spec(*self, q) is None by {
                lemma_search_empty(*self, q);
            }
        }
    }

    /// The number of entries in the exact index.
    pub fn size(&self) -> (n: usize)
        ensures
            n == self.exact.entries@.len(),
    {
        self.exact.len()
    }
}

/// After an insert of content `c` under key `k`, searching `k` yields an
/// exact match, confidence ten tenths' worth, with content `c`.
pub proof fn lemma_insert_then_search(pre: FastPath, post: FastPath, k: Seq<char>, c: Seq<char>)
    requires
        insert_post(pre, post, k, c),
    ensures
        search_spec(post, k) == Some((MatchKind::Exact, c)),
{
}

/// Last write wins: after inserting `c1` and then `c2` under the same key,
/// searching that key yields `c2`.
pub proof fn lemma_last_write_wins(
    e0: FastPath,
    e1: FastPath,
    e2: FastPath,
    k: Seq<char>,
    c1: Seq<char>,
    c2: Seq<char>,
)
    requires
        insert_post(e0, e1, k, c1),
        insert_post(e1, e2, k, c2),
    ensures
        search_spec(e2, k) == Some((MatchKind::Exact, c2)),
{
}

/// Two queries with the same normalized form receive the same answer.
pub proof fn lemma_normalized_equivalent(e: FastPath, q1: Seq<char>, q2: Seq<char>)
    requires
        normalize_spec(q1) == normalize_spec(q2),
    ensures
        search_spec(e, q1) == search_spec(e, q2),
{
}

/// A fully reset engine matches nothing.
pub proof fn lemma_search_empty(e: FastPath, q: Seq<char>)
    requires
        is_empty_engine(e),
    ensures
        search_spec(e, q) is None,
{
    let n = normalize_spec(q);
    assert(lookup_spec(e.exact, n) is None);
    if n.len() >= 3 {
        assert(node_at(e.trie, n) is None);
        assert(trie_search_spec(e.trie, n, 5) =~= Seq::<Seq<char>>::empty());
    }
}

/// A query whose normalized form is shorter than three characters and is
/// not a stored key matches nothing: the prefix search is never attempted.
pub proof fn lemma_short_query_guard(e: FastPath, q: Seq<char>)
    requires
        normalize_spec(q).len() < 3,
        lookup_spec(e.exact, normalize_spec(q)) is None,
    ensures
        search_spec(e, q) is None,
{
}

/// A prefix match is honest: its content, lowercased, begins with the
/// normalized query.
pub proof fn lemma_prefix_match_starts_with(e: FastPath, q: Seq<char>, c: Seq<char>)
    requires
        search_spec(e, q) == Some((MatchKind::Prefix, c)),
    ensures
        normalize_spec(q).is_prefix_of(lower_of(c)),
{
}

/// A prefix match is no invention: its content sits in the trie under some
/// path that extends the normalized query.
pub proof fn lemma_prefix_match_stored(e: FastPath, q: Seq<char>, c: Seq<char>)
    requires
        fp_wf(e),
        search_spec(e, q) == Some((MatchKind::Prefix, c)),
    ensures
        exists|k: Seq<char>|
            normalize_spec(q).is_prefix_of(k) && contents_at(e.trie, k).contains(c),
{
    let n = normalize_spec(q);
    let rs = trie_search_spec(e.trie, n, 5);
    assert(rs[0] == c);
    assert(rs.contains(c));
    lemma_search_sound(e.trie, n, 5, c);
}

/// No eviction: an insert removes nothing from the trie — every node's old
/// content list is a prefix of its new one.
pub proof fn lemma_insert_no_eviction(
    pre: FastPath,
    post: FastPath,
    key: Seq<char>,
    content: Seq<char>,
    p: Seq<char>,
)
    requires
        insert_post(pre, post, key, content),
    ensures
        contents_at(pre.trie, p).is_prefix_of(contents_at(post.trie, p)),
{
    lemma_fold_no_eviction(contents_at(pre.trie, p), inserted_keys(key), p, content);
}

/// Every string an insert feeds to the trie — each of the first three words
/// longer than two characters, and the whole normalized key under the
/// '@'-or-short rule — ends at its node with the inserted content, unless
/// that node's list is already at the cap.
pub proof fn lemma_insert_feeds_terms(
    pre: FastPath,
    post: FastPath,
    key: Seq<char>,
    content: Seq<char>,
    p: Seq<char>,
)
    requires
        insert_post(pre, post, key, content),
        inserted_keys(key).contains(p),
    ensures
        contents_at(post.trie, p).len() > 0,
        contents_at(post.trie, p).last() == content || contents_at(post.trie, p).len() >= 10,
{
    lemma_fold_applied(contents_at(pre.trie, p), inserted_keys(key), p, content);
}

/// A path the insert does not feed keeps its contents exactly.
pub proof fn lemma_insert_untouched(
    pre: FastPath,
    post: FastPath,
    key: Seq<char>,
    content: Seq<char>,
    p: Seq<char>,
)
    requires
        insert_post(pre, post, key, content),
        !inserted_keys(key).contains(p),
    ensures
        contents_at(post.trie, p) == contents_at(pre.trie, p),
{
    lemma_fold_absent(contents_at(pre.trie, p), inserted_keys(key), p, content);
}

} // verus!
