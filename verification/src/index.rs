//! The exact index: a mapping from normalized key to stored content,
//! last write wins, kept as a vector of entries with pairwise-distinct keys.

use vstd::prelude::*;

use crate::text::chars_eq;
use crate::text::copy_chars;

verus! {

/// One stored key/content pair.
pub struct Entry {
    pub key: Vec<char>,
    pub val: Vec<char>,
}

/// The content stored under `k`, scanning entries from index `j` on.
pub open spec fn lookup_from(es: Seq<Entry>, j: int, k: Seq<char>) -> Option<Seq<char>>
    decreases es.len() - j,
{
    if j < 0 || j >= es.len() {
        None
    } else if es[j].key@ == k {
        Some(es[j].val@)
    } else {
        lookup_from(es, j + 1, k)
    }
}

/// A mapping from normalized key to content; at most one entry per key.
pub struct ExactIndex {
    pub entries: Vec<Entry>,
}

/// The content stored under `k`, if any.
pub open spec fn lookup_spec(ix: ExactIndex, k: Seq<char>) -> Option<Seq<char>> {
    lookup_from(ix.entries@, 0, k)
}

/// Keys are pairwise distinct, so the entry count is the key count.
pub open spec fn index_wf(ix: ExactIndex) -> bool {
    forall|i: int, j: int|
        0 <= i < j < ix.entries@.len() ==> (#[trigger] ix.entries@[i]).key@ != (
        #[trigger] ix.entries@[j]).key@
}

/// Scanning past entries whose keys all differ from `k` does not change the
/// lookup result.
proof fn lemma_lookup_skip(es: Seq<Entry>, j: int, k: Seq<char>)
    requires
        0 <= j <= es.len(),
        forall|m: int| 0 <= m < j ==> (#[trigger] es[m]).key@ != k,
    ensures
        lookup_from(es, 0, k) == lookup_from(es, j, k),
    decreases j,
{
    if j > 0 {
        lemma_lookup_skip(es, j - 1, k);
    }
}

/// Appending an entry whose key is not `k2` does not change the lookup of
/// `k2`.
proof fn lemma_lookup_push(es: Seq<Entry>, e: Entry, i: int, k2: Seq<char>)
    requires
        0 <= i <= es.len(),
        e.key@ != k2,
    ensures
        lookup_from(es.push(e), i, k2) == lookup_from(es, i, k2),
    decreases es.len() - i,
{
    if i < es.len() {
        lemma_lookup_push(es, e, i + 1, k2);
    } else {
        assert(lookup_from(es, i, k2) is None);
        assert(lookup_from(es.push(e), i + 1, k2) is None);
    }
}

/// Replacing the value of the one entry whose key is `k` does not change the
/// lookup of any other key.
proof fn lemma_lookup_update(es: Seq<Entry>, es2: Seq<Entry>, j: int, i: int, k: Seq<char>, k2: Seq<
    char,
>)
    requires
        0 <= j < es.len(),
        es2.len() == es.len(),
        forall|m: int| 0 <= m < es.len() && m != j ==> #[trigger] es2[m] == es[m],
        es[j].key@ == k,
        es2[j].key@ == k,
        k2 != k,
        0 <= i <= es.len(),
    ensures
        lookup_from(es2, i, k2) == lookup_from(es, i, k2),
    decreases es.len() - i,
{
    if i < es.len() {
        lemma_lookup_update(es, es2, j, i + 1, k, k2);
    }
}

impl ExactIndex {
    /// An empty index.
    pub fn new() -> (ix: ExactIndex)
        ensures
            index_wf(ix),
            ix.entries@.len() == 0,
            forall|k: Seq<char>| #[trigger] lookup_spec(ix, k) is None,
    {
        let ix = ExactIndex { entries: Vec::new() };
        ix
    }

    /// Store `c` under `k`, overwriting any earlier content for `k`.
    pub fn put(&mut self, k: &Vec<char>, c: &Vec<char>)
        requires
            index_wf(*old(self)),
        ensures
            index_wf(*final(self)),
            lookup_spec(*final(self), k@) == Some(c@),
            forall|k2: Seq<char>|
                k2 != k@ ==> #[trigger] lookup_spec(*final(self), k2) == lookup_spec(
                    *old(self),
                    k2,
                ),
            final(self).entries@.len() == (if lookup_spec(*old(self), k@) is Some {
                old(self).entries@.len()
            } else {
                old(self).entries@.len() + 1
            }),
    {
        let ghost es0: Seq<Entry> = old(self).entries@;
        let mut j: usize = 0;
        while j < self.entries.len()
            invariant
                0 <= j <= self.entries@.len(),
                self.entries@ == es0,
                old(self).entries@ == es0,
                index_wf(*self),
                forall|m: int| 0 <= m < j ==> (#[trigger] es0[m]).key@ != k@,
            decreases self.entries@.len() - j,
        {
            if chars_eq(&self.entries[j].key, k) {
                let e = self.entries.remove(j);
                let e2 = Entry { key: e.key, val: copy_chars(c) };
                self.entries.insert(j, e2);
                proof {
                    let es2 = self.entries@;
                    assert(es2 =~= es0.update(j as int, e2));
                    lemma_lookup_skip(es0, j as int, k@);
                    lemma_lookup_skip(es2, j as int, k@);
                    assert(lookup_from(es2, j as int, k@) == Some(c@));
                    assert(old(self).entries@ == es0);
                    assert(lookup_spec(*old(self), k@) == lookup_from(es0, 0, k@));
                    assert(lookup_from(es0, 0, k@) == lookup_from(es0, j as int, k@));
                    assert(lookup_spec(*old(self), k@) == lookup_from(es0, j as int, k@));
                    assert(lookup_spec(*old(self), k@) is Some);
                    assert forall|k2: Seq<char>| k2 != k@ implies lookup_from(es2, 0, k2)
                        == lookup_from(es0, 0, k2) by {
                        lemma_lookup_update(es0, es2, j as int, 0, k@, k2);
                    }
                }
                return ;
            }
            j = j + 1;
        }
        let e = Entry { key: copy_chars(k), val: copy_chars(c) };
        self.entries.push(e);
        proof {
            let es2 = self.entries@;
            assert(es2 =~= es0.push(e));
            lemma_lookup_skip(es2, es0.len() as int, k@);
            assert(lookup_from(es2, es0.len() as int, k@) == Some(c@));
            lemma_lookup_skip(es0, es0.len() as int, k@);
            assert(lookup_spec(*old(self), k@) is None);
            assert forall|k2: Seq<char>| k2 != k@ implies lookup_from(es2, 0, k2) == lookup_from(
                es0,
                0,
                k2,
            ) by {
                lemma_lookup_push(es0, e, 0, k2);
            }
        }
    }

    /// The content stored under `k`, if any.
    pub fn get(&self, k: &Vec<char>) -> (r: Option<Vec<char>>)
        ensures
            match r {
                Some(v) => lookup_spec(*self, k@) == Some(v@),
                None => lookup_spec(*self, k@) is None,
            },
    {
        let mut j: usize = 0;
        while j < self.entries.len()
            invariant
                0 <= j <= self.entries@.len(),
                forall|m: int| 0 <= m < j ==> (#[trigger] self.entries@[m]).key@ != k@,
            decreases self.entries@.len() - j,
        {
            if chars_eq(&self.entries[j].key, k) {
                let r = copy_chars(&self.entries[j].val);
                proof {
                    lemma_lookup_skip(self.entries@, j as int, k@);
                }
                return Some(r);
            }
            j = j + 1;
        }
        proof {
            lemma_lookup_skip(self.entries@, self.entries@.len() as int, k@);
        }
        None
    }

    /// The number of stored keys.
    pub fn len(&self) -> (n: usize)
        ensures
            n == self.entries@.len(),
    {
        self.entries.len()
    }
}

} // verus!
