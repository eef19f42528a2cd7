//! Text handling: character sequences, whitespace trimming, lowercasing,
//! whitespace tokenization, and the normalization applied to every key and
//! query before storage or lookup.

use vstd::prelude::*;

verus! {

/// The sequence-of-sequences view of a vector of character vectors.
pub open spec fn dv(vs: Seq<Vec<char>>) -> Seq<Seq<char>> {
    vs.map_values(|v: Vec<char>| v@)
}

/// What `str::to_lowercase` returns for a given character sequence; the
/// result depends on the characters alone.
pub uninterp spec fn lower_of(s: Seq<char>) -> Seq<char>;

/// Whether a character counts as whitespace, as `char::is_whitespace`
/// decides it; a property of the character alone.
pub uninterp spec fn is_space_char(c: char) -> bool;

/// Relies on char::is_whitespace: whether `c` is whitespace, a property of
/// the character alone.
#[verifier::external_body]
pub(crate) fn is_space(c: char) -> (r: bool)
    ensures
        r == is_space_char(c),
{
    c.is_whitespace()
}

/// Relies on str::to_lowercase: the lowercase form of the characters of `v`,
/// a function of those characters alone.
#[verifier::external_body]
pub(crate) fn lower_chars(v: &Vec<char>) -> (r: Vec<char>)
    ensures
        r@ == lower_of(v@),
{
    let s: String = v.iter().collect();
    s.to_lowercase().chars().collect()
}

/// The characters of a string, in order, as a vector.
pub fn chars_of(s: &str) -> (r: Vec<char>)
    ensures
        r@ == s@,
{
    broadcast use vstd::string::axiom_spec_iter;

    let mut r: Vec<char> = Vec::new();
    for c in it: s.chars()
        invariant
            r@ =~= it.seq().subrange(0, it.index() as int),
            it.seq() == s@,
    {
        r.push(c);
    }
    proof {
        assert(r@ =~= s@);
    }
    r
}

/// Relies on String: FromIterator<char>: collecting characters yields the
/// string of exactly those characters, in order.
#[verifier::external_body]
pub(crate) fn string_of(v: &Vec<char>) -> (r: String)
    ensures
        r@ == v@,
{
    v.iter().collect()
}

/// The first index at or after `i` whose character is not whitespace
/// (or the length, when only whitespace remains).
pub open spec fn skip_spaces(s: Seq<char>, i: int) -> int
    decreases s.len() - i,
{
    if 0 <= i < s.len() && is_space_char(s[i]) {
        skip_spaces(s, i + 1)
    } else {
        i
    }
}

/// The first index at or below `j` such that the character just before it is
/// not whitespace (or 0, when only whitespace precedes).
pub open spec fn skip_spaces_rev(s: Seq<char>, j: int) -> int
    decreases j,
{
    if 0 < j <= s.len() && is_space_char(s[j - 1]) {
        skip_spaces_rev(s, j - 1)
    } else {
        j
    }
}

/// `s` with surrounding whitespace removed.
pub open spec fn trim_spec(s: Seq<char>) -> Seq<char> {
    if skip_spaces(s, 0) >= s.len() {
        Seq::empty()
    } else {
        s.subrange(skip_spaces(s, 0), skip_spaces_rev(s, s.len() as int))
    }
}

/// The normalization applied to every key and query: trim surrounding
/// whitespace, then lowercase. Two strings are the same key exactly when
/// their normalized forms are equal.
pub open spec fn normalize_spec(s: Seq<char>) -> Seq<char> {
    lower_of(trim_spec(s))
}

/// A non-whitespace character at index `b` keeps the right trim point
/// strictly past `b`.
proof fn lemma_skip_rev_past_nonspace(s: Seq<char>, b: int, j: int)
    requires
        0 <= b < j <= s.len(),
        !is_space_char(s[b]),
    ensures
        skip_spaces_rev(s, j) > b,
    decreases j,
{
    if 0 < j <= s.len() && is_space_char(s[j - 1]) {
        lemma_skip_rev_past_nonspace(s, b, j - 1);
    }
}

/// Remove surrounding whitespace.
pub fn trim_chars(v: &Vec<char>) -> (r: Vec<char>)
    ensures
        r@ == trim_spec(v@),
{
    let n: usize = v.len();
    let mut b: usize = 0;
    while b < n && is_space(v[b])
        invariant
            0 <= b <= n,
            n == v@.len(),
            skip_spaces(v@, 0) == skip_spaces(v@, b as int),
        decreases n - b,
    {
        b = b + 1;
    }
    proof {
        assert(skip_spaces(v@, b as int) == b as int);
        assert(skip_spaces(v@, 0) == b as int);
    }
    if b == n {
        let r: Vec<char> = Vec::new();
        proof {
            assert(r@ =~= trim_spec(v@));
        }
        return r;
    }
    let mut e: usize = n;
    while e > 0 && is_space(v[e - 1])
        invariant
            0 <= e <= n,
            n == v@.len(),
            skip_spaces_rev(v@, n as int) == skip_spaces_rev(v@, e as int),
        decreases e,
    {
        e = e - 1;
    }
    proof {
        assert(skip_spaces_rev(v@, e as int) == e as int);
        lemma_skip_rev_past_nonspace(v@, b as int, n as int);
    }
    let mut r: Vec<char> = Vec::new();
    let mut i: usize = b;
    while i < e
        invariant
            b <= i <= e <= n,
            n == v@.len(),
            r@ == v@.subrange(b as int, i as int),
        decreases e - i,
    {
        r.push(v[i]);
        proof {
            assert(v@.subrange(b as int, i + 1 as int) =~= v@.subrange(b as int, i as int).push(
                v@[i as int],
            ));
        }
        i = i + 1;
    }
    proof {
        assert(r@ == trim_spec(v@));
    }
    r
}

/// Trim, then lowercase.
pub fn normalize_chars(v: &Vec<char>) -> (r: Vec<char>)
    ensures
        r@ == normalize_spec(v@),
{
    let t = trim_chars(v);
    lower_chars(&t)
}

/// The words of `s` split on whitespace, scanning from index `i` with the
/// word collected so far in `cur` and the finished words in `acc`.
pub open spec fn words_acc(s: Seq<char>, i: int, cur: Seq<char>, acc: Seq<Seq<char>>) -> Seq<
    Seq<char>,
>
    decreases s.len() - i,
{
    if i < 0 || i >= s.len() {
        if cur.len() > 0 {
            acc.push(cur)
        } else {
            acc
        }
    } else if is_space_char(s[i]) {
        words_acc(
            s,
            i + 1,
            Seq::empty(),
            if cur.len() > 0 {
                acc.push(cur)
            } else {
                acc
            },
        )
    } else {
        words_acc(s, i + 1, cur.push(s[i]), acc)
    }
}

/// The whitespace-separated words of `s`, in order.
pub open spec fn words_of(s: Seq<char>) -> Seq<Seq<char>> {
    words_acc(s, 0, Seq::empty(), Seq::empty())
}

/// Split on whitespace.
pub fn tokenize(v: &Vec<char>) -> (r: Vec<Vec<char>>)
    ensures
        dv(r@) == words_of(v@),
{
    let mut acc: Vec<Vec<char>> = Vec::new();
    let mut cur: Vec<char> = Vec::new();
    let mut i: usize = 0;
    proof {
        assert(dv(acc@) =~= Seq::<Seq<char>>::empty());
    }
    while i < v.len()
        invariant
            0 <= i <= v@.len(),
            words_of(v@) == words_acc(v@, i as int, cur@, dv(acc@)),
        decreases v@.len() - i,
    {
        proof {
            assert(words_acc(v@, i as int, cur@, dv(acc@)) == (if is_space_char(v@[i as int]) {
                words_acc(
                    v@,
                    i + 1,
                    Seq::<char>::empty(),
                    if cur@.len() > 0 {
                        dv(acc@).push(cur@)
                    } else {
                        dv(acc@)
                    },
                )
            } else {
                words_acc(v@, i + 1, cur@.push(v@[i as int]), dv(acc@))
            }));
        }
        if is_space(v[i]) {
            if cur.len() > 0 {
                proof {
                    assert(dv(acc@.push(cur)) =~= dv(acc@).push(cur@));
                }
                acc.push(cur);
                cur = Vec::new();
                proof {
                    assert(cur@ =~= Seq::<char>::empty());
                }
            } else {
                proof {
                    assert(cur@ =~= Seq::<char>::empty());
                }
            }
        } else {
            cur.push(v[i]);
        }
        i = i + 1;
    }
    if cur.len() > 0 {
        proof {
            assert(dv(acc@.push(cur)) =~= dv(acc@).push(cur@));
        }
        acc.push(cur);
    }
    acc
}

/// An element-wise copy of a character vector.
pub fn copy_chars(v: &Vec<char>) -> (r: Vec<char>)
    ensures
        r@ == v@,
{
    let mut r: Vec<char> = Vec::new();
    let mut i: usize = 0;
    while i < v.len()
        invariant
            0 <= i <= v@.len(),
            r@ == v@.subrange(0, i as int),
        decreases v@.len() - i,
    {
        r.push(v[i]);
        proof {
            assert(v@.subrange(0, i + 1 as int) =~= v@.subrange(0, i as int).push(v@[i as int]));
        }
        i = i + 1;
    }
    proof {
        assert(r@ =~= v@);
    }
    r
}

/// Character-wise equality of two character vectors.
pub fn chars_eq(a: &Vec<char>, b: &Vec<char>) -> (r: bool)
    ensures
        r == (a@ == b@),
{
    if a.len() != b.len() {
        return false;
    }
    let mut i: usize = 0;
    while i < a.len()
        invariant
            0 <= i <= a@.len(),
            a@.len() == b@.len(),
            forall|j: int| 0 <= j < i ==> a@[j] == b@[j],
        decreases a@.len() - i,
    {
        if a[i] != b[i] {
            return false;
        }
        i = i + 1;
    }
    proof {
        assert(a@ =~= b@);
    }
    true
}

/// Whether `p` is a prefix of `s`, character for character.
pub fn chars_starts_with(s: &Vec<char>, p: &Vec<char>) -> (r: bool)
    ensures
        r == p@.is_prefix_of(s@),
{
    if p.len() > s.len() {
        return false;
    }
    let mut i: usize = 0;
    while i < p.len()
        invariant
            0 <= i <= p@.len(),
            p@.len() <= s@.len(),
            forall|j: int| 0 <= j < i ==> p@[j] == s@[j],
        decreases p@.len() - i,
    {
        if p[i] != s[i] {
            proof {
                assert(!p@.is_prefix_of(s@)) by {
                    if p@.is_prefix_of(s@) {
                        assert(p@[i as int] == s@[i as int]);
                    }
                }
            }
            return false;
        }
        i = i + 1;
    }
    proof {
        assert(p@ =~= s@.subrange(0, p@.len() as int));
    }
    true
}

/// Whether the character `c` occurs in `v`.
pub fn chars_contains(v: &Vec<char>, c: char) -> (r: bool)
    ensures
        r == v@.contains(c),
{
    let mut i: usize = 0;
    while i < v.len()
        invariant
            0 <= i <= v@.len(),
            forall|j: int| 0 <= j < i ==> v@[j] != c,
        decreases v@.len() - i,
    {
        if v[i] == c {
            return true;
        }
        i = i + 1;
    }
    false
}

} // verus!
