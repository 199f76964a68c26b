//! Searching byte and character sequences for a pattern.

use vstd::prelude::*;

verus! {

/// `pat` occurs in `hay` starting at index `i`.
pub open spec fn occurs_at<T>(hay: Seq<T>, pat: Seq<T>, i: int) -> bool {
    0 <= i && i + pat.len() <= hay.len() && hay.subrange(i, i + pat.len()) == pat
}

/// The first index at or after `i` where `pat` occurs in `hay`.
pub open spec fn find_from<T>(hay: Seq<T>, pat: Seq<T>, i: int) -> Option<int>
    decreases hay.len() - i,
{
    if i < 0 || i + pat.len() > hay.len() {
        None
    } else if occurs_at(hay, pat, i) {
        Some(i)
    } else if i >= hay.len() {
        None
    } else {
        find_from(hay, pat, i + 1)
    }
}

/// The first index where `pat` occurs in `hay`, if it occurs at all.
pub open spec fn find<T>(hay: Seq<T>, pat: Seq<T>) -> Option<int> {
    find_from(hay, pat, 0)
}

/// `pat` occurs somewhere in `hay`.
pub open spec fn contains<T>(hay: Seq<T>, pat: Seq<T>) -> bool {
    find(hay, pat) is Some
}

/// What `find_from` gives is an occurrence at or after `i`, and no occurrence
/// lies between `i` and it.
pub proof fn lemma_find_from<T>(hay: Seq<T>, pat: Seq<T>, i: int)
    requires
        0 <= i,
    ensures
        match find_from(hay, pat, i) {
            Some(j) => {
                &&& i <= j
                &&& occurs_at(hay, pat, j)
                &&& forall|k: int| i <= k < j ==> !occurs_at(hay, pat, k)
            },
            None => forall|k: int| i <= k ==> !occurs_at(hay, pat, k),
        },
    decreases hay.len() - i,
{
    if i + pat.len() > hay.len() {
    } else if occurs_at(hay, pat, i) {
    } else if i >= hay.len() {
    } else {
        lemma_find_from(hay, pat, i + 1);
    }
}

/// Whether `pat` occurs in `hay` at index `i`.
pub fn bytes_occur_at(hay: &[u8], pat: &[u8], i: usize) -> (b: bool)
    ensures
        b == occurs_at(hay@, pat@, i as int),
{
    if i > hay.len() || pat.len() > hay.len() - i {
        return false;
    }
    let mut k: usize = 0;
    while k < pat.len()
        invariant
            i + pat.len() <= hay.len(),
            k <= pat.len(),
            forall|j: int| 0 <= j < k ==> hay@[i + j] == pat@[j],
        decreases pat.len() - k,
    {
        if hay[i + k] != pat[k] {
            assert(hay@.subrange(i as int, i + pat.len())[k as int] != pat@[k as int]);
            return false;
        }
        k = k + 1;
    }
    assert(hay@.subrange(i as int, i + pat.len()) =~= pat@);
    true
}

/// The first index where `pat` occurs in `hay`.
pub fn find_bytes(hay: &[u8], pat: &[u8]) -> (r: Option<usize>)
    ensures
        match r {
            Some(i) => find(hay@, pat@) == Some(i as int),
            None => find(hay@, pat@) is None,
        },
{
    let mut i: usize = 0;
    while i < hay.len()
        invariant
            i <= hay.len(),
            find(hay@, pat@) == find_from(hay@, pat@, i as int),
        decreases hay.len() - i,
    {
        if pat.len() > hay.len() - i {
            return None;
        }
        if bytes_occur_at(hay, pat, i) {
            return Some(i);
        }
        i = i + 1;
    }
    if pat.len() == 0 {
        assert(hay@.subrange(i as int, i as int) =~= pat@);
        Some(i)
    } else {
        None
    }
}

/// `s` ends with `suffix`.
pub open spec fn ends_with<T>(s: Seq<T>, suffix: Seq<T>) -> bool {
    suffix.len() <= s.len() && s.skip(s.len() - suffix.len()) == suffix
}

/// `part` is a run of consecutive elements of `whole`.
pub open spec fn is_infix<T>(part: Seq<T>, whole: Seq<T>) -> bool {
    exists|i: int| #[trigger] occurs_at(whole, part, i)
}

/// An occurrence of `pat` in `hay` is still there once more is appended.
pub proof fn lemma_contains_extend<T>(hay: Seq<T>, more: Seq<T>, pat: Seq<T>)
    requires
        contains(hay, pat),
    ensures
        contains(hay + more, pat),
{
    lemma_find_from(hay, pat, 0);
    let i = find(hay, pat)->0;
    assert((hay + more).subrange(i, i + pat.len()) =~= hay.subrange(i, i + pat.len()));
    assert(occurs_at(hay + more, pat, i));
    lemma_find_from(hay + more, pat, 0);
}

/// A suffix of `whole` is a run of its elements.
pub proof fn lemma_suffix_is_infix<T>(whole: Seq<T>, part: Seq<T>)
    requires
        ends_with(whole, part),
    ensures
        is_infix(part, whole),
{
    let i = whole.len() - part.len();
    assert(whole.subrange(i, i + part.len()) =~= whole.skip(i));
    assert(occurs_at(whole, part, i));
}

/// Whether `s` ends with `suffix`.
pub fn bytes_end_with(s: &[u8], suffix: &[u8]) -> (b: bool)
    ensures
        b == ends_with(s@, suffix@),
{
    let n = s.len();
    if suffix.len() > n {
        return false;
    }
    let b = bytes_occur_at(s, suffix, n - suffix.len());
    assert(s@.subrange(n - suffix.len(), n as int) =~= s@.skip(n - suffix.len()));
    b
}

/// Whether two byte strings are equal.
pub fn bytes_equal(a: &[u8], b: &[u8]) -> (r: bool)
    ensures
        r == (a@ == b@),
{
    if a.len() != b.len() {
        return false;
    }
    let r = bytes_occur_at(a, b, 0);
    assert(a@.subrange(0, b@.len() as int) =~= a@);
    r
}

} // verus!
