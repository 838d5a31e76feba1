//! Byte-level text helpers: ASCII whitespace, trimming, locating separator
//! bytes, and joining folded header fragments.

use vstd::prelude::*;

verus! {

/// ASCII whitespace: space, tab, line feed, vertical tab, form feed,
/// carriage return.
pub open spec fn is_space(b: u8) -> bool {
    b == 32 || b == 9 || b == 10 || b == 11 || b == 12 || b == 13
}

/// Position of the first occurrence of `b` in `s`; meaningful only when
/// `s` contains `b`.
pub open spec fn first_occurrence(s: Seq<u8>, b: u8) -> int
    decreases s.len(),
{
    if s.len() == 0 {
        0
    } else if s[0] == b {
        0
    } else {
        1 + first_occurrence(s.skip(1), b)
    }
}

/// When `s` contains `b`, `first_occurrence` points at a `b` and nothing
/// before it is a `b`.
pub proof fn lemma_first_occurrence(s: Seq<u8>, b: u8)
    requires
        s.contains(b),
    ensures
        0 <= first_occurrence(s, b) < s.len(),
        s[first_occurrence(s, b)] == b,
        forall|k: int| 0 <= k < first_occurrence(s, b) ==> s[k] != b,
    decreases s.len(),
{
    if s.len() == 0 {
    } else if s[0] == b {
    } else {
        let i = choose|i: int| 0 <= i < s.len() && s[i] == b;
        assert(s.skip(1)[i - 1] == b);
        assert(s.skip(1).contains(b));
        lemma_first_occurrence(s.skip(1), b);
        let f = first_occurrence(s.skip(1), b);
        assert(s[1 + f] == s.skip(1)[f]);
        assert forall|k: int| 0 <= k < 1 + f implies s[k] != b by {
            if k >= 1 {
                assert(s.skip(1)[k - 1] != b);
            }
        }
    }
}

/// Any position that carries `b` with no `b` before it is the first
/// occurrence.
pub proof fn lemma_first_occurrence_unique(s: Seq<u8>, b: u8, i: int)
    requires
        0 <= i < s.len(),
        s[i] == b,
        forall|k: int| 0 <= k < i ==> s[k] != b,
    ensures
        s.contains(b),
        first_occurrence(s, b) == i,
{
    assert(s.contains(b));
    lemma_first_occurrence(s, b);
    let f = first_occurrence(s, b);
    if f < i {
        assert(s[f] != b);
    }
    if i < f {
        assert(s[i] != b);
    }
}

/// `s` without its leading whitespace.
pub open spec fn trim_start(s: Seq<u8>) -> Seq<u8>
    decreases s.len(),
{
    if s.len() > 0 && is_space(s[0]) {
        trim_start(s.skip(1))
    } else {
        s
    }
}

/// `s` without its trailing whitespace.
pub open spec fn trim_end(s: Seq<u8>) -> Seq<u8>
    decreases s.len(),
{
    if s.len() > 0 && is_space(s.last()) {
        trim_end(s.drop_last())
    } else {
        s
    }
}

/// `s` without leading and trailing whitespace.
pub open spec fn trim(s: Seq<u8>) -> Seq<u8> {
    trim_end(trim_start(s))
}

/// `trim_start` drops exactly the prefix of whitespace: if everything
/// before `lo` is whitespace and `lo` is the end or a non-space,
/// the result is `s` from `lo` on.
pub proof fn lemma_trim_start_at(s: Seq<u8>, lo: int)
    requires
        0 <= lo <= s.len(),
        forall|k: int| 0 <= k < lo ==> is_space(s[k]),
        lo == s.len() || !is_space(s[lo]),
    ensures
        trim_start(s) == s.skip(lo),
    decreases lo,
{
    if lo == 0 {
        assert(s.skip(0) =~= s);
    } else {
        assert(is_space(s[0]));
        lemma_trim_start_at(s.skip(1), lo - 1);
        assert(s.skip(1).skip(lo - 1) =~= s.skip(lo));
    }
}

/// `trim_end` drops exactly the suffix of whitespace: if everything from
/// `hi` on is whitespace and `hi` is the start or follows a non-space,
/// the result is `s` up to `hi`.
pub proof fn lemma_trim_end_at(s: Seq<u8>, hi: int)
    requires
        0 <= hi <= s.len(),
        forall|k: int| hi <= k < s.len() ==> is_space(s[k]),
        hi == 0 || !is_space(s[hi - 1]),
    ensures
        trim_end(s) == s.take(hi),
    decreases s.len() - hi,
{
    if hi == s.len() {
        assert(s.take(hi) =~= s);
        if s.len() > 0 {
            assert(!is_space(s.last()));
        }
    } else {
        assert(is_space(s.last()));
        lemma_trim_end_at(s.drop_last(), hi);
        assert(s.drop_last().take(hi) =~= s.take(hi));
    }
}

proof fn lemma_trim_start_keeps(s: Seq<u8>, i: int)
    requires
        0 <= i < s.len(),
        !is_space(s[i]),
    ensures
        exists|j: int| 0 <= j < trim_start(s).len() && !is_space(trim_start(s)[j]),
    decreases s.len(),
{
    if s.len() > 0 && is_space(s[0]) {
        assert(s.skip(1)[i - 1] == s[i]);
        lemma_trim_start_keeps(s.skip(1), i - 1);
        let j = choose|j: int|
            0 <= j < trim_start(s.skip(1)).len() && !is_space(trim_start(s.skip(1))[j]);
        assert(!is_space(trim_start(s)[j]));
    } else {
        assert(!is_space(trim_start(s)[i]));
    }
}

proof fn lemma_trim_end_nonempty(s: Seq<u8>, i: int)
    requires
        0 <= i < s.len(),
        !is_space(s[i]),
    ensures
        trim_end(s).len() > 0,
    decreases s.len(),
{
    if s.len() > 0 && is_space(s.last()) {
        assert(i < s.len() - 1);
        assert(s.drop_last()[i] == s[i]);
        lemma_trim_end_nonempty(s.drop_last(), i);
    }
}

/// A sequence holding any non-whitespace byte does not trim to empty.
pub proof fn lemma_trim_nonempty(s: Seq<u8>, i: int)
    requires
        0 <= i < s.len(),
        !is_space(s[i]),
    ensures
        trim(s).len() > 0,
{
    lemma_trim_start_keeps(s, i);
    let j = choose|j: int|
        0 <= j < trim_start(s).len() && !is_space(trim_start(s)[j]);
    lemma_trim_end_nonempty(trim_start(s), j);
}

/// Folded fragments collapsed to one logical value: each fragment trimmed,
/// the pieces joined with a single space.
pub open spec fn join_fragments(fs: Seq<Seq<u8>>) -> Seq<u8>
    decreases fs.len(),
{
    if fs.len() == 0 {
        Seq::empty()
    } else if fs.len() == 1 {
        trim(fs[0])
    } else {
        join_fragments(fs.drop_last()) + seq![32u8] + trim(fs.last())
    }
}

/// The byte sequences held by a list of byte vectors.
pub open spec fn frags_view(fs: Seq<Vec<u8>>) -> Seq<Seq<u8>> {
    fs.map_values(|f: Vec<u8>| f@)
}

/// Whether the byte is ASCII whitespace.
pub fn is_space_byte(b: u8) -> (r: bool)
    ensures
        r == is_space(b),
{
    b == 32 || b == 9 || b == 10 || b == 11 || b == 12 || b == 13
}

/// Whether the two byte vectors hold the same bytes.
pub fn bytes_eq(a: &Vec<u8>, b: &Vec<u8>) -> (r: bool)
    ensures
        r == (a@ == b@),
{
    if a.len() != b.len() {
        proof {
            assert(a@ != b@) by {
                if a@ == b@ {
                    assert(a@.len() == b@.len());
                }
            }
        }
        return false;
    }
    let mut i: usize = 0;
    while i < a.len()
        invariant
            a@.len() == b@.len(),
            i <= a@.len(),
            forall|k: int| 0 <= k < i ==> a@[k] == b@[k],
        decreases a@.len() - i,
    {
        if a[i] != b[i] {
            proof {
                assert(a@ != b@) by {
                    if a@ == b@ {
                        assert(a@[i as int] == b@[i as int]);
                    }
                }
            }
            return false;
        }
        i += 1;
    }
    proof {
        assert(a@ =~= b@);
    }
    true
}

/// Copy of `s[lo..hi]`.
pub fn subvec(s: &Vec<u8>, lo: usize, hi: usize) -> (r: Vec<u8>)
    requires
        lo <= hi <= s@.len(),
    ensures
        r@ == s@.subrange(lo as int, hi as int),
{
    let mut r: Vec<u8> = Vec::new();
    let mut i: usize = lo;
    while i < hi
        invariant
            lo <= i <= hi <= s@.len(),
            r@ == s@.subrange(lo as int, i as int),
        decreases hi - i,
    {
        r.push(s[i]);
        proof {
            assert(r@ =~= s@.subrange(lo as int, i + 1 as int));
        }
        i += 1;
    }
    r
}

/// Position of the first `b` in `s`, if any.
pub fn find_byte(s: &Vec<u8>, b: u8) -> (r: Option<usize>)
    ensures
        match r {
            Some(i) => i < s@.len() && s@.contains(b) && i == first_occurrence(s@, b),
            None => !s@.contains(b),
        },
{
    let mut i: usize = 0;
    while i < s.len()
        invariant
            i <= s@.len(),
            forall|k: int| 0 <= k < i ==> s@[k] != b,
        decreases s@.len() - i,
    {
        if s[i] == b {
            proof {
                lemma_first_occurrence_unique(s@, b, i as int);
            }
            return Some(i);
        }
        i += 1;
    }
    proof {
        assert(!s@.contains(b)) by {
            if s@.contains(b) {
                let j = choose|j: int| 0 <= j < s@.len() && s@[j] == b;
                assert(s@[j] != b);
            }
        }
    }
    None
}

/// Copy of `s` with leading and trailing whitespace removed.
pub fn trim_vec(s: &Vec<u8>) -> (r: Vec<u8>)
    ensures
        r@ == trim(s@),
{
    let mut lo: usize = 0;
    while lo < s.len() && is_space_byte(s[lo])
        invariant
            lo <= s@.len(),
            forall|k: int| 0 <= k < lo ==> is_space(s@[k]),
        decreases s@.len() - lo,
    {
        lo += 1;
    }
    let mut hi: usize = s.len();
    while hi > lo && is_space_byte(s[hi - 1])
        invariant
            lo <= hi <= s@.len(),
            forall|k: int| hi <= k < s@.len() ==> is_space(s@[k]),
        decreases hi,
    {
        hi -= 1;
    }
    proof {
        lemma_trim_start_at(s@, lo as int);
        let t = s@.skip(lo as int);
        assert forall|k: int| hi - lo <= k < t.len() implies is_space(t[k]) by {
            assert(t[k] == s@[k + lo]);
        }
        if hi > lo {
            assert(t[hi - lo - 1] == s@[hi - 1]);
        }
        lemma_trim_end_at(t, hi - lo);
        assert(t.take(hi - lo) =~= s@.subrange(lo as int, hi as int));
    }
    subvec(s, lo, hi)
}

/// The fragments joined as `join_fragments` describes.
pub fn join_fragments_vec(fs: &Vec<Vec<u8>>) -> (r: Vec<u8>)
    ensures
        r@ == join_fragments(frags_view(fs@)),
{
    let ghost fv = frags_view(fs@);
    if fs.len() == 0 {
        let r: Vec<u8> = Vec::new();
        return r;
    }
    let mut r = trim_vec(&fs[0]);
    proof {
        assert(fv.take(1)[0] == fs@[0]@);
        assert(r@ == join_fragments(fv.take(1)));
    }
    let mut i: usize = 1;
    while i < fs.len()
        invariant
            1 <= i <= fs@.len(),
            fv == frags_view(fs@),
            r@ == join_fragments(fv.take(i as int)),
        decreases fs@.len() - i,
    {
        r.push(32);
        let mut t = trim_vec(&fs[i]);
        r.append(&mut t);
        proof {
            assert(fv.take(i + 1).drop_last() =~= fv.take(i as int));
            assert(fv.take(i + 1).last() == fs@[i as int]@);
            assert(r@ =~= join_fragments(fv.take(i as int)) + seq![32u8] + trim(fs@[i as int]@));
        }
        i += 1;
    }
    proof {
        assert(fv.take(fs@.len() as int) =~= fv);
    }
    r
}

} // verus!
