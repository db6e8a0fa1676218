use vstd::prelude::*;

verus! {

/// `k` is the position of the first `b` in `s`, or `s.len()` where `s` holds no `b`.
pub open spec fn is_first(s: Seq<u8>, b: u8, k: int) -> bool {
    &&& 0 <= k <= s.len()
    &&& k < s.len() ==> s[k] == b
    &&& forall|j: int| 0 <= j < k ==> s[j] != b
}

/// The position of the first `b` in `s`, or `s.len()` where there is none.
pub open spec fn first(s: Seq<u8>, b: u8) -> int {
    choose|k: int| is_first(s, b, k)
}

/// `s` holds no byte `b`.
pub open spec fn free_of(s: Seq<u8>, b: u8) -> bool {
    forall|j: int| 0 <= j < s.len() ==> s[j] != b
}

pub proof fn lemma_first_unique(s: Seq<u8>, b: u8, k: int)
    requires
        is_first(s, b, k),
    ensures
        first(s, b) == k,
{
    let f = first(s, b);
    assert(is_first(s, b, f));
    if f < k {
        assert(s[f] == b);
    } else if k < f {
        assert(s[k] == b);
    }
}

pub proof fn lemma_first_exists(s: Seq<u8>, b: u8)
    ensures
        is_first(s, b, first(s, b)),
    decreases s.len(),
{
    if s.len() == 0 {
        assert(is_first(s, b, 0));
    } else {
        let t = s.drop_last();
        lemma_first_exists(t, b);
        let k = first(t, b);
        assert forall|j: int| 0 <= j < t.len() implies s[j] == t[j] by {}
        if k < t.len() {
            assert(s[k] == t[k]);
            assert(is_first(s, b, k));
        } else if s[k] == b {
            assert(is_first(s, b, k));
        } else {
            assert(is_first(s, b, s.len() as int));
        }
    }
}

/// The position of the first `b` in `s` at or after `start`, or `s.len()`.
pub fn find_from(s: &Vec<u8>, start: usize, b: u8) -> (k: usize)
    requires
        start <= s.len(),
    ensures
        start <= k <= s.len(),
        is_first(s@.skip(start as int), b, k - start),
        first(s@.skip(start as int), b) == k - start,
{
    let mut k: usize = start;
    while k < s.len() && s[k] != b
        invariant
            start <= k <= s.len(),
            forall|j: int| start <= j < k ==> s@[j] != b,
        decreases s.len() - k,
    {
        k = k + 1;
    }
    proof {
        let t = s@.skip(start as int);
        assert forall|j: int| 0 <= j < k - start implies t[j] != b by {
            assert(t[j] == s@[start + j]);
        }
        if k < s.len() {
            assert(t[k - start] == s@[k as int]);
        }
        assert(is_first(t, b, k - start));
        lemma_first_unique(t, b, k - start);
    }
    k
}

/// A copy of `s[lo..hi]`.
pub fn copy_range(s: &Vec<u8>, lo: usize, hi: usize) -> (r: Vec<u8>)
    requires
        lo <= hi <= s.len(),
    ensures
        r@ == s@.subrange(lo as int, hi as int),
{
    let mut r: Vec<u8> = Vec::new();
    let mut i: usize = lo;
    while i < hi
        invariant
            lo <= i <= hi <= s.len(),
            r@ == s@.subrange(lo as int, i as int),
        decreases hi - i,
    {
        r.push(s[i]);
        i = i + 1;
    }
    r
}

/// Appends the bytes of `s` to `out`.
pub fn append_bytes(out: &mut Vec<u8>, s: &Vec<u8>)
    ensures
        final(out)@ == old(out)@ + s@,
{
    let mut i: usize = 0;
    while i < s.len()
        invariant
            i <= s.len(),
            out@ == old(out)@ + s@.take(i as int),
        decreases s.len() - i,
    {
        out.push(s[i]);
        i = i + 1;
    }
    assert(s@.take(s.len() as int) =~= s@);
}

/// Whether `a` and `b` hold the same bytes.
pub fn same_bytes(a: &Vec<u8>, b: &Vec<u8>) -> (r: bool)
    ensures
        r == (a@ == b@),
{
    if a.len() != b.len() {
        return false;
    }
    let mut i: usize = 0;
    while i < a.len()
        invariant
            i <= a.len() == b.len(),
            forall|j: int| 0 <= j < i ==> a@[j] == b@[j],
        decreases a.len() - i,
    {
        if a[i] != b[i] {
            return false;
        }
        i = i + 1;
    }
    assert(a@ =~= b@);
    true
}

} // verus!
