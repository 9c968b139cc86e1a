//! Byte-sequence helpers shared by the frame decoder and the command parser:
//! first-occurrence search and range copies, with exact contracts.

use vstd::prelude::*;

verus! {

/// Index of the first occurrence of byte `b` in `s`, or -1 if `b` does not occur.
pub open spec fn find_byte(s: Seq<u8>, b: u8) -> int
    decreases s.len(),
{
    if s.len() == 0 {
        -1
    } else if s[0] == b {
        0
    } else if find_byte(s.drop_first(), b) < 0 {
        -1
    } else {
        1 + find_byte(s.drop_first(), b)
    }
}

/// `find_byte` is -1 exactly when `b` is absent; otherwise it is the least
/// index holding `b`.
pub proof fn lemma_find_byte(s: Seq<u8>, b: u8)
    ensures
        find_byte(s, b) < 0 ==> forall|i: int| 0 <= i < s.len() ==> s[i] != b,
        find_byte(s, b) >= 0 ==> find_byte(s, b) < s.len() && s[find_byte(s, b)] == b && (forall|
            i: int,
        | 0 <= i < find_byte(s, b) ==> s[i] != b),
    decreases s.len(),
{
    if s.len() > 0 && s[0] != b {
        lemma_find_byte(s.drop_first(), b);
        assert(forall|i: int| 1 <= i < s.len() ==> s[i] == s.drop_first()[i - 1]);
    }
}

/// A position holding `b`, with no earlier occurrence, is what `find_byte` returns.
pub proof fn lemma_find_byte_at(s: Seq<u8>, b: u8, p: int)
    requires
        0 <= p < s.len(),
        s[p] == b,
        forall|i: int| 0 <= i < p ==> s[i] != b,
    ensures
        find_byte(s, b) == p,
    decreases p,
{
    if p > 0 {
        assert(forall|i: int| 0 <= i < s.len() - 1 ==> s.drop_first()[i] == s[i + 1]);
        lemma_find_byte_at(s.drop_first(), b, p - 1);
    }
}

/// How the first occurrence behaves under concatenation: an occurrence in the
/// left part wins; otherwise the search continues in the right part.
pub proof fn lemma_find_byte_append(v: Seq<u8>, w: Seq<u8>, b: u8)
    ensures
        find_byte(v, b) >= 0 ==> find_byte(v + w, b) == find_byte(v, b),
        find_byte(v, b) < 0 && find_byte(w, b) >= 0 ==> find_byte(v + w, b) == v.len() + find_byte(
            w,
            b,
        ),
        find_byte(v, b) < 0 && find_byte(w, b) < 0 ==> find_byte(v + w, b) < 0,
{
    lemma_find_byte(v, b);
    lemma_find_byte(w, b);
    lemma_find_byte(v + w, b);
    if find_byte(v, b) >= 0 {
        lemma_find_byte_at(v + w, b, find_byte(v, b));
    } else if find_byte(w, b) >= 0 {
        lemma_find_byte_at(v + w, b, v.len() + find_byte(w, b));
    } else {
        if find_byte(v + w, b) >= 0 {
            let q = find_byte(v + w, b);
            assert((v + w)[q] == b);
            assert(q < v.len() ==> (v + w)[q] == v[q]);
            assert(q >= v.len() ==> (v + w)[q] == w[q - v.len()]);
        }
    }
}

/// First occurrence of `b` in `v[0..end]`, as an executable search.
pub fn find_byte_in(v: &Vec<u8>, end: usize, b: u8) -> (r: Option<usize>)
    requires
        end <= v@.len(),
    ensures
        match r {
            Some(p) => p < end && find_byte(v@.take(end as int), b) == p,
            None => find_byte(v@.take(end as int), b) < 0,
        },
{
    let ghost s = v@.take(end as int);
    let mut i: usize = 0;
    while i < end
        invariant
            i <= end,
            end <= v@.len(),
            s == v@.take(end as int),
            forall|j: int| 0 <= j < i ==> s[j] != b,
        decreases end - i,
    {
        if v[i] == b {
            proof {
                lemma_find_byte_at(s, b, i as int);
            }
            return Some(i);
        }
        i = i + 1;
    }
    proof {
        lemma_find_byte(s, b);
    }
    None
}

/// Equality of two byte vectors.
pub fn vec_eq(a: &Vec<u8>, b: &Vec<u8>) -> (r: bool)
    ensures
        r == (a@ == b@),
{
    if a.len() != b.len() {
        return false;
    }
    let n = a.len();
    let mut i: usize = 0;
    while i < n
        invariant
            i <= n,
            n == a@.len() == b@.len(),
            forall|j: int| 0 <= j < i ==> a@[j] == b@[j],
        decreases n - i,
    {
        if a[i] != b[i] {
            return false;
        }
        i = i + 1;
    }
    proof {
        assert(a@ =~= b@);
    }
    true
}

/// Copy of `v[from..to]` as a fresh vector.
pub fn copy_range(v: &Vec<u8>, from: usize, to: usize) -> (r: Vec<u8>)
    requires
        from <= to <= v@.len(),
    ensures
        r@ == v@.subrange(from as int, to as int),
{
    let mut r: Vec<u8> = Vec::new();
    let mut i: usize = from;
    while i < to
        invariant
            from <= i <= to <= v@.len(),
            r@ == v@.subrange(from as int, i as int),
        decreases to - i,
    {
        r.push(v[i]);
        proof {
            assert(r@ =~= v@.subrange(from as int, i as int + 1));
        }
        i = i + 1;
    }
    r
}

} // verus!
