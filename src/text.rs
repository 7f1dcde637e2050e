//! Character-level helpers over `&str`, stated on the string's view as a
//! sequence of `char`s.
use vstd::prelude::*;

verus! {

/// `q` occurs in `s` as a contiguous run of characters, starting at `i`.
pub open spec fn occurs_at(s: Seq<char>, q: Seq<char>, i: int) -> bool {
    0 <= i && i + q.len() <= s.len() && s.subrange(i, i + q.len()) == q
}

/// `q` occurs somewhere in `s` as a contiguous, case-sensitive substring.
/// The empty sequence occurs in every sequence.
pub open spec fn has_substring(s: Seq<char>, q: Seq<char>) -> bool {
    exists|i: int| occurs_at(s, q, i)
}

/// The characters of `s`, in order.
pub fn chars_of(s: &str) -> (v: Vec<char>)
    ensures
        v@ == s@,
{
    let mut v: Vec<char> = Vec::new();
    for c in it: s.chars()
        invariant
            it.seq() == s@,
            v@ == it.seq().take(it.index() as int),
    {
        v.push(c);
    }
    v
}

/// Whether the run `c[lo..hi]` contains `q` as a contiguous substring.
pub fn contains_in(c: &Vec<char>, lo: usize, hi: usize, q: &Vec<char>) -> (r: bool)
    requires
        lo <= hi <= c@.len(),
    ensures
        r == has_substring(c@.subrange(lo as int, hi as int), q@),
{
    let ghost line = c@.subrange(lo as int, hi as int);
    if q.len() > hi - lo {
        assert forall|i: int| !occurs_at(line, q@, i) by {}
        return false;
    }
    let last: usize = hi - q.len();
    let mut i: usize = lo;
    while i <= last
        invariant
            lo <= i <= last + 1,
            last + q@.len() == hi,
            hi <= c@.len(),
            line == c@.subrange(lo as int, hi as int),
            forall|k: int| 0 <= k < i - lo ==> !occurs_at(line, q@, k),
        decreases last + 1 - i,
    {
        let mut j: usize = 0;
        while j < q.len() && c[i + j] == q[j]
            invariant
                lo <= i <= last,
                last + q@.len() == hi,
                hi <= c@.len(),
                j <= q@.len(),
                forall|t: int| 0 <= t < j ==> c@[i + t] == q@[t],
            decreases q@.len() - j,
        {
            j = j + 1;
        }
        if j == q.len() {
            assert(line.subrange(i - lo, i - lo + q@.len()) =~= q@);
            assert(occurs_at(line, q@, i - lo));
            return true;
        }
        assert(!occurs_at(line, q@, i - lo)) by {
            if occurs_at(line, q@, i - lo) {
                assert(line.subrange(i - lo, i - lo + q@.len())[j as int] == c@[i + j]);
            }
        }
        i = i + 1;
    }
    false
}

/// Whether `a` and `b` hold the same characters.
pub fn same_text(a: &str, b: &str) -> (r: bool)
    ensures
        r == (a@ == b@),
{
    let x = chars_of(a);
    let y = chars_of(b);
    if x.len() != y.len() {
        return false;
    }
    let mut i: usize = 0;
    while i < x.len()
        invariant
            x@ == a@,
            y@ == b@,
            x@.len() == y@.len(),
            i <= x@.len(),
            forall|k: int| 0 <= k < i ==> x@[k] == y@[k],
        decreases x@.len() - i,
    {
        if x[i] != y[i] {
            return false;
        }
        i = i + 1;
    }
    assert(x@ =~= y@);
    true
}

} // verus!
