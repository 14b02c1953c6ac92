//! Removal of every occurrence of a byte pattern, used to shorten ids in
//! saved timetables.
use vstd::prelude::*;

verus! {

/// `s` with every occurrence of `p` removed, scanning from the left and
/// resuming after each removed occurrence. An empty pattern removes nothing.
pub open spec fn without(s: Seq<u8>, p: Seq<u8>) -> Seq<u8>
    decreases s.len(),
{
    if p.len() == 0 || s.len() < p.len() {
        s
    } else if s.take(p.len() as int) == p {
        without(s.skip(p.len() as int), p)
    } else {
        seq![s[0]] + without(s.drop_first(), p)
    }
}

/// Whether `p` occurs in `s` at position `at`.
fn occurs_at(s: &[u8], p: &[u8], at: usize) -> (r: bool)
    requires
        at + p@.len() <= s@.len(),
    ensures
        r == (s@.subrange(at as int, at + p@.len()) == p@),
{
    let n = s.len();
    let mut k: usize = 0;
    while k < p.len()
        invariant
            n == s@.len(),
            k <= p@.len(),
            at + p@.len() <= s@.len(),
            forall|q: int| 0 <= q < k ==> s@[at + q] == p@[q],
        decreases p@.len() - k,
    {
        if s[at + k] != p[k] {
            assert(s@.subrange(at as int, at + p@.len())[k as int] != p@[k as int]);
            return false;
        }
        k = k + 1;
    }
    assert(s@.subrange(at as int, at + p@.len()) =~= p@);
    true
}

/// `text` with every occurrence of `pattern` removed, as `str::replace`
/// with an empty replacement does.
pub fn remove_all(text: &[u8], pattern: &[u8]) -> (r: Vec<u8>)
    ensures
        r@ == without(text@, pattern@),
{
    let mut out: Vec<u8> = Vec::new();
    if pattern.len() == 0 {
        let mut i: usize = 0;
        while i < text.len()
            invariant
                i <= text@.len(),
                out@ == text@.take(i as int),
            decreases text@.len() - i,
        {
            out.push(text[i]);
            assert(text@.take(i + 1) =~= text@.take(i as int).push(text@[i as int]));
            i = i + 1;
        }
        assert(text@.take(text@.len() as int) =~= text@);
        return out;
    }
    let mut i: usize = 0;
    assert(text@.skip(0) =~= text@);
    while i < text.len()
        invariant
            i <= text@.len(),
            pattern@.len() > 0,
            out@ + without(text@.skip(i as int), pattern@) == without(text@, pattern@),
        decreases text@.len() - i,
    {
        let ghost rest = text@.skip(i as int);
        if pattern.len() <= text.len() - i && occurs_at(text, pattern, i) {
            assert(rest.take(pattern@.len() as int) =~= text@.subrange(i as int, i + pattern@.len()));
            assert(rest.skip(pattern@.len() as int) =~= text@.skip(i + pattern@.len()));
            i = i + pattern.len();
        } else {
            if pattern.len() <= text.len() - i {
                assert(rest.take(pattern@.len() as int) =~= text@.subrange(i as int, i + pattern@.len()));
            }
            assert(rest.drop_first() =~= text@.skip(i + 1));
            let ghost before = out@;
            out.push(text[i]);
            assert(out@ + without(text@.skip(i + 1), pattern@) =~= before + (seq![text@[i as int]] + without(rest.drop_first(), pattern@)));
            i = i + 1;
        }
    }
    assert(text@.skip(i as int) =~= Seq::<u8>::empty());
    assert(out@ + Seq::<u8>::empty() =~= out@);
    out
}

} // verus!
