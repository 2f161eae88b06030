//! General utilities

use vstd::prelude::*;
use vstd::std_specs::cmp::PartialEqSpec;

verus! {

/// Trusted: `rand::RngCore::next_u64` on `rand::thread_rng()`. Nothing is
/// promised of the value.
#[verifier::external_body]
fn next_random_u64() -> (r: u64) {
    rand::RngCore::next_u64(&mut rand::thread_rng())
}

/// Byte `j` (counted from the most significant) of the big-endian form of `w`.
pub open spec fn be_byte(w: u64, j: int) -> u8 {
    ((w >> ((8 * (7 - j)) as u64)) & 0xff) as u8
}

/// The big-endian bytes of the words, one word after another.
pub open spec fn be_bytes_spec(words: Seq<u64>) -> Seq<u8>
    decreases words.len(),
{
    if words.len() == 0 {
        Seq::empty()
    } else {
        be_bytes_spec(words.drop_last()) + Seq::new(8, |j: int| be_byte(words.last(), j))
    }
}

/// The big-endian bytes of the words, one word after another.
pub fn be_bytes(words: &Vec<u64>) -> (r: Vec<u8>)
    requires
        words@.len() * 8 <= usize::MAX,
    ensures
        r@ == be_bytes_spec(words@),
        r@.len() == words@.len() * 8,
{
    let mut out: Vec<u8> = Vec::new();
    let mut i: usize = 0;
    while i < words.len()
        invariant
            i <= words@.len(),
            out@ == be_bytes_spec(words@.take(i as int)),
            out@.len() == i * 8,
        decreases words@.len() - i,
    {
        let w = words[i];
        let ghost before = out@;
        let mut j: usize = 0;
        while j < 8
            invariant
                j <= 8,
                out@ == before + Seq::new(j as nat, |k: int| be_byte(w, k)),
            decreases 8 - j,
        {
            let shift: u64 = (8 * (7 - j)) as u64;
            let b = ((w >> shift) & 0xff) as u8;
            out.push(b);
            j = j + 1;
            assert(out@ =~= before + Seq::new(j as nat, |k: int| be_byte(w, k)));
        }
        proof {
            let t = words@.take(i as int + 1);
            assert(t.drop_last() =~= words@.take(i as int));
            assert(t.last() == w);
        }
        i = i + 1;
    }
    assert(words@.take(i as int) =~= words@);
    out
}

/// `len` random 64-bit words, as big-endian bytes.
pub fn random(len: usize) -> (r: Vec<u8>)
    requires
        len * 8 <= usize::MAX,
    ensures
        r@.len() == len * 8,
{
    let mut words: Vec<u64> = Vec::new();
    let mut i: usize = 0;
    while i < len
        invariant
            i <= len,
            words@.len() == i,
        decreases len - i,
    {
        words.push(next_random_u64());
        i = i + 1;
    }
    be_bytes(&words)
}

/// The elements that are not equal to `t`.
pub open spec fn differs_from<T: PartialEq>(t: &T) -> spec_fn(T) -> bool {
    |x: T| !x.eq_spec(t)
}

/// Filtering twice by the same predicate filters once: stripping an
/// element again changes nothing.
pub proof fn lemma_filter_twice<T>(s: Seq<T>, p: spec_fn(T) -> bool)
    ensures
        s.filter(p).filter(p) == s.filter(p),
    decreases s.len(),
{
    reveal_with_fuel(Seq::<_>::filter, 1);
    if s.len() > 0 {
        lemma_filter_twice(s.drop_last(), p);
        let f = s.drop_last().filter(p);
        if p(s.last()) {
            assert(f.push(s.last()).drop_last() =~= f);
        }
    }
}

/// A functional remove/add interface for vectors.
pub trait VecUtils<T: PartialEq>: Sized {
    /// Removes every element equal to `t`.
    fn strip(self, t: &T) -> Self;

    /// Adds an element at the end.
    fn add(self, t: T) -> Self;
}

impl<T: PartialEq> VecUtils<T> for Vec<T> {
    fn strip(self, t: &T) -> (r: Vec<T>)
        ensures
            r@.len() <= self@.len(),
            forall|k: int| 0 <= k < r@.len() ==> self@.contains(#[trigger] r@[k]),
            T::obeys_eq_spec() ==> r@ == self@.filter(differs_from(t)),
            T::obeys_eq_spec() ==> forall|k: int| 0 <= k < r@.len() ==> !(#[trigger] r@[k]).eq_spec(t),
    {
        let mut out: Vec<T> = Vec::new();
        let mut v = self;
        let ghost orig = v@;
        let n = v.len();
        let mut i: usize = 0;
        while v.len() > 0
            invariant
                i + v@.len() == n,
                n == orig.len(),
                v@ == orig.skip(i as int),
                out@.len() <= i,
                forall|k: int| 0 <= k < out@.len() ==> orig.contains(#[trigger] out@[k]),
                T::obeys_eq_spec() ==> out@ == orig.take(i as int).filter(differs_from(t)),
            decreases v@.len(),
        {
            let x = v.remove(0);
            proof {
                assert(x == orig[i as int]);
                assert(orig.skip(i as int).remove(0) =~= orig.skip(i as int + 1));
                reveal_with_fuel(Seq::<_>::filter, 1);
                let s = orig.take(i as int + 1);
                assert(s.drop_last() =~= orig.take(i as int));
            }
            if x != *t {
                out.push(x);
            }
            i = i + 1;
        }
        assert(orig.take(n as int) =~= orig);
        proof {
            broadcast use vstd::seq_lib::group_filter_ensures;
            assert(orig.filter(differs_from(t)).len() <= orig.len());
        }
        out
    }

    fn add(self, t: T) -> (r: Vec<T>)
        ensures
            r@ == self@.push(t),
    {
        let mut v = self;
        v.push(t);
        v
    }
}

} // verus!
