//! A total order on symbols: byte-wise lexicographic over their UTF-8
//! encodings, with a shorter string preceding its extensions.

use vstd::prelude::*;
use vstd::string::StringSliceAdditionalSpecFns;

verus! {

/// Byte-wise lexicographic order, prefixes first.
pub open spec fn spec_bytes_le(x: Seq<u8>, y: Seq<u8>) -> bool
    decreases x.len(),
{
    if x.len() == 0 {
        true
    } else if y.len() == 0 {
        false
    } else if x[0] < y[0] {
        true
    } else if x[0] > y[0] {
        false
    } else {
        spec_bytes_le(x.drop_first(), y.drop_first())
    }
}

/// The order on symbols, over their UTF-8 encodings.
pub open spec fn spec_symbol_le(a: Seq<char>, b: Seq<char>) -> bool {
    spec_bytes_le(vstd::utf8::encode_utf8(a), vstd::utf8::encode_utf8(b))
}

/// Every byte string precedes itself.
pub proof fn lemma_bytes_le_refl(x: Seq<u8>)
    ensures
        spec_bytes_le(x, x),
    decreases x.len(),
{
    if x.len() > 0 {
        lemma_bytes_le_refl(x.drop_first());
    }
}

/// Any two byte strings compare one way or the other.
pub proof fn lemma_bytes_le_total(x: Seq<u8>, y: Seq<u8>)
    ensures
        spec_bytes_le(x, y) || spec_bytes_le(y, x),
    decreases x.len(),
{
    if x.len() > 0 && y.len() > 0 && x[0] == y[0] {
        lemma_bytes_le_total(x.drop_first(), y.drop_first());
    }
}

/// The byte order chains.
pub proof fn lemma_bytes_le_trans(x: Seq<u8>, y: Seq<u8>, z: Seq<u8>)
    requires
        spec_bytes_le(x, y),
        spec_bytes_le(y, z),
    ensures
        spec_bytes_le(x, z),
    decreases x.len(),
{
    if x.len() > 0 && y.len() > 0 && z.len() > 0 && x[0] == y[0] && y[0] == z[0] {
        lemma_bytes_le_trans(x.drop_first(), y.drop_first(), z.drop_first());
    }
}

/// Whether `a` precedes `b` (or equals it) in symbol order.
pub fn symbol_le(a: &String, b: &String) -> (r: bool)
    ensures
        r == spec_symbol_le(a@, b@),
{
    let ab: &[u8] = a.as_str().as_bytes();
    let bb: &[u8] = b.as_str().as_bytes();
    let ghost xs = ab@;
    let ghost ys = bb@;
    proof {
        assert(xs == vstd::utf8::encode_utf8(a@));
        assert(ys == vstd::utf8::encode_utf8(b@));
    }
    let mut i: usize = 0;
    proof {
        assert(xs.skip(0int) =~= xs);
        assert(ys.skip(0int) =~= ys);
    }
    while i < ab.len() && i < bb.len()
        invariant
            0 <= i <= xs.len(),
            0 <= i <= ys.len(),
            xs == ab@,
            ys == bb@,
            xs == vstd::utf8::encode_utf8(a@),
            ys == vstd::utf8::encode_utf8(b@),
            xs.len() == ab@.len(),
            ys.len() == bb@.len(),
            spec_bytes_le(xs, ys) == spec_bytes_le(xs.skip(i as int), ys.skip(i as int)),
        decreases xs.len() - i,
    {
        proof {
            assert(xs.skip(i as int)[0] == xs[i as int]);
            assert(ys.skip(i as int)[0] == ys[i as int]);
            assert(xs.skip(i as int).drop_first() =~= xs.skip(i + 1int));
            assert(ys.skip(i as int).drop_first() =~= ys.skip(i + 1int));
        }
        if ab[i] < bb[i] {
            return true;
        }
        if ab[i] > bb[i] {
            return false;
        }
        i = i + 1;
    }
    proof {
        if i >= xs.len() {
            assert(xs.skip(i as int) =~= Seq::<u8>::empty());
        } else {
            assert(ys.skip(i as int) =~= Seq::<u8>::empty());
            assert(xs.skip(i as int).len() > 0);
        }
    }
    ab.len() <= bb.len()
}

} // verus!
