//! Byte-wise lexicographic order on strings (the order of `String`'s `Ord`) and
//! a stable insertion sort by that order.

use vstd::prelude::*;
use vstd::string::StringSliceAdditionalSpecFns;

verus! {

/// `a` comes strictly before `b` in lexicographic byte order.
pub open spec fn bytes_lt(a: Seq<u8>, b: Seq<u8>) -> bool
    decreases a.len(),
{
    if a.len() == 0 {
        b.len() > 0
    } else if b.len() == 0 {
        false
    } else if a[0] < b[0] {
        true
    } else if a[0] > b[0] {
        false
    } else {
        bytes_lt(a.drop_first(), b.drop_first())
    }
}

/// UTF-8 bytes of a string's characters.
pub open spec fn utf8_bytes(s: Seq<char>) -> Seq<u8> {
    vstd::utf8::encode_utf8(s)
}

/// String `a` sorts strictly before string `b`.
pub open spec fn str_lt(a: Seq<char>, b: Seq<char>) -> bool {
    bytes_lt(utf8_bytes(a), utf8_bytes(b))
}

/// The strings are in non-decreasing order.
pub open spec fn sorted_strs(s: Seq<Seq<char>>) -> bool {
    forall|i: int, j: int| 0 <= i < j < s.len() ==> !str_lt(s[j], s[i])
}

/// No byte string sorts before itself.
pub proof fn lemma_bytes_lt_irreflexive(a: Seq<u8>)
    ensures
        !bytes_lt(a, a),
    decreases a.len(),
{
    if a.len() > 0 {
        lemma_bytes_lt_irreflexive(a.drop_first());
    }
}

/// Byte order is transitive.
pub proof fn lemma_bytes_lt_transitive(a: Seq<u8>, b: Seq<u8>, c: Seq<u8>)
    requires
        bytes_lt(a, b),
        bytes_lt(b, c),
    ensures
        bytes_lt(a, c),
    decreases a.len(),
{
    if a.len() > 0 && b.len() > 0 && c.len() > 0 && a[0] == b[0] && b[0] == c[0] {
        lemma_bytes_lt_transitive(a.drop_first(), b.drop_first(), c.drop_first());
    }
}

proof fn lemma_bytes_lt_skip(a: Seq<u8>, b: Seq<u8>, i: int)
    requires
        0 <= i < a.len(),
        i < b.len(),
        a[i] == b[i],
    ensures
        bytes_lt(a.skip(i), b.skip(i)) == bytes_lt(a.skip(i + 1), b.skip(i + 1)),
{
    assert(a.skip(i).drop_first() =~= a.skip(i + 1));
    assert(b.skip(i).drop_first() =~= b.skip(i + 1));
}

/// Whether `a` sorts strictly before `b`.
pub fn string_less(a: &String, b: &String) -> (r: bool)
    ensures
        r == str_lt(a@, b@),
{
    let x = a.as_str().as_bytes();
    let y = b.as_str().as_bytes();
    let ghost xs = utf8_bytes(a@);
    let ghost ys = utf8_bytes(b@);
    proof {
        assert(x@ == xs);
        assert(y@ == ys);
        assert(xs.skip(0) =~= xs);
        assert(str_lt(a@, b@) == bytes_lt(xs, ys));
        assert(ys.skip(0) =~= ys);
    }
    let mut i: usize = 0;
    while i < x.len() && i < y.len()
        invariant
            x@ == xs,
            y@ == ys,
            xs == utf8_bytes(a@),
            ys == utf8_bytes(b@),
            0 <= i <= xs.len(),
            i <= ys.len(),
            bytes_lt(xs, ys) == bytes_lt(xs.skip(i as int), ys.skip(i as int)),
        decreases xs.len() - i,
    {
        proof {
            assert(xs.skip(i as int)[0] == xs[i as int]);
            assert(ys.skip(i as int)[0] == ys[i as int]);
            assert(xs.skip(i as int).len() > 0 && ys.skip(i as int).len() > 0);
        }
        if x[i] < y[i] {
            proof {
                assert(bytes_lt(xs.skip(i as int), ys.skip(i as int)));
            }
            return true;
        }
        if x[i] > y[i] {
            proof {
                assert(!bytes_lt(xs.skip(i as int), ys.skip(i as int)));
            }
            return false;
        }
        proof {
            lemma_bytes_lt_skip(xs, ys, i as int);
        }
        i = i + 1;
    }
    proof {
        assert(xs.skip(i as int).len() == xs.len() - i);
    }
    i < y.len()
}

/// Sorts strings by byte order, keeping equal strings in their input order.
pub fn sort_strings(v: Vec<String>) -> (r: Vec<String>)
    ensures
        r@.map_values(|s: String| s@).to_multiset() == v@.map_values(|s: String| s@).to_multiset(),
        sorted_strs(r@.map_values(|s: String| s@)),
{
    let ghost input = v@.map_values(|s: String| s@);
    let mut out: Vec<String> = Vec::new();
    let mut k: usize = 0;
    proof {
        broadcast use vstd::seq_lib::group_to_multiset_ensures;
        assert(out@.map_values(|s: String| s@) =~= input.take(0));
    }
    while k < v.len()
        invariant
            0 <= k <= v@.len(),
            input == v@.map_values(|s: String| s@),
            out@.map_values(|s: String| s@).to_multiset() == input.take(k as int).to_multiset(),
            sorted_strs(out@.map_values(|s: String| s@)),
        decreases v@.len() - k,
    {
        let ghost ov = out@.map_values(|s: String| s@);
        let mut p: usize = 0;
        let mut stop = false;
        while p < out.len() && !stop
            invariant
                0 <= k < v@.len(),
                0 <= p <= out@.len(),
                ov == out@.map_values(|s: String| s@),
                forall|i: int| 0 <= i < p ==> !str_lt(v@[k as int]@, ov[i]),
                stop ==> p < out@.len() && str_lt(v@[k as int]@, ov[p as int]),
            decreases out@.len() - p, if stop { 0int } else { 1int },
        {
            if string_less(&v[k], &out[p]) {
                stop = true;
            } else {
                p = p + 1;
            }
        }
        let x = v[k].clone();
        out.insert(p, x);
        proof {
            broadcast use vstd::seq_lib::group_to_multiset_ensures;
            let nv = out@.map_values(|s: String| s@);
            let xv = v@[k as int]@;
            assert(nv =~= ov.insert(p as int, xv));
            assert(nv.remove(p as int) =~= ov);
            assert(nv[p as int] == xv);
            assert(nv.to_multiset().remove(xv) =~= ov.to_multiset());
            assert(nv.to_multiset().count(xv) > 0);
            assert(nv.to_multiset() =~= ov.to_multiset().insert(xv));
            assert(input.take(k + 1) =~= input.take(k as int).push(input[k as int]));
            assert(input[k as int] == xv);
            assert forall|i: int, j: int| 0 <= i < j < nv.len() implies !str_lt(nv[j], nv[i]) by {
                if j < p {
                    assert(nv[i] == ov[i] && nv[j] == ov[j]);
                    assert(!str_lt(nv[j], nv[i]));
                } else if j == p {
                    assert(nv[i] == ov[i]);
                    assert(nv[j] == xv);
                    assert(!str_lt(xv, ov[i]));
                } else if i < p {
                    assert(nv[i] == ov[i] && nv[j] == ov[j - 1]);
                    assert(!str_lt(nv[j], nv[i]));
                } else if i == p {
                    assert(nv[j] == ov[j - 1]);
                    assert(nv[i] == xv);
                    assert(p < ov.len());
                    assert(str_lt(xv, ov[p as int]));
                    if str_lt(ov[j - 1], xv) {
                        lemma_bytes_lt_transitive(
                            utf8_bytes(ov[j - 1]),
                            utf8_bytes(xv),
                            utf8_bytes(ov[p as int]),
                        );
                        if j - 1 == p {
                            lemma_bytes_lt_irreflexive(utf8_bytes(ov[p as int]));
                        } else {
                            assert(sorted_strs(ov));
                            assert(0 <= p < j - 1 < ov.len());
                            assert(!str_lt(ov[j - 1], ov[p as int]));
                        }
                    }
                    assert(!str_lt(nv[j], nv[i]));
                } else {
                    assert(nv[i] == ov[i - 1] && nv[j] == ov[j - 1]);
                    assert(!str_lt(nv[j], nv[i]));
                }
            }
        }
        k = k + 1;
    }
    proof {
        assert(input.take(v@.len() as int) =~= input);
    }
    out
}

} // verus!
