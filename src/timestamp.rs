//! Timestamps are the platform's message identities ("1636048583.000400").
//! They stay strings: their lexicographic order is their chronological order.
//! Rust orders strings by their UTF-8 bytes, and so does this module.

use vstd::prelude::*;
use vstd::utf8::*;
use core::cmp::Ordering;

verus! {

/// Strict lexicographic order on byte strings: `a` sorts before `b`.
pub open spec fn bytes_before(a: Seq<u8>, b: Seq<u8>) -> bool
    decreases a.len(),
{
    if a.len() == 0 {
        b.len() > 0
    } else if b.len() == 0 {
        false
    } else if a[0] != b[0] {
        a[0] < b[0]
    } else {
        bytes_before(a.drop_first(), b.drop_first())
    }
}

/// Timestamp `a` is strictly earlier than timestamp `b`.
pub open spec fn ts_before(a: Seq<char>, b: Seq<char>) -> bool {
    bytes_before(encode_utf8(a), encode_utf8(b))
}

proof fn lemma_bytes_irreflexive(a: Seq<u8>)
    ensures
        !bytes_before(a, a),
    decreases a.len(),
{
    if a.len() > 0 {
        lemma_bytes_irreflexive(a.drop_first());
    }
}

proof fn lemma_bytes_transitive(a: Seq<u8>, b: Seq<u8>, c: Seq<u8>)
    requires
        bytes_before(a, b),
        bytes_before(b, c),
    ensures
        bytes_before(a, c),
    decreases a.len(),
{
    if a.len() > 0 && b.len() > 0 && c.len() > 0 && a[0] == b[0] && b[0] == c[0] {
        lemma_bytes_transitive(a.drop_first(), b.drop_first(), c.drop_first());
    }
}

proof fn lemma_bytes_total(a: Seq<u8>, b: Seq<u8>)
    requires
        a != b,
    ensures
        bytes_before(a, b) || bytes_before(b, a),
    decreases a.len(),
{
    if a.len() > 0 && b.len() > 0 && a[0] == b[0] {
        if a.drop_first() == b.drop_first() {
            assert(a =~= seq![a[0]] + a.drop_first());
            assert(b =~= seq![b[0]] + b.drop_first());
        }
        lemma_bytes_total(a.drop_first(), b.drop_first());
    } else if a.len() == 0 && b.len() == 0 {
        assert(a =~= b);
    }
}

/// A shared prefix does not decide the order: what follows it does.
proof fn lemma_bytes_common_prefix(a: Seq<u8>, b: Seq<u8>, i: int)
    requires
        0 <= i <= a.len(),
        i <= b.len(),
        a.take(i) =~= b.take(i),
    ensures
        bytes_before(a, b) == bytes_before(a.skip(i), b.skip(i)),
    decreases i,
{
    if i > 0 {
        assert(a[0] == a.take(i)[0]);
        assert(b[0] == b.take(i)[0]);
        assert(a.drop_first().take(i - 1) =~= b.drop_first().take(i - 1)) by {
            assert forall|k: int| 0 <= k < i - 1 implies a.drop_first()[k] == b.drop_first()[k] by {
                assert(a.take(i)[k + 1] == b.take(i)[k + 1]);
            }
        }
        lemma_bytes_common_prefix(a.drop_first(), b.drop_first(), i - 1);
        assert(a.drop_first().skip(i - 1) =~= a.skip(i));
        assert(b.drop_first().skip(i - 1) =~= b.skip(i));
    } else {
        assert(a.skip(0) =~= a);
        assert(b.skip(0) =~= b);
    }
}

/// No timestamp is earlier than itself.
pub proof fn lemma_ts_irreflexive(a: Seq<char>)
    ensures
        !ts_before(a, a),
{
    lemma_bytes_irreflexive(encode_utf8(a));
}

/// Earlier-than is transitive.
pub proof fn lemma_ts_transitive(a: Seq<char>, b: Seq<char>, c: Seq<char>)
    requires
        ts_before(a, b),
        ts_before(b, c),
    ensures
        ts_before(a, c),
{
    lemma_bytes_transitive(encode_utf8(a), encode_utf8(b), encode_utf8(c));
}

/// Of two distinct timestamps, one is earlier than the other, and not both.
pub proof fn lemma_ts_total(a: Seq<char>, b: Seq<char>)
    ensures
        a != b ==> (ts_before(a, b) || ts_before(b, a)),
        !(ts_before(a, b) && ts_before(b, a)),
{
    if a != b {
        assert(decode_utf8(encode_utf8(a)) == a) by {
            encode_utf8_decode_utf8(a);
        }
        assert(decode_utf8(encode_utf8(b)) == b) by {
            encode_utf8_decode_utf8(b);
        }
        lemma_bytes_total(encode_utf8(a), encode_utf8(b));
    }
    if ts_before(a, b) && ts_before(b, a) {
        lemma_ts_transitive(a, b, a);
        lemma_ts_irreflexive(a);
    }
}

/// Compares two timestamps in Rust's string order.
pub fn compare_ts(a: &str, b: &str) -> (r: Ordering)
    ensures
        (r == Ordering::Less) == ts_before(a@, b@),
        (r == Ordering::Greater) == ts_before(b@, a@),
        (r == Ordering::Equal) == (a@ == b@),
{
    let x = a.as_bytes();
    let y = b.as_bytes();
    let ghost xs = encode_utf8(a@);
    let ghost ys = encode_utf8(b@);
    let mut i: usize = 0;
    while i < x.len() && i < y.len()
        invariant
            xs == encode_utf8(a@),
            ys == encode_utf8(b@),
            x@ == xs,
            y@ == ys,
            i <= xs.len(),
            i <= ys.len(),
            forall|k: int| 0 <= k < i ==> xs[k] == ys[k],
        decreases xs.len() - i,
    {
        if x[i] != y[i] {
            proof {
                assert(xs.take(i as int) =~= ys.take(i as int));
                assert(xs.skip(i as int)[0] == xs[i as int]);
                assert(ys.skip(i as int)[0] == ys[i as int]);
                lemma_bytes_common_prefix(xs, ys, i as int);
                lemma_bytes_common_prefix(ys, xs, i as int);
                lemma_ts_total(a@, b@);
            }
            if x[i] < y[i] {
                assert(bytes_before(xs.skip(i as int), ys.skip(i as int)));
                return Ordering::Less;
            } else {
                return Ordering::Greater;
            }
        }
        i = i + 1;
    }
    proof {
        assert(xs.take(i as int) =~= ys.take(i as int));
        lemma_bytes_common_prefix(xs, ys, i as int);
        lemma_bytes_common_prefix(ys, xs, i as int);
        lemma_ts_total(a@, b@);
        lemma_ts_irreflexive(a@);
    }
    if x.len() == y.len() {
        proof {
            assert(xs =~= ys) by {
                assert(xs =~= xs.take(i as int));
                assert(ys =~= ys.take(i as int));
            }
            encode_utf8_decode_utf8(a@);
            encode_utf8_decode_utf8(b@);
        }
        Ordering::Equal
    } else if x.len() < y.len() {
        Ordering::Less
    } else {
        Ordering::Greater
    }
}

} // verus!
