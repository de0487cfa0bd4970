//! The order in which ids are written out: strings compared byte by byte
//! over their UTF-8 encoding, a shorter string before its extensions.

use vstd::prelude::*;
use vstd::utf8::{encode_utf8, encode_utf8_decode_utf8};

verus! {

/// `a` comes strictly before `b`, byte by byte.
pub open spec fn bytes_lt(a: Seq<u8>, b: Seq<u8>) -> bool
    decreases a.len(),
{
    if b.len() == 0 {
        false
    } else if a.len() == 0 {
        true
    } else if a[0] != b[0] {
        a[0] < b[0]
    } else {
        bytes_lt(a.drop_first(), b.drop_first())
    }
}

/// The id `a` comes strictly before the id `b`.
pub open spec fn id_lt(a: Seq<char>, b: Seq<char>) -> bool {
    bytes_lt(encode_utf8(a), encode_utf8(b))
}

/// Ids in strictly ascending order; no id then occurs twice.
pub open spec fn ascending(ids: Seq<Seq<char>>) -> bool {
    forall|i: int, j: int| 0 <= i < j < ids.len() ==> id_lt(#[trigger] ids[i], #[trigger] ids[j])
}

/// No byte string comes before itself.
pub proof fn lemma_bytes_lt_irreflexive(a: Seq<u8>)
    ensures
        !bytes_lt(a, a),
    decreases a.len(),
{
    if a.len() > 0 {
        lemma_bytes_lt_irreflexive(a.drop_first());
    }
}

/// What comes before something that comes before a third comes before the
/// third.
pub proof fn lemma_bytes_lt_transitive(a: Seq<u8>, b: Seq<u8>, c: Seq<u8>)
    requires
        bytes_lt(a, b),
        bytes_lt(b, c),
    ensures
        bytes_lt(a, c),
    decreases a.len(),
{
    if a.len() > 0 && b.len() > 0 && c.len() > 0 && a[0] == b[0] && b[0] == c[0] {
        lemma_bytes_lt_transitive(a.drop_first(), b.drop_first(), c.drop_first());
    }
}

/// Of two different byte strings one comes before the other.
pub proof fn lemma_bytes_lt_total(a: Seq<u8>, b: Seq<u8>)
    ensures
        bytes_lt(a, b) || a == b || bytes_lt(b, a),
    decreases a.len(),
{
    if a.len() > 0 && b.len() > 0 && a[0] == b[0] {
        lemma_bytes_lt_total(a.drop_first(), b.drop_first());
        if a.drop_first() == b.drop_first() {
            assert(a =~= seq![a[0]] + a.drop_first());
            assert(b =~= seq![b[0]] + b.drop_first());
        }
    } else if a.len() == 0 && b.len() == 0 {
        assert(a =~= b);
    }
}

/// Two strings with the same encoding are the same string.
pub proof fn lemma_encoding_injective(a: Seq<char>, b: Seq<char>)
    requires
        encode_utf8(a) == encode_utf8(b),
    ensures
        a == b,
{
    encode_utf8_decode_utf8(a);
    encode_utf8_decode_utf8(b);
}

/// No id comes before itself.
pub proof fn lemma_id_lt_irreflexive(a: Seq<char>)
    ensures
        !id_lt(a, a),
{
    lemma_bytes_lt_irreflexive(encode_utf8(a));
}

/// The order of ids is transitive.
pub proof fn lemma_id_lt_transitive(a: Seq<char>, b: Seq<char>, c: Seq<char>)
    requires
        id_lt(a, b),
        id_lt(b, c),
    ensures
        id_lt(a, c),
{
    lemma_bytes_lt_transitive(encode_utf8(a), encode_utf8(b), encode_utf8(c));
}

/// Of two different ids one comes before the other.
pub proof fn lemma_id_lt_total(a: Seq<char>, b: Seq<char>)
    ensures
        id_lt(a, b) || a == b || id_lt(b, a),
{
    lemma_bytes_lt_total(encode_utf8(a), encode_utf8(b));
    if encode_utf8(a) == encode_utf8(b) {
        lemma_encoding_injective(a, b);
    }
}

/// Ascending ids are pairwise different.
pub proof fn lemma_ascending_distinct(ids: Seq<Seq<char>>, i: int, j: int)
    requires
        ascending(ids),
        0 <= i < ids.len(),
        0 <= j < ids.len(),
        ids[i] == ids[j],
    ensures
        i == j,
{
    lemma_id_lt_irreflexive(ids[i]);
}

/// A sequence in strictly ascending order by `lt`.
pub open spec fn sorted_by<T>(s: Seq<T>, lt: spec_fn(T, T) -> bool) -> bool {
    forall|i: int, j: int| 0 <= i < j < s.len() ==> lt(#[trigger] s[i], #[trigger] s[j])
}

/// A sorted sequence is a function of the set of its items: under a strict
/// order, two sorted sequences that hold the same items are the same
/// sequence.
pub proof fn lemma_sorted_unique<T>(a: Seq<T>, b: Seq<T>, lt: spec_fn(T, T) -> bool)
    requires
        forall|x: T| !#[trigger] lt(x, x),
        forall|x: T, y: T, z: T| #![trigger lt(x, y), lt(y, z)] lt(x, y) && lt(y, z) ==> lt(x, z),
        sorted_by(a, lt),
        sorted_by(b, lt),
        forall|x: T| a.contains(x) <==> b.contains(x),
    ensures
        a == b,
    decreases a.len(),
{
    if a.len() == 0 {
        if b.len() > 0 {
            assert(b.contains(b[0]));
        }
        assert(a =~= b);
    } else {
        let x = a.last();
        assert(a.contains(x));
        assert(b.contains(x));
        let k = choose|k: int| 0 <= k < b.len() && b[k] == x;
        if k < b.len() - 1 {
            let y = b.last();
            assert(lt(b[k], b[b.len() - 1]));
            assert(b.contains(y));
            let m = choose|m: int| 0 <= m < a.len() && a[m] == y;
            if m < a.len() - 1 {
                assert(lt(a[m], a[a.len() - 1]));
                assert(lt(x, y) && lt(y, x));
            }
            assert(!lt(x, x));
        }
        let a0 = a.drop_last();
        let b0 = b.drop_last();
        assert forall|i: int, j: int| 0 <= i < j < a0.len() implies lt(
            #[trigger] a0[i],
            #[trigger] a0[j],
        ) by {
            assert(a0[i] == a[i] && a0[j] == a[j]);
        }
        assert forall|i: int, j: int| 0 <= i < j < b0.len() implies lt(
            #[trigger] b0[i],
            #[trigger] b0[j],
        ) by {
            assert(b0[i] == b[i] && b0[j] == b[j]);
        }
        assert forall|y: T| a0.contains(y) <==> b0.contains(y) by {
            if a0.contains(y) {
                let i = choose|i: int| 0 <= i < a0.len() && a0[i] == y;
                assert(a[i] == y);
                assert(a.contains(y));
                assert(lt(a[i], a[a.len() - 1]));
                let j = choose|j: int| 0 <= j < b.len() && b[j] == y;
                if j == b.len() - 1 {
                    assert(!lt(x, x));
                }
                assert(b0[j] == y);
            }
            if b0.contains(y) {
                let j = choose|j: int| 0 <= j < b0.len() && b0[j] == y;
                assert(b[j] == y);
                assert(b.contains(y));
                assert(lt(b[j], b[b.len() - 1]));
                let i = choose|i: int| 0 <= i < a.len() && a[i] == y;
                if i == a.len() - 1 {
                    assert(!lt(x, x));
                }
                assert(a0[i] == y);
            }
        }
        lemma_sorted_unique(a0, b0, lt);
        assert(a =~= a0.push(x));
        assert(b =~= b0.push(x));
    }
}

/// Ascending ids are a function of the set of them: two ascending
/// sequences that hold the same ids are the same sequence.
pub proof fn lemma_ascending_unique(a: Seq<Seq<char>>, b: Seq<Seq<char>>)
    requires
        ascending(a),
        ascending(b),
        forall|x: Seq<char>| a.contains(x) <==> b.contains(x),
    ensures
        a == b,
{
    let lt = |x: Seq<char>, y: Seq<char>| id_lt(x, y);
    assert forall|x: Seq<char>| !#[trigger] lt(x, x) by {
        lemma_id_lt_irreflexive(x);
    }
    assert forall|x: Seq<char>, y: Seq<char>, z: Seq<char>|
        #![trigger lt(x, y), lt(y, z)]
        lt(x, y) && lt(y, z) implies lt(x, z) by {
        lemma_id_lt_transitive(x, y, z);
    }
    lemma_sorted_unique(a, b, lt);
}

proof fn lemma_skip_common(a: Seq<u8>, b: Seq<u8>, n: int)
    requires
        0 <= n <= a.len(),
        n <= b.len(),
        forall|k: int| 0 <= k < n ==> a[k] == b[k],
    ensures
        bytes_lt(a, b) == bytes_lt(a.skip(n), b.skip(n)),
    decreases n,
{
    if n == 0 {
        assert(a.skip(0) =~= a);
        assert(b.skip(0) =~= b);
    } else {
        let a1 = a.drop_first();
        let b1 = b.drop_first();
        assert forall|k: int| 0 <= k < n - 1 implies a1[k] == b1[k] by {
            assert(a1[k] == a[k + 1]);
            assert(b1[k] == b[k + 1]);
        }
        lemma_skip_common(a1, b1, n - 1);
        assert(a1.skip(n - 1) =~= a.skip(n));
        assert(b1.skip(n - 1) =~= b.skip(n));
        assert(a[0] == b[0]);
    }
}

/// Whether `a` comes strictly before `b` in id order.
pub fn str_lt(a: &str, b: &str) -> (r: bool)
    ensures
        r == id_lt(a@, b@),
{
    let x = a.as_bytes();
    let y = b.as_bytes();
    let mut i: usize = 0;
    while i < x.len() && i < y.len() && x[i] == y[i]
        invariant
            i <= x@.len(),
            i <= y@.len(),
            forall|k: int| 0 <= k < i ==> x@[k] == y@[k],
        decreases x@.len() - i,
    {
        i = i + 1;
    }
    proof {
        lemma_skip_common(x@, y@, i as int);
        let xs = x@.skip(i as int);
        let ys = y@.skip(i as int);
        if i < x@.len() && i < y@.len() {
            assert(xs[0] == x@[i as int]);
            assert(ys[0] == y@[i as int]);
        }
    }
    if i >= y.len() {
        false
    } else if i >= x.len() {
        true
    } else {
        x[i] < y[i]
    }
}

/// Whether `ids` holds `id`.
pub open spec fn holds(ids: Seq<String>, id: Seq<char>) -> bool {
    exists|i: int| 0 <= i < ids.len() && (#[trigger] ids[i])@ == id
}

/// The ids of a vector of strings.
pub open spec fn views(ids: Seq<String>) -> Seq<Seq<char>> {
    ids.map_values(|s: String| s@)
}

/// Puts `id` into an ascending vector at its place, unless it is there
/// already.
pub fn insert_ascending(ids: &mut Vec<String>, id: String)
    requires
        ascending(views(old(ids)@)),
    ensures
        ascending(views(final(ids)@)),
        forall|x: Seq<char>| holds(final(ids)@, x) <==> (holds(old(ids)@, x) || x == id@),
{
    let ghost before = ids@;
    let mut pos: usize = 0;
    while pos < ids.len() && str_lt(ids[pos].as_str(), id.as_str())
        invariant
            ids@ == before,
            pos <= ids.len(),
            forall|k: int| 0 <= k < pos ==> id_lt((#[trigger] ids@[k])@, id@),
        decreases ids.len() - pos,
    {
        pos = pos + 1;
    }
    if pos < ids.len() && ids[pos] == id {
        proof {
            assert forall|x: Seq<char>| holds(ids@, x) <==> (holds(before, x) || x == id@) by {
                if x == id@ {
                    assert(ids@[pos as int]@ == x);
                }
            }
        }
        return ;
    }
    proof {
        let vs = views(before);
        assert forall|k: int| pos <= k < before.len() implies id_lt(id@, (#[trigger] before[k])@) by {
            lemma_id_lt_total(id@, before[pos as int]@);
            assert(vs[pos as int] == before[pos as int]@);
            assert(vs[k] == before[k]@);
            if k > pos {
                assert(id_lt(vs[pos as int], vs[k]));
                lemma_id_lt_transitive(id@, before[pos as int]@, before[k]@);
            }
        }
    }
    ids.insert(pos, id);
    proof {
        let after = ids@;
        let vs = views(before);
        let ws = views(after);
        assert forall|i: int, j: int| 0 <= i < j < ws.len() implies id_lt(
            #[trigger] ws[i],
            #[trigger] ws[j],
        ) by {
            let bi = if i < pos { i } else { i - 1 };
            let bj = if j < pos { j } else { j - 1 };
            if i != pos {
                assert(ws[i] == vs[bi]);
            }
            if j != pos {
                assert(ws[j] == vs[bj]);
            }
            if i != pos && j != pos {
                assert(id_lt(vs[bi], vs[bj]));
            } else if i == pos {
                assert(before[bj]@ == vs[bj]);
            } else {
                assert(before[bi]@ == vs[bi]);
            }
        }
        assert forall|x: Seq<char>| holds(after, x) <==> (holds(before, x) || x == id@) by {
            if holds(after, x) {
                let i = choose|i: int| 0 <= i < after.len() && (#[trigger] after[i])@ == x;
                if i < pos {
                    assert(before[i]@ == x);
                } else if i > pos {
                    assert(before[i - 1]@ == x);
                }
            }
            if holds(before, x) {
                let i = choose|i: int| 0 <= i < before.len() && (#[trigger] before[i])@ == x;
                if i < pos {
                    assert(after[i]@ == x);
                } else {
                    assert(after[i + 1]@ == x);
                }
            }
            if x == id@ {
                assert(after[pos as int]@ == x);
            }
        }
    }
}

} // verus!
