//! What a pattern of the relational cache matches, and why the patterns
//! that the planner makes find a text wherever it stands, and nowhere else.

use crate::filter::{contains_text, fold_char, folded, occurs_at};
use crate::text::chars_of;
use crate::plan::{escaped, pattern_of};
use vstd::prelude::*;

verus! {

/// Whether the text `s` matches the pattern `p`: `%` stands for any run of
/// characters, `_` for any one character, `\` takes the character behind
/// it literally, and every other character stands for itself, the case of
/// ASCII letters aside. A pattern that ends in a `\` with nothing behind it
/// matches nothing.
pub open spec fn like(p: Seq<char>, s: Seq<char>) -> bool
    decreases p.len(), s.len(),
{
    if p.len() == 0 {
        s.len() == 0
    } else if p[0] == '\\' {
        p.len() >= 2 && s.len() > 0 && folded(s[0]) == folded(p[1]) && like(p.skip(2), s.skip(1))
    } else if p[0] == '%' {
        like(p.skip(1), s) || (s.len() > 0 && like(p, s.skip(1)))
    } else if p[0] == '_' {
        s.len() > 0 && like(p.skip(1), s.skip(1))
    } else {
        s.len() > 0 && folded(s[0]) == folded(p[0]) && like(p.skip(1), s.skip(1))
    }
}

/// What one character of a text becomes in a pattern.
pub open spec fn escaped_char(c: char) -> Seq<char> {
    if c == '%' || c == '_' || c == '\\' {
        seq!['\\', c]
    } else {
        seq![c]
    }
}

/// A text is escaped character by character, from the front as from the
/// back.
pub proof fn lemma_escaped_front(c: char, t: Seq<char>)
    ensures
        escaped(seq![c] + t) == escaped_char(c) + escaped(t),
    decreases t.len(),
{
    let all = seq![c] + t;
    if t.len() == 0 {
        assert(all.drop_last() =~= Seq::<char>::empty());
        assert(all.last() == c);
        assert(escaped(all.drop_last()) =~= Seq::<char>::empty());
        assert(escaped(all) =~= escaped_char(c));
        assert(escaped_char(c) + escaped(t) =~= escaped_char(c));
    } else {
        lemma_escaped_front(c, t.drop_last());
        assert(all.drop_last() =~= seq![c] + t.drop_last());
        assert(all.last() == t.last());
        let d = t.last();
        if d == '%' || d == '_' || d == '\\' {
            assert((escaped_char(c) + escaped(t.drop_last())).push('\\').push(d) =~= escaped_char(c)
                + escaped(t.drop_last()).push('\\').push(d));
        } else {
            assert((escaped_char(c) + escaped(t.drop_last())).push(d) =~= escaped_char(c)
                + escaped(t.drop_last()).push(d));
        }
    }
}

/// `t` stands at the start of `s`, the case of ASCII letters aside.
pub open spec fn starts_with(s: Seq<char>, t: Seq<char>) -> bool {
    &&& t.len() <= s.len()
    &&& forall|i: int| 0 <= i < t.len() ==> folded(#[trigger] s[i]) == folded(t[i])
}

/// An escaped text at the start of a pattern matches that text at the
/// start, and nothing else.
pub proof fn lemma_like_escaped(t: Seq<char>, rest: Seq<char>, s: Seq<char>)
    ensures
        like(escaped(t) + rest, s) <==> (starts_with(s, t) && like(rest, s.skip(t.len() as int))),
    decreases t.len(),
{
    if t.len() == 0 {
        assert(escaped(t) + rest =~= rest);
        assert(s.skip(0) =~= s);
    } else {
        let c = t[0];
        let tail = t.drop_first();
        assert(t =~= seq![c] + tail);
        lemma_escaped_front(c, tail);
        let q = escaped(tail) + rest;
        let p = escaped(t) + rest;
        assert(p =~= escaped_char(c) + q);
        if c == '%' || c == '_' || c == '\\' {
            assert(p[0] == '\\' && p[1] == c);
            assert(p.skip(2) =~= q);
        } else {
            assert(p[0] == c);
            assert(p.skip(1) =~= q);
        }
        assert(like(p, s) <==> (s.len() > 0 && folded(s[0]) == folded(c) && like(q, s.skip(1))));
        if s.len() > 0 {
            let s1 = s.skip(1);
            lemma_like_escaped(tail, rest, s1);
            if t.len() <= s.len() {
                assert(s1.skip(tail.len() as int) =~= s.skip(t.len() as int));
            }
            if starts_with(s, t) {
                assert forall|i: int| 0 <= i < tail.len() implies folded(#[trigger] s1[i]) == folded(
                    tail[i],
                ) by {
                    assert(s1[i] == s[i + 1]);
                    assert(tail[i] == t[i + 1]);
                }
                assert(starts_with(s1, tail));
            }
            if folded(s[0]) == folded(c) && starts_with(s1, tail) {
                assert forall|i: int| 0 <= i < t.len() implies folded(#[trigger] s[i]) == folded(
                    t[i],
                ) by {
                    if i > 0 {
                        assert(s[i] == s1[i - 1]);
                        assert(t[i] == tail[i - 1]);
                    }
                }
                assert(starts_with(s, t));
            }
        }
    }
}

/// A pattern that is `%` alone matches every text.
pub proof fn lemma_like_any(s: Seq<char>)
    ensures
        like(seq!['%'], s),
    decreases s.len(),
{
    let p = seq!['%'];
    assert(p.len() == 1 && p[0] == '%');
    assert(p.skip(1) =~= Seq::<char>::empty());
    if s.len() > 0 {
        lemma_like_any(s.skip(1));
        assert(like(p, s.skip(1)));
    } else {
        assert(like(p.skip(1), s));
    }
}

/// A pattern that begins with `%` matches where the rest of it matches the
/// text from some position on.
pub proof fn lemma_like_from_somewhere(q: Seq<char>, s: Seq<char>)
    ensures
        like(seq!['%'] + q, s) <==> exists|k: int| 0 <= k <= s.len() && like(q, #[trigger] s.skip(k)),
    decreases s.len(),
{
    let p = seq!['%'] + q;
    assert(p[0] == '%');
    assert(p.skip(1) =~= q);
    assert(s.skip(0) =~= s);
    if s.len() > 0 {
        let s1 = s.skip(1);
        lemma_like_from_somewhere(q, s1);
        if like(p, s1) {
            let k = choose|k: int| 0 <= k <= s1.len() && like(q, #[trigger] s1.skip(k));
            assert(s1.skip(k) =~= s.skip(k + 1));
        }
        if exists|k: int| 0 <= k <= s.len() && like(q, #[trigger] s.skip(k)) {
            let k = choose|k: int| 0 <= k <= s.len() && like(q, #[trigger] s.skip(k));
            if k > 0 {
                assert(s1.skip(k - 1) =~= s.skip(k));
            }
        }
    } else {
        if exists|k: int| 0 <= k <= s.len() && like(q, #[trigger] s.skip(k)) {
            let k = choose|k: int| 0 <= k <= s.len() && like(q, #[trigger] s.skip(k));
            assert(k == 0);
        }
    }
}

/// The planner's pattern finds its text: a text matches the pattern made of
/// `t` exactly when it holds `t` somewhere, the case of ASCII letters
/// aside, whatever characters `t` is made of.
pub proof fn law_pattern_finds_text(t: Seq<char>, s: Seq<char>)
    ensures
        like(pattern_of(t), s) <==> contains_text(s, t),
{
    let any = seq!['%'];
    let q = escaped(t) + any;
    assert(pattern_of(t) =~= any + q);
    lemma_like_from_somewhere(q, s);
    assert forall|k: int| 0 <= k <= s.len() implies (like(q, #[trigger] s.skip(k)) <==> occurs_at(
        s,
        t,
        k,
    )) by {
        let sk = s.skip(k);
        lemma_like_escaped(t, any, sk);
        lemma_like_any(sk.skip(t.len() as int));
        if starts_with(sk, t) {
            assert forall|i: int| 0 <= i < t.len() implies folded(#[trigger] s[k + i]) == folded(
                t[i],
            ) by {
                assert(sk[i] == s[k + i]);
            }
        }
        if occurs_at(s, t, k) {
            assert forall|i: int| 0 <= i < t.len() implies folded(#[trigger] sk[i]) == folded(
                t[i],
            ) by {
                assert(sk[i] == s[k + i]);
            }
        }
    }
    if contains_text(s, t) {
        let at = choose|at: int| occurs_at(s, t, at);
        assert(like(q, s.skip(at)));
    }
    if like(pattern_of(t), s) {
        let k = choose|k: int| 0 <= k <= s.len() && like(q, #[trigger] s.skip(k));
        assert(occurs_at(s, t, k));
    }
}

fn like_from(p: &Vec<char>, i: usize, s: &Vec<char>, j: usize) -> (r: bool)
    requires
        i <= p.len(),
        j <= s.len(),
    ensures
        r == like(p@.skip(i as int), s@.skip(j as int)),
    decreases p.len() - i, s.len() - j,
{
    let ghost ps = p@.skip(i as int);
    let ghost ss = s@.skip(j as int);
    if i == p.len() {
        return j == s.len();
    }
    let c = p[i];
    proof {
        assert(ps[0] == c);
        assert(ps.skip(1) =~= p@.skip(i + 1));
        if i + 1 < p.len() {
            assert(ps[1] == p@[i + 1]);
            assert(ps.skip(2) =~= p@.skip(i + 2));
        }
        if j < s.len() {
            assert(ss[0] == s@[j as int]);
            assert(ss.skip(1) =~= s@.skip(j + 1));
        }
    }
    if c == '\\' {
        i + 1 < p.len() && j < s.len() && fold_char(s[j]) == fold_char(p[i + 1]) && like_from(
            p,
            i + 2,
            s,
            j + 1,
        )
    } else if c == '%' {
        like_from(p, i + 1, s, j) || (j < s.len() && like_from(p, i, s, j + 1))
    } else if c == '_' {
        j < s.len() && like_from(p, i + 1, s, j + 1)
    } else {
        j < s.len() && fold_char(s[j]) == fold_char(c) && like_from(p, i + 1, s, j + 1)
    }
}

/// Whether a text matches a pattern.
pub fn like_matches(pattern: &str, text: &str) -> (r: bool)
    ensures
        r == like(pattern@, text@),
{
    let p = chars_of(pattern);
    let s = chars_of(text);
    proof {
        assert(p@.skip(0) =~= p@);
        assert(s@.skip(0) =~= s@);
    }
    like_from(&p, 0, &s, 0)
}

} // verus!
