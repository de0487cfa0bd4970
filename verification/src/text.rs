//! Text primitives shared by the log format, the validators and the planner:
//! conversion between strings and character vectors, the white-space class,
//! splitting a text into lines, and decimal rendering of integers.

use vstd::prelude::*;

verus! {

/// `String::push` appends exactly one character at the end of the string.
pub assume_specification[ std::string::String::push ](s: &mut std::string::String, c: char)
    ensures
        final(s)@ == old(s)@.push(c),
;

/// The characters of a string slice, in order.
pub fn chars_of(s: &str) -> (v: Vec<char>)
    ensures
        v@ == s@,
{
    let mut v: Vec<char> = Vec::new();
    for c in it: s.chars()
        invariant
            it.seq() == s@,
            v@ == s@.take(it.index() as int),
    {
        v.push(c);
    }
    assert(v@ =~= s@);
    v
}

/// The string made of the characters `v[from..to]`.
pub fn string_of(v: &Vec<char>, from: usize, to: usize) -> (s: String)
    requires
        from <= to <= v.len(),
    ensures
        s@ == v@.subrange(from as int, to as int),
{
    let mut s = String::new();
    let mut i: usize = from;
    while i < to
        invariant
            from <= i <= to <= v.len(),
            s@ == v@.subrange(from as int, i as int),
        decreases to - i,
    {
        s.push(v[i]);
        i = i + 1;
        assert(v@.subrange(from as int, i as int) =~= v@.subrange(from as int, i - 1).push(
            v@[i - 1],
        ));
    }
    s
}

/// The characters that count as white space: the Unicode `White_Space`
/// property, which is what trimming a string removes.
pub open spec fn is_space(c: char) -> bool {
    let u = c as u32;
    ||| 0x09 <= u <= 0x0D
    ||| u == 0x20
    ||| u == 0x85
    ||| u == 0xA0
    ||| u == 0x1680
    ||| 0x2000 <= u <= 0x200A
    ||| u == 0x2028
    ||| u == 0x2029
    ||| u == 0x202F
    ||| u == 0x205F
    ||| u == 0x3000
}

/// Whether a character is white space.
pub fn char_is_space(c: char) -> (r: bool)
    ensures
        r == is_space(c),
{
    let u: u32 = c as u32;
    (0x09 <= u && u <= 0x0D) || u == 0x20 || u == 0x85 || u == 0xA0 || u == 0x1680 || (0x2000 <= u
        && u <= 0x200A) || u == 0x2028 || u == 0x2029 || u == 0x202F || u == 0x205F || u == 0x3000
}

/// A text is blank when it holds nothing but white space; the empty text is
/// blank.
pub open spec fn is_blank(s: Seq<char>) -> bool {
    forall|i: int| 0 <= i < s.len() ==> is_space(#[trigger] s[i])
}

/// Whether the characters `v[from..to]` are nothing but white space.
pub fn chars_blank(v: &Vec<char>, from: usize, to: usize) -> (r: bool)
    requires
        from <= to <= v.len(),
    ensures
        r == is_blank(v@.subrange(from as int, to as int)),
{
    let ghost part = v@.subrange(from as int, to as int);
    let mut i: usize = from;
    while i < to
        invariant
            from <= i <= to <= v.len(),
            part == v@.subrange(from as int, to as int),
            forall|k: int| 0 <= k < i - from ==> is_space(#[trigger] part[k]),
        decreases to - i,
    {
        if !char_is_space(v[i]) {
            assert(part[i - from] == v@[i as int]);
            return false;
        }
        i = i + 1;
    }
    true
}

/// Whether a text is blank.
pub fn str_blank(s: &str) -> (r: bool)
    ensures
        r == is_blank(s@),
{
    let v = chars_of(s);
    assert(v@.subrange(0, v@.len() as int) =~= v@);
    chars_blank(&v, 0, v.len())
}

/// Where the first line of `s` ends: the position of the first line feed, or
/// the length of `s` when it holds none.
pub open spec fn line_end(s: Seq<char>) -> int
    decreases s.len(),
{
    if s.len() == 0 || s[0] == '\n' {
        0
    } else {
        1 + line_end(s.drop_first())
    }
}

/// The lines of a text: the pieces between its line feeds. A text that ends
/// in a line feed has an empty last piece.
pub open spec fn lines_of(s: Seq<char>) -> Seq<Seq<char>>
    decreases s.len(),
    via lines_of_decreases
{
    let k = line_end(s);
    if k >= s.len() {
        seq![s]
    } else {
        seq![s.take(k)] + lines_of(s.skip(k + 1))
    }
}

#[via_fn]
proof fn lines_of_decreases(s: Seq<char>) {
    lemma_line_end_bounds(s);
}

/// The first line ends within the text, at a line feed if before the
/// text's end, and holds no line feed.
pub proof fn lemma_line_end_bounds(s: Seq<char>)
    ensures
        0 <= line_end(s) <= s.len(),
        line_end(s) < s.len() ==> s[line_end(s)] == '\n',
        forall|k: int| 0 <= k < line_end(s) ==> s[k] != '\n',
    decreases s.len(),
{
    if s.len() == 0 || s[0] == '\n' {
    } else {
        let t = s.drop_first();
        lemma_line_end_bounds(t);
        assert forall|k: int| 0 <= k < line_end(s) implies s[k] != '\n' by {
            if k > 0 {
                assert(s[k] == t[k - 1]);
            }
        }
    }
}

/// The end of the first line is the first position that holds a line feed.
pub proof fn lemma_line_end_is(s: Seq<char>, n: int)
    requires
        0 <= n <= s.len(),
        forall|k: int| 0 <= k < n ==> s[k] != '\n',
        n < s.len() ==> s[n] == '\n',
    ensures
        line_end(s) == n,
    decreases s.len(),
{
    if s.len() == 0 || s[0] == '\n' {
    } else {
        let t = s.drop_first();
        assert forall|k: int| 0 <= k < n - 1 implies t[k] != '\n' by {
            assert(t[k] == s[k + 1]);
        }
        lemma_line_end_is(t, n - 1);
    }
}

/// A line feed parts the lines before it from the lines behind it: the
/// lines of two texts joined by a line feed are the lines of the one and
/// then the lines of the other.
pub proof fn lemma_lines_joined(a: Seq<char>, b: Seq<char>)
    ensures
        lines_of(a + seq!['\n'] + b) == lines_of(a) + lines_of(b),
    decreases a.len(),
{
    let all = a + seq!['\n'] + b;
    lemma_line_end_bounds(a);
    let k = line_end(a);
    if k >= a.len() {
        assert forall|i: int| 0 <= i < a.len() implies all[i] != '\n' by {
            assert(all[i] == a[i]);
        }
        assert(all[a.len() as int] == '\n');
        lemma_line_end_is(all, a.len() as int);
        assert(all.take(a.len() as int) =~= a);
        assert(all.skip(a.len() as int + 1) =~= b);
        assert(lines_of(all) == seq![a] + lines_of(b));
        assert(lines_of(a) == seq![a]);
    } else {
        assert forall|i: int| 0 <= i < k implies all[i] != '\n' by {
            assert(all[i] == a[i]);
        }
        assert(all[k] == a[k]);
        lemma_line_end_is(all, k);
        let rest = a.skip(k + 1);
        assert(all.take(k) =~= a.take(k));
        assert(all.skip(k + 1) =~= rest + seq!['\n'] + b);
        lemma_lines_joined(rest, b);
        assert(lines_of(all) == seq![a.take(k)] + (lines_of(rest) + lines_of(b)));
        assert(lines_of(a) == seq![a.take(k)] + lines_of(rest));
        assert(seq![a.take(k)] + (lines_of(rest) + lines_of(b)) =~= (seq![a.take(k)] + lines_of(
            rest,
        )) + lines_of(b));
    }
}

/// A text without a line feed is one line.
pub proof fn lemma_one_line(a: Seq<char>)
    requires
        !has_line_feed(a),
    ensures
        lines_of(a) == seq![a],
{
    assert forall|i: int| 0 <= i < a.len() implies a[i] != '\n' by {
        if a[i] == '\n' {
            assert(has_line_feed(a));
        }
    }
    lemma_line_end_is(a, a.len() as int);
}

/// The lines of a text, each as a string of its own.
pub fn split_lines(text: &str) -> (lines: Vec<String>)
    ensures
        lines@.len() == lines_of(text@).len(),
        forall|i: int| 0 <= i < lines@.len() ==> (#[trigger] lines@[i])@ == lines_of(text@)[i],
{
    let v = chars_of(text);
    let n = v.len();
    let mut lines: Vec<String> = Vec::new();
    let mut start: usize = 0;
    let mut i: usize = 0;
    let ghost mut done: Seq<Seq<char>> = Seq::empty();
    proof {
        assert(v@.skip(0) =~= v@);
        assert(done + lines_of(v@) =~= lines_of(v@));
    }
    while i < n
        invariant
            v@ == text@,
            n == v.len(),
            start <= i <= n,
            forall|k: int| start <= k < i ==> v@[k] != '\n',
            lines@.len() == done.len(),
            forall|k: int| 0 <= k < lines@.len() ==> (#[trigger] lines@[k])@ == done[k],
            lines_of(text@) == done + lines_of(v@.skip(start as int)),
        decreases n - i,
    {
        if v[i] == '\n' {
            let line = string_of(&v, start, i);
            proof {
                let rest = v@.skip(start as int);
                assert forall|k: int| 0 <= k < i - start implies rest[k] != '\n' by {
                    assert(rest[k] == v@[start + k]);
                }
                assert(rest[i - start] == v@[i as int]);
                lemma_line_end_is(rest, i - start);
                assert(rest.take(i - start) =~= v@.subrange(start as int, i as int));
                assert(rest.skip(i - start + 1) =~= v@.skip(i + 1));
                assert(lines_of(rest) == seq![line@] + lines_of(v@.skip(i + 1)));
                assert(done + (seq![line@] + lines_of(v@.skip(i + 1))) =~= done.push(line@)
                    + lines_of(v@.skip(i + 1)));
                done = done.push(line@);
            }
            lines.push(line);
            start = i + 1;
        }
        i = i + 1;
    }
    let line = string_of(&v, start, n);
    proof {
        let rest = v@.skip(start as int);
        assert forall|k: int| 0 <= k < n - start implies rest[k] != '\n' by {
            assert(rest[k] == v@[start + k]);
        }
        lemma_line_end_is(rest, n - start);
        assert(rest =~= v@.subrange(start as int, n as int));
        assert(lines_of(rest) == seq![line@]);
        assert(done + seq![line@] =~= done.push(line@));
    }
    lines.push(line);
    lines
}

/// Whether a text holds a line feed.
pub open spec fn has_line_feed(s: Seq<char>) -> bool {
    exists|i: int| 0 <= i < s.len() && s[i] == '\n'
}

/// Whether a text holds a line feed.
pub fn str_has_line_feed(s: &str) -> (r: bool)
    ensures
        r == has_line_feed(s@),
{
    let v = chars_of(s);
    let mut i: usize = 0;
    while i < v.len()
        invariant
            v@ == s@,
            i <= v.len(),
            forall|k: int| 0 <= k < i ==> v@[k] != '\n',
        decreases v.len() - i,
    {
        if v[i] == '\n' {
            assert(s@[i as int] == '\n');
            return true;
        }
        i = i + 1;
    }
    false
}

/// The decimal digit that stands for `d`.
pub open spec fn digit_char(d: int) -> char {
    if d == 0 {
        '0'
    } else if d == 1 {
        '1'
    } else if d == 2 {
        '2'
    } else if d == 3 {
        '3'
    } else if d == 4 {
        '4'
    } else if d == 5 {
        '5'
    } else if d == 6 {
        '6'
    } else if d == 7 {
        '7'
    } else if d == 8 {
        '8'
    } else {
        '9'
    }
}

/// The decimal digits of a natural number, most significant first, without
/// leading zeros.
pub open spec fn digits_of(n: nat) -> Seq<char>
    decreases n,
{
    if n < 10 {
        seq![digit_char(n as int)]
    } else {
        digits_of(n / 10).push(digit_char((n % 10) as int))
    }
}

/// The decimal text of an integer: a minus sign for a negative number, then
/// the digits of its magnitude.
pub open spec fn decimal_of(n: int) -> Seq<char> {
    if n < 0 {
        seq!['-'] + digits_of((-n) as nat)
    } else {
        digits_of(n as nat)
    }
}

fn digit_to_char(d: u64) -> (c: char)
    requires
        d < 10,
    ensures
        c == digit_char(d as int),
{
    if d == 0 {
        '0'
    } else if d == 1 {
        '1'
    } else if d == 2 {
        '2'
    } else if d == 3 {
        '3'
    } else if d == 4 {
        '4'
    } else if d == 5 {
        '5'
    } else if d == 6 {
        '6'
    } else if d == 7 {
        '7'
    } else if d == 8 {
        '8'
    } else {
        '9'
    }
}

fn push_digits(s: &mut String, n: u64)
    ensures
        final(s)@ == old(s)@ + digits_of(n as nat),
    decreases n,
{
    if n >= 10 {
        push_digits(s, n / 10);
    }
    s.push(digit_to_char(n % 10));
    proof {
        if n >= 10 {
            assert(old(s)@ + digits_of(n as nat) =~= (old(s)@ + digits_of((n / 10) as nat)).push(
                digit_char((n % 10) as int),
            ));
        } else {
            assert(old(s)@ + digits_of(n as nat) =~= old(s)@.push(digit_char(n as int)));
        }
    }
}

/// Renders an integer in decimal.
pub fn decimal(n: i64) -> (s: String)
    ensures
        s@ == decimal_of(n as int),
{
    let mut s = String::new();
    if n < 0 {
        s.push('-');
        let m: u64 = if n == i64::MIN {
            9223372036854775808u64
        } else {
            (-n) as u64
        };
        push_digits(&mut s, m);
        assert(s@ =~= seq!['-'] + digits_of((-n) as nat));
    } else {
        push_digits(&mut s, n as u64);
        assert(s@ =~= digits_of(n as nat));
    }
    s
}

/// A text cut to at most `max` characters for a table: one that is longer
/// keeps its first `max - 3` characters and ends in three dots.
pub open spec fn truncated(s: Seq<char>, max: nat) -> Seq<char> {
    if s.len() <= max {
        s
    } else {
        s.take(if max >= 3 {
            max - 3
        } else {
            0
        }) + seq!['.', '.', '.']
    }
}

/// Cuts a text to fit a column.
pub fn truncate(s: &str, max_len: usize) -> (r: String)
    ensures
        r@ == truncated(s@, max_len as nat),
{
    let v = chars_of(s);
    if v.len() <= max_len {
        let r = string_of(&v, 0, v.len());
        assert(v@.subrange(0, v@.len() as int) =~= v@);
        r
    } else {
        let keep: usize = if max_len >= 3 {
            max_len - 3
        } else {
            0
        };
        let mut r = string_of(&v, 0, keep);
        r.push('.');
        r.push('.');
        r.push('.');
        assert(r@ =~= truncated(s@, max_len as nat));
        r
    }
}

} // verus!
