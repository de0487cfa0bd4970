//! The version of a store directory, and what opening a store of some
//! version takes.

use crate::record::StoreError;
use crate::text::{chars_of, is_space, char_is_space};
use vstd::prelude::*;

verus! {

/// The version of the store that this engine writes.
pub const CURRENT_VERSION: u32 = 1;

/// What a store directory keeps out of version control: the cache and what
/// is derived; the logs alone are committed.
pub const GITIGNORE: &'static str = "taskstore.db\ntaskstore.db-*\ntaskstore.log\n";

/// The name of the file that holds a log: the collection's name and
/// `.jsonl`.
pub open spec fn log_name(collection: Seq<char>) -> Seq<char> {
    collection + ".jsonl"@
}

/// The name of the file that holds the log of a collection.
pub fn log_file_name(collection: &str) -> (r: String)
    ensures
        r@ == log_name(collection@),
{
    let mut r = String::new();
    vstd::string::StringExecFns::append(&mut r, collection);
    vstd::string::StringExecFns::append(&mut r, ".jsonl");
    assert(r@ =~= log_name(collection@));
    r
}

/// Where the text proper begins: behind the white space at its start.
pub open spec fn trim_start(s: Seq<char>) -> int
    decreases s.len(),
{
    if s.len() == 0 || !is_space(s[0]) {
        0
    } else {
        1 + trim_start(s.drop_first())
    }
}

/// Where the text proper ends: before the white space at its end.
pub open spec fn trim_end(s: Seq<char>) -> int
    decreases s.len(),
{
    if s.len() == 0 || !is_space(s.last()) {
        s.len() as int
    } else {
        trim_end(s.drop_last())
    }
}

/// A text without the white space at its start and at its end.
pub open spec fn trimmed(s: Seq<char>) -> Seq<char> {
    if trim_start(s) >= trim_end(s) {
        Seq::empty()
    } else {
        s.subrange(trim_start(s), trim_end(s))
    }
}

/// A decimal digit.
pub open spec fn is_digit(c: char) -> bool {
    '0' <= c && c <= '9'
}

/// The number that a run of decimal digits writes.
pub open spec fn digits_value(s: Seq<char>) -> nat
    decreases s.len(),
{
    if s.len() == 0 {
        0
    } else {
        digits_value(s.drop_last()) * 10 + (s.last() as u32 - '0' as u32) as nat
    }
}

/// Whether a text is a run of one or more decimal digits.
pub open spec fn all_digits(s: Seq<char>) -> bool {
    s.len() > 0 && forall|i: int| 0 <= i < s.len() ==> is_digit(#[trigger] s[i])
}

/// The digits of a number as it may be written: a `+` before them is
/// allowed.
pub open spec fn unsigned(s: Seq<char>) -> Seq<char> {
    if s.len() > 0 && s[0] == '+' {
        s.drop_first()
    } else {
        s
    }
}

/// The version that the text of a version file names: the number written
/// in it, white space around it aside; 0 where the text is no number that
/// fits 32 bits.
pub open spec fn version_of(text: Seq<char>) -> u32 {
    let d = unsigned(trimmed(text));
    if all_digits(d) && digits_value(d) <= u32::MAX {
        digits_value(d) as u32
    } else {
        0
    }
}

proof fn lemma_trim_start(s: Seq<char>)
    ensures
        0 <= trim_start(s) <= s.len(),
        forall|k: int| 0 <= k < trim_start(s) ==> is_space(#[trigger] s[k]),
        trim_start(s) < s.len() ==> !is_space(s[trim_start(s)]),
    decreases s.len(),
{
    if s.len() == 0 || !is_space(s[0]) {
    } else {
        let t = s.drop_first();
        lemma_trim_start(t);
        assert forall|k: int| 0 <= k < trim_start(s) implies is_space(#[trigger] s[k]) by {
            if k > 0 {
                assert(s[k] == t[k - 1]);
            }
        }
    }
}

proof fn lemma_trim_start_is(s: Seq<char>, n: int)
    requires
        0 <= n <= s.len(),
        forall|k: int| 0 <= k < n ==> is_space(#[trigger] s[k]),
        n < s.len() ==> !is_space(s[n]),
    ensures
        trim_start(s) == n,
    decreases s.len(),
{
    if s.len() == 0 || !is_space(s[0]) {
    } else {
        let t = s.drop_first();
        assert forall|k: int| 0 <= k < n - 1 implies is_space(#[trigger] t[k]) by {
            assert(t[k] == s[k + 1]);
        }
        lemma_trim_start_is(t, n - 1);
    }
}

proof fn lemma_trim_end_is(s: Seq<char>, n: int)
    requires
        0 <= n <= s.len(),
        forall|k: int| n <= k < s.len() ==> is_space(#[trigger] s[k]),
        n > 0 ==> !is_space(s[n - 1]),
    ensures
        trim_end(s) == n,
    decreases s.len(),
{
    if s.len() == 0 || !is_space(s.last()) {
    } else {
        let t = s.drop_last();
        assert forall|k: int| n <= k < t.len() implies is_space(#[trigger] t[k]) by {
            assert(t[k] == s[k]);
        }
        lemma_trim_end_is(t, n);
    }
}

proof fn lemma_digits_grow(s: Seq<char>, n: int)
    requires
        0 <= n <= s.len(),
    ensures
        digits_value(s.take(n)) <= digits_value(s),
    decreases s.len() - n,
{
    if n < s.len() {
        lemma_digits_grow(s, n + 1);
        assert(s.take(n + 1).drop_last() =~= s.take(n));
        assert(digits_value(s.take(n)) <= digits_value(s.take(n + 1))) by (nonlinear_arith)
            requires
                digits_value(s.take(n + 1)) == digits_value(s.take(n)) * 10 + (s.take(
                    n + 1,
                ).last() as u32 - '0' as u32) as nat,
        ;
    } else {
        assert(s.take(n) =~= s);
    }
}

/// Reads the text of a version file.
pub fn parse_version(text: &str) -> (r: u32)
    ensures
        r == version_of(text@),
{
    let v = chars_of(text);
    let mut from: usize = 0;
    while from < v.len() && char_is_space(v[from])
        invariant
            from <= v.len(),
            forall|k: int| 0 <= k < from ==> is_space(#[trigger] v@[k]),
        decreases v.len() - from,
    {
        from = from + 1;
    }
    let mut to: usize = v.len();
    while to > 0 && char_is_space(v[to - 1])
        invariant
            to <= v.len(),
            forall|k: int| to <= k < v.len() ==> is_space(#[trigger] v@[k]),
        decreases to,
    {
        to = to - 1;
    }
    proof {
        lemma_trim_start_is(v@, from as int);
        lemma_trim_end_is(v@, to as int);
    }
    if from >= to {
        return 0;
    }
    let ghost t = trimmed(v@);
    assert(t == v@.subrange(from as int, to as int));
    let start: usize = if v[from] == '+' {
        from + 1
    } else {
        from
    };
    let ghost d = unsigned(t);
    proof {
        assert(v@ == text@);
        assert(t[0] == v@[from as int]);
        assert(d =~= v@.subrange(start as int, to as int));
    }
    if start >= to {
        return 0;
    }
    let mut acc: u64 = 0;
    let mut i: usize = start;
    proof {
        assert(d.take(0) =~= Seq::empty());
    }
    while i < to
        invariant
            start <= i <= to <= v.len(),
            d == v@.subrange(start as int, to as int),
            d == unsigned(trimmed(text@)),
            forall|k: int| 0 <= k < i - start ==> is_digit(#[trigger] d[k]),
            acc == digits_value(d.take(i - start)),
            acc <= u32::MAX,
        decreases to - i,
    {
        let c = v[i];
        assert(d[i - start] == c);
        if !('0' <= c && c <= '9') {
            return 0;
        }
        let digit: u64 = (c as u32 - '0' as u32) as u64;
        proof {
            assert(d.take(i - start + 1).drop_last() =~= d.take(i - start));
            assert(d.take(i - start + 1).last() == c);
        }
        acc = acc * 10 + digit;
        if acc > 0xffff_ffff {
            proof {
                lemma_digits_grow(d, i - start + 1);
            }
            return 0;
        }
        i = i + 1;
    }
    proof {
        assert(d.take(to - start) =~= d);
    }
    acc as u32
}

/// What opening a store has to do about its tables.
#[derive(Debug, Clone, Copy, PartialEq, Eq, Structural)]
pub enum SchemaAction {
    /// A new store: make the tables and note the version.
    Initialize,
    /// A store of the older version given: bring it up to date and note the
    /// version. No older version exists yet, so nothing is to be changed.
    Migrate(u32),
    /// A store of this version: leave it.
    Keep,
}

/// What opening a store of the version `found` takes; 0 stands for a store
/// that notes no version.
pub open spec fn action_for(found: u32) -> Result<SchemaAction, StoreError> {
    if found == 0 {
        Ok(SchemaAction::Initialize)
    } else if found < CURRENT_VERSION {
        Ok(SchemaAction::Migrate(found))
    } else if found > CURRENT_VERSION {
        Err(StoreError::UnsupportedVersion)
    } else {
        Ok(SchemaAction::Keep)
    }
}

/// Decides what opening a store takes, from the text of its version file,
/// if it has one. A store newer than this engine is refused.
pub fn ensure_schema(version_file: Option<&str>) -> (r: Result<SchemaAction, StoreError>)
    ensures
        r == action_for(
            match version_file {
                Some(text) => version_of(text@),
                None => 0,
            },
        ),
{
    let found: u32 = match version_file {
        Some(text) => parse_version(text),
        None => 0,
    };
    if found == 0 {
        Ok(SchemaAction::Initialize)
    } else if found < CURRENT_VERSION {
        Ok(SchemaAction::Migrate(found))
    } else if found > CURRENT_VERSION {
        Err(StoreError::UnsupportedVersion)
    } else {
        Ok(SchemaAction::Keep)
    }
}

} // verus!
