//! Filters on indexed fields: what a filter asks of a value, and whether a
//! value meets it.

use crate::order::{id_lt, str_lt};
use crate::record::{IndexField, IndexValue, ValueView};
use crate::text::{chars_of, decimal, decimal_of};
use vstd::prelude::*;

verus! {

/// The comparison that a filter makes.
#[derive(Debug, Clone, Copy, PartialEq, Eq, Structural)]
pub enum FilterOp {
    /// `==`
    Eq,
    /// `!=`
    Ne,
    /// `>`
    Gt,
    /// `<`
    Lt,
    /// `>=`
    Gte,
    /// `<=`
    Lte,
    /// The field's text holds the filter's text, whatever the case of its
    /// ASCII letters.
    Contains,
}

impl FilterOp {
    /// The operator as the relational cache writes it.
    pub open spec fn sql(self) -> Seq<char> {
        match self {
            FilterOp::Eq => "="@,
            FilterOp::Ne => "!="@,
            FilterOp::Gt => ">"@,
            FilterOp::Lt => "<"@,
            FilterOp::Gte => ">="@,
            FilterOp::Lte => "<="@,
            FilterOp::Contains => "LIKE"@,
        }
    }

    /// The operator as the relational cache writes it.
    pub fn to_sql(self) -> (r: &'static str)
        ensures
            r@ == self.sql(),
    {
        match self {
            FilterOp::Eq => "=",
            FilterOp::Ne => "!=",
            FilterOp::Gt => ">",
            FilterOp::Lt => "<",
            FilterOp::Gte => ">=",
            FilterOp::Lte => "<=",
            FilterOp::Contains => "LIKE",
        }
    }

    /// The operator as text, which is its relational form.
    pub fn to_string(&self) -> (r: String)
        ensures
            r@ == self.sql(),
    {
        String::from_str(self.to_sql())
    }
}

/// One condition on an indexed field.
#[derive(Debug, PartialEq)]
pub struct Filter {
    /// The field to look at.
    pub field: String,
    /// The comparison to make.
    pub op: FilterOp,
    /// The value to compare the field with.
    pub value: IndexValue,
}

/// A filter in the abstract.
pub ghost struct FilterView {
    pub field: Seq<char>,
    pub op: FilterOp,
    pub value: ValueView,
}

impl View for Filter {
    type V = FilterView;

    open spec fn view(&self) -> FilterView {
        FilterView { field: self.field@, op: self.op, value: self.value@ }
    }
}

impl Clone for Filter {
    fn clone(&self) -> (r: Self)
        ensures
            r@ == self@,
    {
        Filter { field: self.field.clone(), op: self.op, value: self.value.clone() }
    }
}

/// The views of a sequence of filters.
pub open spec fn filter_views(filters: Seq<Filter>) -> Seq<FilterView> {
    filters.map_values(|f: Filter| f@)
}

/// The text that the cache holds for a value in its column: a string as it
/// is, an integer in decimal, a boolean as `1` or `0`.
pub open spec fn column_text(v: ValueView) -> Seq<char> {
    match v {
        ValueView::Text(s) => s,
        ValueView::Int(i) => decimal_of(i as int),
        ValueView::Bool(b) => if b {
            seq!['1']
        } else {
            seq!['0']
        },
    }
}

/// A character with an ASCII capital letter brought to lower case.
pub open spec fn folded(c: char) -> u32 {
    if 'A' <= c && c <= 'Z' {
        (c as u32 + 32) as u32
    } else {
        c as u32
    }
}

/// `needle` stands in `hay` at `at`, the case of ASCII letters aside.
pub open spec fn occurs_at(hay: Seq<char>, needle: Seq<char>, at: int) -> bool {
    &&& 0 <= at
    &&& at + needle.len() <= hay.len()
    &&& forall|i: int| 0 <= i < needle.len() ==> folded(#[trigger] hay[at + i]) == folded(needle[i])
}

/// `needle` stands somewhere in `hay`, the case of ASCII letters aside.
pub open spec fn contains_text(hay: Seq<char>, needle: Seq<char>) -> bool {
    exists|at: int| occurs_at(hay, needle, at)
}

/// How two values of one type stand to each other: strings byte by byte,
/// integers by size, `false` before `true`.
pub open spec fn value_lt(a: ValueView, b: ValueView) -> bool {
    match (a, b) {
        (ValueView::Text(x), ValueView::Text(y)) => id_lt(x, y),
        (ValueView::Int(x), ValueView::Int(y)) => x < y,
        (ValueView::Bool(x), ValueView::Bool(y)) => !x && y,
        _ => false,
    }
}

/// Whether two values have the same type.
pub open spec fn same_type(a: ValueView, b: ValueView) -> bool {
    match (a, b) {
        (ValueView::Text(_), ValueView::Text(_)) => true,
        (ValueView::Int(_), ValueView::Int(_)) => true,
        (ValueView::Bool(_), ValueView::Bool(_)) => true,
        _ => false,
    }
}

/// Whether the value `stored` under a field meets the comparison `op` with
/// `wanted`. A value of another type than `wanted` meets no comparison, not
/// even `!=`: the cache keeps each type in a column of its own.
pub open spec fn meets(stored: ValueView, op: FilterOp, wanted: ValueView) -> bool {
    same_type(stored, wanted) && match op {
        FilterOp::Eq => stored == wanted,
        FilterOp::Ne => stored != wanted,
        FilterOp::Gt => value_lt(wanted, stored),
        FilterOp::Lt => value_lt(stored, wanted),
        FilterOp::Gte => !value_lt(stored, wanted),
        FilterOp::Lte => !value_lt(wanted, stored),
        FilterOp::Contains => contains_text(column_text(stored), column_text(wanted)),
    }
}

/// The value that a list of fields holds under `name`: that of the last
/// field of this name.
pub open spec fn field_value(fields: Seq<(Seq<char>, ValueView)>, name: Seq<char>) -> Option<
    ValueView,
>
    decreases fields.len(),
{
    if fields.len() == 0 {
        None
    } else if fields.last().0 == name {
        Some(fields.last().1)
    } else {
        field_value(fields.drop_last(), name)
    }
}

/// Whether a record with these fields passes the filter: it has the field,
/// and the value under it meets the comparison.
pub open spec fn passes(fields: Seq<(Seq<char>, ValueView)>, f: FilterView) -> bool {
    match field_value(fields, f.field) {
        Some(v) => meets(v, f.op, f.value),
        None => false,
    }
}

/// Whether a record with these fields passes every filter.
pub open spec fn passes_all(fields: Seq<(Seq<char>, ValueView)>, filters: Seq<FilterView>) -> bool {
    forall|i: int| 0 <= i < filters.len() ==> passes(fields, #[trigger] filters[i])
}

pub(crate) fn fold_char(c: char) -> (r: u32)
    ensures
        r == folded(c),
{
    if 'A' <= c && c <= 'Z' {
        c as u32 + 32
    } else {
        c as u32
    }
}

fn found_at(hay: &Vec<char>, needle: &Vec<char>, at: usize) -> (r: bool)
    requires
        at + needle.len() <= hay.len(),
    ensures
        r == occurs_at(hay@, needle@, at as int),
{
    let mut i: usize = 0;
    while i < needle.len()
        invariant
            i <= needle.len(),
            at + needle.len() <= hay.len(),
            forall|k: int| 0 <= k < i ==> folded(#[trigger] hay@[at + k]) == folded(needle@[k]),
        decreases needle.len() - i,
    {
        if fold_char(hay[at + i]) != fold_char(needle[i]) {
            return false;
        }
        i = i + 1;
    }
    true
}

/// Whether `needle` stands somewhere in `hay`, the case of ASCII letters
/// aside.
pub fn text_contains(hay: &str, needle: &str) -> (r: bool)
    ensures
        r == contains_text(hay@, needle@),
{
    let h = chars_of(hay);
    let n = chars_of(needle);
    if n.len() > h.len() {
        return false;
    }
    let last = h.len() - n.len();
    let mut at: usize = 0;
    while at <= last
        invariant
            at <= last + 1,
            last == h.len() - n.len(),
            n.len() <= h.len(),
            h@ == hay@,
            n@ == needle@,
            forall|k: int| 0 <= k < at ==> !occurs_at(h@, n@, k),
        decreases last + 1 - at,
    {
        if found_at(&h, &n, at) {
            return true;
        }
        at = at + 1;
    }
    false
}

fn column_string(v: &IndexValue) -> (s: String)
    ensures
        s@ == column_text(v@),
{
    match v {
        IndexValue::String(s) => s.clone(),
        IndexValue::Int(i) => decimal(*i),
        IndexValue::Bool(b) => {
            let mut s = String::new();
            if *b {
                s.push('1');
            } else {
                s.push('0');
            }
            assert(s@ =~= column_text(v@));
            s
        },
    }
}

fn less(a: &IndexValue, b: &IndexValue) -> (r: bool)
    ensures
        r == value_lt(a@, b@),
{
    match (a, b) {
        (IndexValue::String(x), IndexValue::String(y)) => str_lt(x.as_str(), y.as_str()),
        (IndexValue::Int(x), IndexValue::Int(y)) => *x < *y,
        (IndexValue::Bool(x), IndexValue::Bool(y)) => !*x && *y,
        _ => false,
    }
}

fn alike(a: &IndexValue, b: &IndexValue) -> (r: bool)
    ensures
        r == same_type(a@, b@),
{
    match (a, b) {
        (IndexValue::String(_), IndexValue::String(_)) => true,
        (IndexValue::Int(_), IndexValue::Int(_)) => true,
        (IndexValue::Bool(_), IndexValue::Bool(_)) => true,
        _ => false,
    }
}

/// The last field of `fields` that is called `name`.
pub fn find_field<'a>(fields: &'a Vec<IndexField>, name: &str) -> (r: Option<&'a IndexValue>)
    ensures
        match r {
            Some(v) => field_value(crate::record::field_views(fields@), name@) == Some(v@),
            None => field_value(crate::record::field_views(fields@), name@) is None,
        },
{
    let ghost all = crate::record::field_views(fields@);
    let wanted = String::from_str(name);
    let mut n: usize = fields.len();
    assert(all.take(n as int) =~= all);
    while n > 0
        invariant
            n <= fields.len(),
            all == crate::record::field_views(fields@),
            wanted@ == name@,
            field_value(all, name@) == field_value(all.take(n as int), name@),
        decreases n,
    {
        proof {
            assert(all.take(n as int).drop_last() =~= all.take(n - 1));
            assert(all.take(n as int).last() == fields@[n - 1]@);
        }
        if fields[n - 1].name == wanted {
            return Some(&fields[n - 1].value);
        }
        n = n - 1;
    }
    None
}

impl Filter {
    /// Whether a value meets this filter's comparison.
    pub fn accepts(&self, stored: &IndexValue) -> (r: bool)
        ensures
            r == meets(stored@, self.op, self.value@),
    {
        if !alike(stored, &self.value) {
            return false;
        }
        match self.op {
            FilterOp::Eq => stored.same(&self.value),
            FilterOp::Ne => !stored.same(&self.value),
            FilterOp::Gt => less(&self.value, stored),
            FilterOp::Lt => less(stored, &self.value),
            FilterOp::Gte => !less(stored, &self.value),
            FilterOp::Lte => !less(&self.value, stored),
            FilterOp::Contains => {
                let hay = column_string(stored);
                let needle = column_string(&self.value);
                text_contains(hay.as_str(), needle.as_str())
            },
        }
    }

    /// Whether a record with these fields passes this filter.
    pub fn admits(&self, fields: &Vec<IndexField>) -> (r: bool)
        ensures
            r == passes(crate::record::field_views(fields@), self@),
    {
        match find_field(fields, self.field.as_str()) {
            Some(v) => self.accepts(v),
            None => false,
        }
    }
}

/// Whether a record with these fields passes every filter. No filter lets
/// every record pass.
pub fn admits_all(filters: &Vec<Filter>, fields: &Vec<IndexField>) -> (r: bool)
    ensures
        r == passes_all(crate::record::field_views(fields@), filter_views(filters@)),
{
    let mut i: usize = 0;
    while i < filters.len()
        invariant
            i <= filters.len(),
            forall|k: int|
                0 <= k < i ==> passes(
                    crate::record::field_views(fields@),
                    #[trigger] filter_views(filters@)[k],
                ),
        decreases filters.len() - i,
    {
        assert(filter_views(filters@)[i as int] == filters@[i as int]@);
        if !filters[i].admits(fields) {
            return false;
        }
        i = i + 1;
    }
    true
}

} // verus!
