//! The query language: its abstract syntax trees and the parser that
//! turns query text such as `.a[0].b`, `[.a,.b]` or `{"k":.a}` into them.

use vstd::prelude::*;
use vstd::string::StrSliceExecFns;

verus! {

/// A path expression: a chain of field and index steps ending in the
/// identity filter `Null`.
#[derive(Debug, PartialEq)]
pub enum Filter {
    /// Descend into the object member with this name, then continue.
    Field(String, Box<Filter>),
    /// Descend into the array element at this position, then continue.
    Index(usize, Box<Filter>),
    /// Identity: return the current value unchanged.
    Null,
}

/// One step of a path, as contracts speak of it.
#[verifier::ext_equal]
pub enum StepModel {
    Field(Seq<char>),
    Index(int),
}

impl View for Filter {
    /// A filter chain is modelled as the sequence of its steps; the
    /// terminal `Null` contributes nothing.
    type V = Seq<StepModel>;

    open spec fn view(&self) -> Seq<StepModel>
        decreases self,
    {
        match self {
            Filter::Field(name, next) => seq![StepModel::Field(name@)] + (**next).view(),
            Filter::Index(i, next) => seq![StepModel::Index(*i as int)] + (**next).view(),
            Filter::Null => Seq::empty(),
        }
    }
}

/// A reshaping query: an object or array constructor whose leaves are
/// filters, or a bare filter.
#[derive(Debug, PartialEq)]
pub enum Query {
    /// Build an object from the listed members, in order.
    Object(Vec<(String, Query)>),
    /// Build an array from the listed elements, in order.
    Array(Vec<Query>),
    /// Apply a path expression.
    Filter(Filter),
}

/// The mathematical model of a [`Query`].
#[verifier::ext_equal]
pub enum QueryModel {
    Object(Seq<(Seq<char>, QueryModel)>),
    Array(Seq<QueryModel>),
    Filter(Seq<StepModel>),
}

impl View for Query {
    type V = QueryModel;

    open spec fn view(&self) -> QueryModel
        decreases self,
    {
        match self {
            Query::Object(ms) => QueryModel::Object(query_members_view(ms@)),
            Query::Array(es) => QueryModel::Array(query_elements_view(es@)),
            Query::Filter(f) => QueryModel::Filter(f@),
        }
    }
}

/// The models of the elements of an array constructor, in order.
pub open spec fn query_elements_view(es: Seq<Query>) -> Seq<QueryModel>
    decreases es,
{
    if es.len() == 0 {
        Seq::empty()
    } else {
        seq![es[0]@] + query_elements_view(es.subrange(1, es.len() as int))
    }
}

/// The models of the members of an object constructor, in order.
pub open spec fn query_members_view(ms: Seq<(String, Query)>) -> Seq<(Seq<char>, QueryModel)>
    decreases ms,
{
    if ms.len() == 0 {
        Seq::empty()
    } else {
        seq![(ms[0].0@, ms[0].1@)] + query_members_view(ms.subrange(1, ms.len() as int))
    }
}

pub broadcast proof fn lemma_query_elements_view_len(es: Seq<Query>)
    ensures
        #[trigger] query_elements_view(es).len() == es.len(),
    decreases es,
{
    if es.len() > 0 {
        let tail = es.subrange(1, es.len() as int);
        lemma_query_elements_view_len(tail);
        assert(query_elements_view(es) == seq![es[0]@] + query_elements_view(tail));
        assert(query_elements_view(es).len() == 1 + query_elements_view(tail).len());
    } else {
        assert(query_elements_view(es) == Seq::<QueryModel>::empty());
    }
}

pub broadcast proof fn lemma_query_elements_view_index(es: Seq<Query>, i: int)
    requires
        0 <= i < es.len(),
    ensures
        #[trigger] query_elements_view(es)[i] == es[i]@,
    decreases es,
{
    let tail = es.subrange(1, es.len() as int);
    assert(query_elements_view(es) == seq![es[0]@] + query_elements_view(tail));
    if i > 0 {
        lemma_query_elements_view_len(tail);
        lemma_query_elements_view_index(tail, i - 1);
        assert(tail[i - 1] == es[i]);
        assert((seq![es[0]@] + query_elements_view(tail))[i] == query_elements_view(tail)[i - 1]);
    } else {
        assert((seq![es[0]@] + query_elements_view(tail))[0] == seq![es[0]@][0]);
    }
}

pub broadcast proof fn lemma_query_members_view_len(ms: Seq<(String, Query)>)
    ensures
        #[trigger] query_members_view(ms).len() == ms.len(),
    decreases ms,
{
    if ms.len() > 0 {
        let tail = ms.subrange(1, ms.len() as int);
        lemma_query_members_view_len(tail);
        assert(query_members_view(ms) == seq![(ms[0].0@, ms[0].1@)] + query_members_view(tail));
        assert(query_members_view(ms).len() == 1 + query_members_view(tail).len());
    } else {
        assert(query_members_view(ms) == Seq::<(Seq<char>, QueryModel)>::empty());
    }
}

pub broadcast proof fn lemma_query_members_view_index(ms: Seq<(String, Query)>, i: int)
    requires
        0 <= i < ms.len(),
    ensures
        #[trigger] query_members_view(ms)[i] == (ms[i].0@, ms[i].1@),
    decreases ms,
{
    let tail = ms.subrange(1, ms.len() as int);
    assert(query_members_view(ms) == seq![(ms[0].0@, ms[0].1@)] + query_members_view(tail));
    if i > 0 {
        lemma_query_members_view_len(tail);
        lemma_query_members_view_index(tail, i - 1);
        assert(tail[i - 1] == ms[i]);
        assert((seq![(ms[0].0@, ms[0].1@)] + query_members_view(tail))[i]
            == query_members_view(tail)[i - 1]);
    } else {
        assert((seq![(ms[0].0@, ms[0].1@)] + query_members_view(tail))[0]
            == seq![(ms[0].0@, ms[0].1@)][0]);
    }
}

/// A failed parse; carries the offending query text.
#[derive(Debug, PartialEq)]
pub struct ParseError {
    pub input: String,
}

/// Whitespace, insignificant between tokens.
pub open spec fn is_space(c: char) -> bool {
    c == ' ' || c == '\t' || c == '\r' || c == '\n'
}

/// A character that may appear in a word: an ASCII letter or digit,
/// `-`, or `_`.
pub open spec fn is_word_char(c: char) -> bool {
    (48 <= c as u32 && c as u32 <= 57) || (65 <= c as u32 && c as u32 <= 90) || (97 <= c as u32
        && c as u32 <= 122) || c == '-' || c == '_'
}

/// An ASCII decimal digit.
pub open spec fn is_digit(c: char) -> bool {
    48 <= c as u32 && c as u32 <= 57
}

/// The position after the run of whitespace starting at `i`.
pub open spec fn skip_spaces(s: Seq<char>, i: int) -> int
    decreases s.len() - i,
{
    if 0 <= i < s.len() && is_space(s[i]) {
        skip_spaces(s, i + 1)
    } else {
        i
    }
}

/// The position after the run of word characters starting at `i`.
pub open spec fn word_end(s: Seq<char>, i: int) -> int
    decreases s.len() - i,
{
    if 0 <= i < s.len() && is_word_char(s[i]) {
        word_end(s, i + 1)
    } else {
        i
    }
}

/// The position after the run of digits starting at `i`.
pub open spec fn digit_end(s: Seq<char>, i: int) -> int
    decreases s.len() - i,
{
    if 0 <= i < s.len() && is_digit(s[i]) {
        digit_end(s, i + 1)
    } else {
        i
    }
}

/// The numeric value of the digit run `s[i..k)`.
pub open spec fn digits_value(s: Seq<char>, i: int, k: int) -> int
    decreases k - i,
{
    if i < k {
        digits_value(s, i, k - 1) * 10 + (s[k - 1] as u32 - 48)
    } else {
        0
    }
}

/// One token: whitespace, the single character `c`, whitespace. `None`
/// when the first non-space character is not `c`.
pub open spec fn tok(s: Seq<char>, i: int, c: char) -> Option<int> {
    let j = skip_spaces(s, i);
    if j < s.len() && s[j] == c {
        Some(skip_spaces(s, j + 1))
    } else {
        None
    }
}

/// A word token: whitespace, one or more word characters, whitespace.
pub open spec fn spec_word(s: Seq<char>, i: int) -> Option<(Seq<char>, int)> {
    let j = skip_spaces(s, i);
    let k = word_end(s, j);
    if k > j {
        Some((s.subrange(j, k), skip_spaces(s, k)))
    } else {
        None
    }
}

/// An index step, `[` digits `]`, whose digits must fit a `usize`.
/// Whitespace may surround the brackets but not split the digits.
pub open spec fn spec_index_step(s: Seq<char>, i: int) -> Option<(int, int)> {
    match tok(s, i, '[') {
        Some(j) => {
            let k = digit_end(s, j);
            if k > j && digits_value(s, j, k) <= usize::MAX as int {
                match tok(s, k, ']') {
                    Some(l) => Some((digits_value(s, j, k), l)),
                    None => None,
                }
            } else {
                None
            }
        },
        None => None,
    }
}

/// A field step and the rest of its chain: a word, then a continuation.
pub open spec fn spec_field(s: Seq<char>, i: int) -> Option<(Seq<StepModel>, int)>
    decreases s.len() - i, 0int,
{
    match spec_word(s, i) {
        Some((w, j)) => if i < j <= s.len() {
            let (rest, k) = spec_filter_rest(s, j);
            Some((seq![StepModel::Field(w)] + rest, k))
        } else {
            None
        },
        None => None,
    }
}

/// What may continue a chain after a field or index step: `.` then a
/// field, an index, or nothing. An alternative that fails part-way
/// consumes nothing.
pub open spec fn spec_filter_rest(s: Seq<char>, i: int) -> (Seq<StepModel>, int)
    decreases s.len() - i, 1int,
{
    let dotted = match tok(s, i, '.') {
        Some(j) => if i < j <= s.len() {
            spec_field(s, j)
        } else {
            None
        },
        None => None,
    };
    match dotted {
        Some(r) => r,
        None => match spec_index_step(s, i) {
            Some((n, j)) => if i < j <= s.len() {
                let (rest, k) = spec_filter_rest(s, j);
                (seq![StepModel::Index(n)] + rest, k)
            } else {
                (Seq::empty(), i)
            },
            None => (Seq::empty(), i),
        },
    }
}

/// The body of a filter, after its leading dot: a field, an index, or
/// nothing (the identity filter).
pub open spec fn spec_filter_body(s: Seq<char>, i: int) -> (Seq<StepModel>, int) {
    match spec_field(s, i) {
        Some(r) => r,
        None => match spec_index_step(s, i) {
            Some((n, j)) => if i < j <= s.len() {
                let (rest, k) = spec_filter_rest(s, j);
                (seq![StepModel::Index(n)] + rest, k)
            } else {
                (Seq::empty(), i)
            },
            None => (Seq::empty(), i),
        },
    }
}

/// What parsing a filter from the whole text yields: a leading `.`, the
/// filter body, and nothing after it.
pub open spec fn spec_parse_filter(s: Seq<char>) -> Option<Seq<StepModel>> {
    match tok(s, 0, '.') {
        Some(i) => {
            let (steps, j) = spec_filter_body(s, i);
            if j == s.len() {
                Some(steps)
            } else {
                None
            }
        },
        None => None,
    }
}

/// An object member: a quoted word key, `:`, and a query.
pub open spec fn spec_member(s: Seq<char>, i: int) -> Option<((Seq<char>, QueryModel), int)>
    decreases s.len() - i, 1int,
{
    match tok(s, i, '"') {
        Some(j) => match spec_word(s, j) {
            Some((w, k)) => match tok(s, k, '"') {
                Some(l) => match tok(s, l, ':') {
                    Some(m) => if i < m <= s.len() {
                        match spec_query(s, m) {
                            Some((q, n)) => Some(((w, q), n)),
                            None => None,
                        }
                    } else {
                        None
                    },
                    None => None,
                },
                None => None,
            },
            None => None,
        },
        None => None,
    }
}

/// Zero or more comma-separated members; an absent first member means an
/// empty list.
pub open spec fn spec_members(s: Seq<char>, i: int) -> (Seq<(Seq<char>, QueryModel)>, int)
    decreases s.len() - i, 2int,
{
    match spec_member(s, i) {
        Some((kv, j)) => if i < j <= s.len() {
            let (rest, k) = spec_members_more(s, j);
            (seq![kv] + rest, k)
        } else {
            (seq![kv], j)
        },
        None => (Seq::empty(), i),
    }
}

/// Further members, each preceded by a comma; a comma not followed by a
/// member is left unconsumed.
pub open spec fn spec_members_more(s: Seq<char>, i: int) -> (Seq<(Seq<char>, QueryModel)>, int)
    decreases s.len() - i, 2int,
{
    match tok(s, i, ',') {
        Some(j) => if i < j <= s.len() {
            match spec_member(s, j) {
                Some((kv, k)) => if j < k <= s.len() {
                    let (rest, l) = spec_members_more(s, k);
                    (seq![kv] + rest, l)
                } else {
                    (seq![kv], k)
                },
                None => (Seq::empty(), i),
            }
        } else {
            (Seq::empty(), i)
        },
        None => (Seq::empty(), i),
    }
}

/// Zero or more comma-separated element queries.
pub open spec fn spec_elements(s: Seq<char>, i: int) -> (Seq<QueryModel>, int)
    decreases s.len() - i, 2int,
{
    match spec_query(s, i) {
        Some((q, j)) => if i < j <= s.len() {
            let (rest, k) = spec_elements_more(s, j);
            (seq![q] + rest, k)
        } else {
            (seq![q], j)
        },
        None => (Seq::empty(), i),
    }
}

/// Further elements, each preceded by a comma; a comma not followed by
/// an element is left unconsumed.
pub open spec fn spec_elements_more(s: Seq<char>, i: int) -> (Seq<QueryModel>, int)
    decreases s.len() - i, 2int,
{
    match tok(s, i, ',') {
        Some(j) => if i < j <= s.len() {
            match spec_query(s, j) {
                Some((q, k)) => if j < k <= s.len() {
                    let (rest, l) = spec_elements_more(s, k);
                    (seq![q] + rest, l)
                } else {
                    (seq![q], k)
                },
                None => (Seq::empty(), i),
            }
        } else {
            (Seq::empty(), i)
        },
        None => (Seq::empty(), i),
    }
}

/// A query at position `i`: an object, an array, or a filter, tried in
/// that order; the first alternative that parses wins.
pub open spec fn spec_query(s: Seq<char>, i: int) -> Option<(QueryModel, int)>
    decreases s.len() - i, 0int,
{
    let obj = match tok(s, i, '{') {
        Some(j) => if i < j <= s.len() {
            let (ms, k) = spec_members(s, j);
            match tok(s, k, '}') {
                Some(l) => Some((QueryModel::Object(ms), l)),
                None => None,
            }
        } else {
            None
        },
        None => None,
    };
    match obj {
        Some(r) => Some(r),
        None => {
            let arr = match tok(s, i, '[') {
                Some(j) => if i < j <= s.len() {
                    let (es, k) = spec_elements(s, j);
                    match tok(s, k, ']') {
                        Some(l) => Some((QueryModel::Array(es), l)),
                        None => None,
                    }
                } else {
                    None
                },
                None => None,
            };
            match arr {
                Some(r) => Some(r),
                None => match tok(s, i, '.') {
                    Some(j) => {
                        let (steps, k) = spec_filter_body(s, j);
                        Some((QueryModel::Filter(steps), k))
                    },
                    None => None,
                },
            }
        },
    }
}

/// What parsing a query from the whole text yields: the query, with
/// nothing after it.
pub open spec fn spec_parse_query(s: Seq<char>) -> Option<QueryModel> {
    match spec_query(s, 0) {
        Some((q, j)) => if j == s.len() {
            Some(q)
        } else {
            None
        },
        None => None,
    }
}

fn space_char(c: char) -> (r: bool)
    ensures
        r == is_space(c),
{
    c == ' ' || c == '\t' || c == '\r' || c == '\n'
}

fn word_char(c: char) -> (r: bool)
    ensures
        r == is_word_char(c),
{
    let u = c as u32;
    (48 <= u && u <= 57) || (65 <= u && u <= 90) || (97 <= u && u <= 122) || c == '-' || c == '_'
}

fn digit_char(c: char) -> (r: bool)
    ensures
        r == is_digit(c),
{
    let u = c as u32;
    48 <= u && u <= 57
}

fn skip_spaces_x(s: &str, n: usize, i: usize) -> (r: usize)
    requires
        n as nat == s@.len(),
        i <= n,
    ensures
        r as int == skip_spaces(s@, i as int),
        i <= r <= n,
{
    let mut j = i;
    while j < n && space_char(s.get_char(j))
        invariant
            n as nat == s@.len(),
            i <= j <= n,
            skip_spaces(s@, i as int) == skip_spaces(s@, j as int),
        decreases n - j,
    {
        proof {
            assert(skip_spaces(s@, j as int) == skip_spaces(s@, j + 1));
        }
        j = j + 1;
    }
    proof {
        assert(skip_spaces(s@, j as int) == j as int);
    }
    j
}

fn word_end_x(s: &str, n: usize, i: usize) -> (r: usize)
    requires
        n as nat == s@.len(),
        i <= n,
    ensures
        r as int == word_end(s@, i as int),
        i <= r <= n,
{
    let mut j = i;
    while j < n && word_char(s.get_char(j))
        invariant
            n as nat == s@.len(),
            i <= j <= n,
            word_end(s@, i as int) == word_end(s@, j as int),
        decreases n - j,
    {
        proof {
            assert(word_end(s@, j as int) == word_end(s@, j + 1));
        }
        j = j + 1;
    }
    proof {
        assert(word_end(s@, j as int) == j as int);
    }
    j
}

fn digit_end_x(s: &str, n: usize, i: usize) -> (r: usize)
    requires
        n as nat == s@.len(),
        i <= n,
    ensures
        r as int == digit_end(s@, i as int),
        i <= r <= n,
        forall|t: int| i as int <= t < r as int ==> is_digit(s@[t]),
{
    let mut j = i;
    while j < n && digit_char(s.get_char(j))
        invariant
            n as nat == s@.len(),
            i <= j <= n,
            digit_end(s@, i as int) == digit_end(s@, j as int),
            forall|t: int| i as int <= t < j as int ==> is_digit(s@[t]),
        decreases n - j,
    {
        proof {
            assert(digit_end(s@, j as int) == digit_end(s@, j + 1));
        }
        j = j + 1;
    }
    proof {
        assert(digit_end(s@, j as int) == j as int);
    }
    j
}

fn tok_x(s: &str, n: usize, i: usize, c: char) -> (r: Option<usize>)
    requires
        n as nat == s@.len(),
        i <= n,
    ensures
        (match r {
            Some(j) => tok(s@, i as int, c) == Some(j as int) && i < j <= n,
            None => tok(s@, i as int, c) is None,
        }),
{
    let j = skip_spaces_x(s, n, i);
    if j < n && s.get_char(j) == c {
        let l = skip_spaces_x(s, n, j + 1);
        Some(l)
    } else {
        None
    }
}

fn word_x(s: &str, n: usize, i: usize) -> (r: Option<(String, usize)>)
    requires
        n as nat == s@.len(),
        i <= n,
    ensures
        (match r {
            Some((w, j)) => spec_word(s@, i as int) == Some((w@, j as int)) && i < j <= n,
            None => spec_word(s@, i as int) is None,
        }),
{
    let j = skip_spaces_x(s, n, i);
    let k = word_end_x(s, n, j);
    if k > j {
        let w = s.substring_char(j, k).to_owned();
        let l = skip_spaces_x(s, n, k);
        Some((w, l))
    } else {
        None
    }
}

proof fn lemma_digits_value_nonneg(s: Seq<char>, i: int, k: int)
    requires
        forall|t: int| i <= t < k ==> is_digit(s[t]),
    ensures
        digits_value(s, i, k) >= 0,
    decreases k - i,
{
    if i < k {
        lemma_digits_value_nonneg(s, i, k - 1);
    }
}

proof fn lemma_digits_value_grows(s: Seq<char>, i: int, m: int, k: int)
    requires
        i <= m <= k,
        forall|t: int| i <= t < k ==> is_digit(s[t]),
    ensures
        digits_value(s, i, k) >= digits_value(s, i, m),
    decreases k - m,
{
    if m < k {
        lemma_digits_value_grows(s, i, m, k - 1);
        lemma_digits_value_nonneg(s, i, k - 1);
    }
}

fn digits_to_usize(s: &str, n: usize, i: usize, k: usize) -> (r: Option<usize>)
    requires
        n as nat == s@.len(),
        i <= k <= n,
        forall|t: int| i as int <= t < k as int ==> is_digit(s@[t]),
    ensures
        (match r {
            Some(v) => v as int == digits_value(s@, i as int, k as int),
            None => digits_value(s@, i as int, k as int) > usize::MAX as int,
        }),
{
    let mut acc: usize = 0;
    let mut m = i;
    while m < k
        invariant
            n as nat == s@.len(),
            i <= m <= k <= n,
            forall|t: int| i as int <= t < k as int ==> is_digit(s@[t]),
            acc as int == digits_value(s@, i as int, m as int),
        decreases k - m,
    {
        let d32 = (s.get_char(m) as u32) - 48;
        let d = d32 as usize;
        proof {
            assert(is_digit(s@[m as int]));
            assert(d == s@[m as int] as u32 - 48);
            assert(digits_value(s@, i as int, m + 1) == digits_value(s@, i as int, m as int) * 10
                + d);
        }
        let acc10 = match acc.checked_mul(10) {
            Some(x) => x,
            None => {
                proof {
                    lemma_digits_value_grows(s@, i as int, m + 1, k as int);
                }
                return None;
            },
        };
        acc = match acc10.checked_add(d) {
            Some(x) => x,
            None => {
                proof {
                    lemma_digits_value_grows(s@, i as int, m + 1, k as int);
                }
                return None;
            },
        };
        m = m + 1;
    }
    Some(acc)
}

fn index_step_x(s: &str, n: usize, i: usize) -> (r: Option<(usize, usize)>)
    requires
        n as nat == s@.len(),
        i <= n,
    ensures
        (match r {
            Some((idx, j)) => spec_index_step(s@, i as int) == Some((idx as int, j as int)) && i
                < j <= n,
            None => spec_index_step(s@, i as int) is None,
        }),
{
    match tok_x(s, n, i, '[') {
        Some(j) => {
            let k = digit_end_x(s, n, j);
            if k > j {
                match digits_to_usize(s, n, j, k) {
                    Some(idx) => match tok_x(s, n, k, ']') {
                        Some(l) => Some((idx, l)),
                        None => None,
                    },
                    None => None,
                }
            } else {
                None
            }
        },
        None => None,
    }
}

fn field_x(s: &str, n: usize, i: usize) -> (r: Option<(Filter, usize)>)
    requires
        n as nat == s@.len(),
        i <= n,
    ensures
        (match r {
            Some((f, j)) => spec_field(s@, i as int) == Some((f@, j as int)) && i < j <= n,
            None => spec_field(s@, i as int) is None,
        }),
    decreases n - i, 0int,
{
    match word_x(s, n, i) {
        Some((w, j)) => {
            let ghost wm = w@;
            let (rest, k) = filter_rest_x(s, n, j);
            let f = Filter::Field(w, Box::new(rest));
            proof {
                assert(f@ == seq![StepModel::Field(wm)] + spec_filter_rest(s@, j as int).0);
            }
            Some((f, k))
        },
        None => None,
    }
}

fn filter_rest_x(s: &str, n: usize, i: usize) -> (r: (Filter, usize))
    requires
        n as nat == s@.len(),
        i <= n,
    ensures
        spec_filter_rest(s@, i as int) == (r.0@, r.1 as int),
        i <= r.1 <= n,
    decreases n - i, 1int,
{
    let dotted = match tok_x(s, n, i, '.') {
        Some(j) => field_x(s, n, j),
        None => None,
    };
    match dotted {
        Some((f, k)) => (f, k),
        None => match index_step_x(s, n, i) {
            Some((idx, j)) => {
                let (rest, k) = filter_rest_x(s, n, j);
                let f = Filter::Index(idx, Box::new(rest));
                proof {
                    assert(f@ == seq![StepModel::Index(idx as int)] + spec_filter_rest(
                        s@,
                        j as int,
                    ).0);
                }
                (f, k)
            },
            None => {
                proof {
                    assert(Filter::Null@ =~= Seq::<StepModel>::empty());
                }
                (Filter::Null, i)
            },
        },
    }
}

fn filter_body_x(s: &str, n: usize, i: usize) -> (r: (Filter, usize))
    requires
        n as nat == s@.len(),
        i <= n,
    ensures
        spec_filter_body(s@, i as int) == (r.0@, r.1 as int),
        i <= r.1 <= n,
{
    match field_x(s, n, i) {
        Some((f, k)) => (f, k),
        None => match index_step_x(s, n, i) {
            Some((idx, j)) => {
                let (rest, k) = filter_rest_x(s, n, j);
                let f = Filter::Index(idx, Box::new(rest));
                proof {
                    assert(f@ == seq![StepModel::Index(idx as int)] + spec_filter_rest(
                        s@,
                        j as int,
                    ).0);
                }
                (f, k)
            },
            None => {
                proof {
                    assert(Filter::Null@ =~= Seq::<StepModel>::empty());
                }
                (Filter::Null, i)
            },
        },
    }
}

fn member_x(s: &str, n: usize, i: usize) -> (r: Option<((String, Query), usize)>)
    requires
        n as nat == s@.len(),
        i <= n,
    ensures
        (match r {
            Some((kv, j)) => spec_member(s@, i as int) == Some(((kv.0@, kv.1@), j as int)) && i
                < j <= n,
            None => spec_member(s@, i as int) is None,
        }),
    decreases n - i, 1int,
{
    match tok_x(s, n, i, '"') {
        Some(j) => match word_x(s, n, j) {
            Some((w, k)) => match tok_x(s, n, k, '"') {
                Some(l) => match tok_x(s, n, l, ':') {
                    Some(m) => match query_x(s, n, m) {
                        Some((q, end)) => Some(((w, q), end)),
                        None => None,
                    },
                    None => None,
                },
                None => None,
            },
            None => None,
        },
        None => None,
    }
}

fn members_x(s: &str, n: usize, i: usize) -> (r: (Vec<(String, Query)>, usize))
    requires
        n as nat == s@.len(),
        i <= n,
    ensures
        spec_members(s@, i as int) == (query_members_view(r.0@), r.1 as int),
        i <= r.1 <= n,
    decreases n - i, 2int,
{
    broadcast use lemma_query_members_view_len, lemma_query_members_view_index;

    match member_x(s, n, i) {
        Some((kv, j)) => {
            let ghost kvm = (kv.0@, kv.1@);
            let (mut rest, k) = members_more_x(s, n, j);
            let ghost prior = rest@;
            rest.insert(0, kv);
            proof {
                assert forall|t: int| 0 <= t < rest@.len() implies query_members_view(rest@)[t]
                    == (seq![kvm] + query_members_view(prior))[t] by {
                    assert(query_members_view(rest@)[t] == (rest@[t].0@, rest@[t].1@));
                    if t > 0 {
                        assert(rest@[t] == prior[t - 1]);
                        assert(query_members_view(prior)[t - 1] == (prior[t - 1].0@, prior[t
                            - 1].1@));
                    }
                }
                assert(query_members_view(rest@) =~= seq![kvm] + query_members_view(prior));
            }
            (rest, k)
        },
        None => {
            proof {
                assert(query_members_view(Seq::<(String, Query)>::empty())
                    =~= Seq::<(Seq<char>, QueryModel)>::empty());
            }
            (Vec::new(), i)
        },
    }
}

fn members_more_x(s: &str, n: usize, i: usize) -> (r: (Vec<(String, Query)>, usize))
    requires
        n as nat == s@.len(),
        i <= n,
    ensures
        spec_members_more(s@, i as int) == (query_members_view(r.0@), r.1 as int),
        i <= r.1 <= n,
    decreases n - i, 2int,
{
    broadcast use lemma_query_members_view_len, lemma_query_members_view_index;

    let found = match tok_x(s, n, i, ',') {
        Some(j) => member_x(s, n, j),
        None => None,
    };
    match found {
        Some((kv, k)) => {
            let ghost kvm = (kv.0@, kv.1@);
            let (mut rest, l) = members_more_x(s, n, k);
            let ghost prior = rest@;
            rest.insert(0, kv);
            proof {
                assert forall|t: int| 0 <= t < rest@.len() implies query_members_view(rest@)[t]
                    == (seq![kvm] + query_members_view(prior))[t] by {
                    assert(query_members_view(rest@)[t] == (rest@[t].0@, rest@[t].1@));
                    if t > 0 {
                        assert(rest@[t] == prior[t - 1]);
                        assert(query_members_view(prior)[t - 1] == (prior[t - 1].0@, prior[t
                            - 1].1@));
                    }
                }
                assert(query_members_view(rest@) =~= seq![kvm] + query_members_view(prior));
            }
            (rest, l)
        },
        None => {
            proof {
                assert(query_members_view(Seq::<(String, Query)>::empty())
                    =~= Seq::<(Seq<char>, QueryModel)>::empty());
            }
            (Vec::new(), i)
        },
    }
}

fn elements_x(s: &str, n: usize, i: usize) -> (r: (Vec<Query>, usize))
    requires
        n as nat == s@.len(),
        i <= n,
    ensures
        spec_elements(s@, i as int) == (query_elements_view(r.0@), r.1 as int),
        i <= r.1 <= n,
    decreases n - i, 2int,
{
    broadcast use lemma_query_elements_view_len, lemma_query_elements_view_index;

    match query_x(s, n, i) {
        Some((q, j)) => {
            let ghost qm = q@;
            let (mut rest, k) = elements_more_x(s, n, j);
            let ghost prior = rest@;
            rest.insert(0, q);
            proof {
                assert forall|t: int| 0 <= t < rest@.len() implies query_elements_view(rest@)[t]
                    == (seq![qm] + query_elements_view(prior))[t] by {
                    assert(query_elements_view(rest@)[t] == rest@[t]@);
                    if t > 0 {
                        assert(rest@[t] == prior[t - 1]);
                        assert(query_elements_view(prior)[t - 1] == prior[t - 1]@);
                    }
                }
                assert(query_elements_view(rest@) =~= seq![qm] + query_elements_view(prior));
            }
            (rest, k)
        },
        None => {
            proof {
                assert(query_elements_view(Seq::<Query>::empty()) =~= Seq::<QueryModel>::empty());
            }
            (Vec::new(), i)
        },
    }
}

fn elements_more_x(s: &str, n: usize, i: usize) -> (r: (Vec<Query>, usize))
    requires
        n as nat == s@.len(),
        i <= n,
    ensures
        spec_elements_more(s@, i as int) == (query_elements_view(r.0@), r.1 as int),
        i <= r.1 <= n,
    decreases n - i, 2int,
{
    broadcast use lemma_query_elements_view_len, lemma_query_elements_view_index;

    let found = match tok_x(s, n, i, ',') {
        Some(j) => query_x(s, n, j),
        None => None,
    };
    match found {
        Some((q, k)) => {
            let ghost qm = q@;
            let (mut rest, l) = elements_more_x(s, n, k);
            let ghost prior = rest@;
            rest.insert(0, q);
            proof {
                assert forall|t: int| 0 <= t < rest@.len() implies query_elements_view(rest@)[t]
                    == (seq![qm] + query_elements_view(prior))[t] by {
                    assert(query_elements_view(rest@)[t] == rest@[t]@);
                    if t > 0 {
                        assert(rest@[t] == prior[t - 1]);
                        assert(query_elements_view(prior)[t - 1] == prior[t - 1]@);
                    }
                }
                assert(query_elements_view(rest@) =~= seq![qm] + query_elements_view(prior));
            }
            (rest, l)
        },
        None => {
            proof {
                assert(query_elements_view(Seq::<Query>::empty()) =~= Seq::<QueryModel>::empty());
            }
            (Vec::new(), i)
        },
    }
}

fn query_x(s: &str, n: usize, i: usize) -> (r: Option<(Query, usize)>)
    requires
        n as nat == s@.len(),
        i <= n,
    ensures
        (match r {
            Some((q, j)) => spec_query(s@, i as int) == Some((q@, j as int)) && i < j <= n,
            None => spec_query(s@, i as int) is None,
        }),
    decreases n - i, 0int,
{
    let obj = match tok_x(s, n, i, '{') {
        Some(j) => {
            let (ms, k) = members_x(s, n, j);
            match tok_x(s, n, k, '}') {
                Some(l) => Some((Query::Object(ms), l)),
                None => None,
            }
        },
        None => None,
    };
    match obj {
        Some(found) => Some(found),
        None => {
            let arr = match tok_x(s, n, i, '[') {
                Some(j) => {
                    let (es, k) = elements_x(s, n, j);
                    match tok_x(s, n, k, ']') {
                        Some(l) => Some((Query::Array(es), l)),
                        None => None,
                    }
                },
                None => None,
            };
            match arr {
                Some(found) => Some(found),
                None => match tok_x(s, n, i, '.') {
                    Some(j) => {
                        let (f, k) = filter_body_x(s, n, j);
                        Some((Query::Filter(f), k))
                    },
                    None => None,
                },
            }
        },
    }
}

/// Parse a query from the whole text: an object constructor, an array
/// constructor, or a filter; the entire input must be consumed.
pub fn parse_query(input: &str) -> (r: Result<Query, ParseError>)
    ensures
        (match r {
            Ok(q) => spec_parse_query(input@) == Some(q@),
            Err(e) => spec_parse_query(input@) is None && e.input@ == input@,
        }),
{
    let n = input.unicode_len();
    match query_x(input, n, 0) {
        Some((q, j)) => {
            if j == n {
                Ok(q)
            } else {
                Err(ParseError { input: input.to_owned() })
            }
        },
        None => Err(ParseError { input: input.to_owned() }),
    }
}

/// Parse a filter from the whole text: a leading `.`, then a chain of
/// field and index steps; the entire input must be consumed.
pub fn parse_filter(input: &str) -> (r: Result<Filter, ParseError>)
    ensures
        (match r {
            Ok(f) => spec_parse_filter(input@) == Some(f@),
            Err(e) => spec_parse_filter(input@) is None && e.input@ == input@,
        }),
{
    let n = input.unicode_len();
    match tok_x(input, n, 0, '.') {
        Some(i) => {
            let (f, j) = filter_body_x(input, n, i);
            if j == n {
                Ok(f)
            } else {
                Err(ParseError { input: input.to_owned() })
            }
        },
        None => Err(ParseError { input: input.to_owned() }),
    }
}

} // verus!
