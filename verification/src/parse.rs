//! Reading the metrics of a vector from its text: tokens between slashes,
//! each a metric code, a colon and a value code.

use crate::metric::{
    base_count, base_metrics, metric_code, metric_codes, metric_count, value_code, value_codes,
    value_count, Family,
};
use crate::text::{
    find, first_index, lemma_first_index, lemma_first_index_is, region_is, split, to_chars,
};
use crate::values::valid;
use vstd::prelude::*;
use vstd::string::*;

verus! {

/// Why a text is not a vector.
#[derive(Clone, Debug, PartialEq, Eq)]
pub enum ParseError {
    /// The text does not begin as a vector of the version asked for does.
    UnsupportedVersion,
    /// A part between two slashes holds no colon.
    MalformedToken { token: String },
    /// A metric code that the version does not have.
    UnknownMetric { metric: String },
    /// A value code that the metric does not have.
    UnknownValue { metric: String, value: String },
    /// A metric that was given before.
    DuplicateMetric { metric: String },
    /// A base metric that is not given; the first of them in canonical order.
    MissingMetric { metric: String },
}

/// A `ParseError` with its texts as sequences.
pub enum Fault {
    UnsupportedVersion,
    MalformedToken { token: Seq<char> },
    UnknownMetric { metric: Seq<char> },
    UnknownValue { metric: Seq<char>, value: Seq<char> },
    DuplicateMetric { metric: Seq<char> },
    MissingMetric { metric: Seq<char> },
}

impl View for ParseError {
    type V = Fault;

    open spec fn view(&self) -> Fault {
        match self {
            ParseError::UnsupportedVersion => Fault::UnsupportedVersion,
            ParseError::MalformedToken { token } => Fault::MalformedToken { token: token@ },
            ParseError::UnknownMetric { metric } => Fault::UnknownMetric { metric: metric@ },
            ParseError::UnknownValue { metric, value } => Fault::UnknownValue {
                metric: metric@,
                value: value@,
            },
            ParseError::DuplicateMetric { metric } => Fault::DuplicateMetric { metric: metric@ },
            ParseError::MissingMetric { metric } => Fault::MissingMetric { metric: metric@ },
        }
    }
}

/// The values read so far: for each metric its value, or nothing.
pub type Slots = Seq<Option<u8>>;

/// No value for any metric.
pub open spec fn empty_slots(f: Family) -> Slots {
    Seq::new(metric_codes(f).len(), |m: int| None)
}

/// The slots after one more token: the token must hold a colon, a metric code
/// of the family before it and a value code of that metric after it, and the
/// metric must not have a value yet.
pub open spec fn step(f: Family, slots: Slots, token: Seq<char>) -> Result<Slots, Fault> {
    let c = first_index(token, ':');
    let metric = token.subrange(0, c as int);
    let value = token.subrange(c as int + 1, token.len() as int);
    let m = first_index(metric_codes(f), metric);
    let k = first_index(value_codes(f, m as int), value);
    if c >= token.len() {
        Err(Fault::MalformedToken { token })
    } else if m >= metric_codes(f).len() {
        Err(Fault::UnknownMetric { metric })
    } else if k >= value_codes(f, m as int).len() {
        Err(Fault::UnknownValue { metric, value })
    } else if slots[m as int].is_some() {
        Err(Fault::DuplicateMetric { metric })
    } else {
        Ok(slots.update(m as int, Some(k as u8)))
    }
}

/// The slots after all of the tokens, taken from the left, or the first fault.
pub open spec fn fill(f: Family, tokens: Seq<Seq<char>>, slots: Slots) -> Result<Slots, Fault>
    decreases tokens.len(),
{
    if tokens.len() == 0 {
        Ok(slots)
    } else {
        match step(f, slots, tokens[0]) {
            Err(e) => Err(e),
            Ok(next) => fill(f, tokens.drop_first(), next),
        }
    }
}

/// The values of a vector from its slots: every base metric must have one; an
/// optional metric without one is not defined.
pub open spec fn finish(f: Family, slots: Slots) -> Result<Seq<u8>, Fault> {
    let m = first_index(slots.subrange(0, base_metrics(f) as int), None);
    if m < base_metrics(f) {
        Err(Fault::MissingMetric { metric: metric_codes(f)[m as int] })
    } else {
        Ok(
            Seq::new(
                slots.len(),
                |i: int|
                    match slots[i] {
                        Some(k) => k,
                        None => 0u8,
                    },
            ),
        )
    }
}

/// The values after the tokens and the check for missing metrics.
pub open spec fn complete(f: Family, tokens: Seq<Seq<char>>, slots: Slots) -> Result<
    Seq<u8>,
    Fault,
> {
    match fill(f, tokens, slots) {
        Err(e) => Err(e),
        Ok(filled) => finish(f, filled),
    }
}

/// The values that a text of metrics gives, or why it gives none.
pub open spec fn metrics_of(f: Family, s: Seq<char>) -> Result<Seq<u8>, Fault> {
    complete(f, split(s, '/'), empty_slots(f))
}

/// Whether each value in the slots is a value of its metric.
pub open spec fn slots_valid(f: Family, slots: Slots) -> bool {
    &&& slots.len() == metric_codes(f).len()
    &&& forall|m: int|
        0 <= m < slots.len() ==> match #[trigger] slots[m] {
            Some(k) => k < value_codes(f, m).len(),
            None => true,
        }
}

/// Reading a text token by token: the first token, then the rest.
pub proof fn lemma_complete_unfold(f: Family, s: Seq<char>, slots: Slots)
    ensures
        complete(f, split(s, '/'), slots) == ({
            let i = first_index(s, '/');
            match step(f, slots, s.subrange(0, i as int)) {
                Err(e) => Err(e),
                Ok(next) => if i >= s.len() {
                    finish(f, next)
                } else {
                    complete(f, split(s.subrange(i as int + 1, s.len() as int), '/'), next)
                },
            }
        }),
{
    let i = first_index(s, '/');
    lemma_first_index_is(s, '/');
    let tokens = split(s, '/');
    if i >= s.len() {
        assert(s.subrange(0, i as int) =~= s);
        assert(tokens =~= seq![s]);
        assert(tokens.drop_first().len() == 0);
    } else {
        let rest = split(s.subrange(i as int + 1, s.len() as int), '/');
        assert(tokens =~= seq![s.subrange(0, i as int)] + rest);
        assert(tokens[0] == s.subrange(0, i as int));
        assert(tokens.drop_first() =~= rest);
    }
}

/// The text from `a` to `b`.
fn text_of(input: &str, a: usize, b: usize) -> (r: String)
    requires
        a <= b <= input@.len(),
    ensures
        r@ == input@.subrange(a as int, b as int),
{
    String::from_str(input.substring_char(a, b))
}

/// The position of the metric whose code stands from `a` to `b`, or the
/// number of metrics.
fn lookup_metric(f: Family, chars: &Vec<char>, a: usize, b: usize) -> (m: usize)
    requires
        a <= b <= chars.len(),
    ensures
        m == first_index(metric_codes(f), chars@.subrange(a as int, b as int)),
        m <= metric_codes(f).len(),
{
    let n: usize = metric_count(f);
    let mut m: usize = 0;
    while m < n
        invariant
            m <= n,
            n == metric_codes(f).len(),
            a <= b <= chars.len(),
            forall|j: int| 0 <= j < m ==> metric_codes(f)[j] != chars@.subrange(a as int, b as int),
        decreases n - m,
    {
        if region_is(chars, a, b, metric_code(f, m)) {
            proof {
                lemma_first_index(metric_codes(f), chars@.subrange(a as int, b as int), m as int);
            }
            return m;
        }
        m = m + 1;
    }
    proof {
        lemma_first_index(metric_codes(f), chars@.subrange(a as int, b as int), m as int);
    }
    m
}

/// The position of the value of metric `m` whose code stands from `a` to `b`,
/// or the number of values.
fn lookup_value(f: Family, m: usize, chars: &Vec<char>, a: usize, b: usize) -> (k: u8)
    requires
        m < metric_codes(f).len(),
        a <= b <= chars.len(),
    ensures
        k == first_index(value_codes(f, m as int), chars@.subrange(a as int, b as int)),
        k <= value_codes(f, m as int).len(),
{
    let n: u8 = value_count(f, m);
    let mut k: u8 = 0;
    while k < n
        invariant
            k <= n,
            n == value_codes(f, m as int).len(),
            m < metric_codes(f).len(),
            a <= b <= chars.len(),
            forall|j: int|
                0 <= j < k ==> value_codes(f, m as int)[j] != chars@.subrange(a as int, b as int),
        decreases n - k,
    {
        if region_is(chars, a, b, value_code(f, m, k)) {
            proof {
                lemma_first_index(
                    value_codes(f, m as int),
                    chars@.subrange(a as int, b as int),
                    k as int,
                );
            }
            return k;
        }
        k = k + 1;
    }
    proof {
        lemma_first_index(value_codes(f, m as int), chars@.subrange(a as int, b as int), k as int);
    }
    k
}

/// The metric of a family that a code names, or the fault of a code that
/// names none.
pub fn parse_metric(f: Family, code: &str) -> (r: Result<usize, ParseError>)
    ensures
        match r {
            Ok(m) => m < metric_codes(f).len() && metric_codes(f)[m as int] == code@ && m
                == first_index(metric_codes(f), code@),
            Err(e) => e@ == (Fault::UnknownMetric { metric: code@ }) && !metric_codes(f).contains(
                code@,
            ),
        },
{
    let chars: Vec<char> = to_chars(code);
    let m: usize = lookup_metric(f, &chars, 0, chars.len());
    proof {
        assert(chars@.subrange(0, chars.len() as int) =~= code@);
        lemma_first_index_is(metric_codes(f), code@);
    }
    if m == metric_count(f) {
        Err(ParseError::UnknownMetric { metric: String::from_str(code) })
    } else {
        Ok(m)
    }
}

/// The value of metric `m` that a code names, or the fault of a code that
/// names none.
pub fn parse_value(f: Family, m: usize, code: &str) -> (r: Result<u8, ParseError>)
    requires
        m < metric_codes(f).len(),
    ensures
        match r {
            Ok(k) => k < value_codes(f, m as int).len() && value_codes(f, m as int)[k as int]
                == code@ && k == first_index(value_codes(f, m as int), code@),
            Err(e) => e@ == (Fault::UnknownValue { metric: metric_codes(f)[m as int], value: code@ })
                && !value_codes(f, m as int).contains(code@),
        },
{
    let chars: Vec<char> = to_chars(code);
    let k: u8 = lookup_value(f, m, &chars, 0, chars.len());
    proof {
        assert(chars@.subrange(0, chars.len() as int) =~= code@);
        lemma_first_index_is(value_codes(f, m as int), code@);
    }
    if k == value_count(f, m) {
        Err(
            ParseError::UnknownValue {
                metric: String::from_str(metric_code(f, m)),
                value: String::from_str(code),
            },
        )
    } else {
        Ok(k)
    }
}

/// The values that the text from `start` on gives, or why it gives none.
/// `chars` holds the characters of `input`.
pub fn parse_metrics(f: Family, input: &str, chars: &Vec<char>, start: usize) -> (r: Result<
    Vec<u8>,
    ParseError,
>)
    requires
        chars@ == input@,
        start <= chars.len(),
    ensures
        match r {
            Ok(values) => metrics_of(f, input@.subrange(start as int, input@.len() as int)) == Ok::<
                Seq<u8>,
                Fault,
            >(values@) && valid(f, values@),
            Err(e) => metrics_of(f, input@.subrange(start as int, input@.len() as int)) == Err::<
                Seq<u8>,
                Fault,
            >(e@),
        },
{
    let n: usize = chars.len();
    let count: usize = metric_count(f);
    let mut slots: Vec<Option<u8>> = Vec::new();
    while slots.len() < count
        invariant
            slots.len() <= count,
            forall|m: int| 0 <= m < slots.len() ==> slots@[m].is_none(),
        decreases count - slots.len(),
    {
        slots.push(None);
    }
    assert(slots@ =~= empty_slots(f));
    assert(slots_valid(f, slots@));
    let mut pos: usize = start;
    let mut more: bool = true;
    while more
        invariant
            chars@ == input@,
            n == chars.len(),
            count == metric_codes(f).len(),
            start <= pos <= n,
            slots_valid(f, slots@),
            more ==> metrics_of(f, input@.subrange(start as int, n as int)) == complete(
                f,
                split(chars@.subrange(pos as int, n as int), '/'),
                slots@,
            ),
            !more ==> metrics_of(f, input@.subrange(start as int, n as int)) == finish(f, slots@),
        decreases n - pos + (if more { 1int } else { 0int }),
    {
        let end: usize = find(chars, pos, n, '/');
        let colon: usize = find(chars, pos, end, ':');
        proof {
            let s = chars@.subrange(pos as int, n as int);
            lemma_complete_unfold(f, s, slots@);
            assert(s.subrange(0, end - pos) =~= chars@.subrange(pos as int, end as int));
            if end < n {
                assert(s.subrange(end - pos + 1, s.len() as int) =~= chars@.subrange(
                    end + 1,
                    n as int,
                ));
            }
            let token = chars@.subrange(pos as int, end as int);
            assert(token.subrange(0, colon - pos) =~= chars@.subrange(pos as int, colon as int));
            if colon < end {
                assert(token.subrange(colon - pos + 1, token.len() as int) =~= chars@.subrange(
                    colon + 1,
                    end as int,
                ));
            }
        }
        if colon == end {
            return Err(ParseError::MalformedToken { token: text_of(input, pos, end) });
        }
        let m: usize = lookup_metric(f, chars, pos, colon);
        if m == count {
            return Err(ParseError::UnknownMetric { metric: text_of(input, pos, colon) });
        }
        let k: u8 = lookup_value(f, m, chars, colon + 1, end);
        if k == value_count(f, m) {
            return Err(
                ParseError::UnknownValue {
                    metric: text_of(input, pos, colon),
                    value: text_of(input, colon + 1, end),
                },
            );
        }
        if slots[m].is_some() {
            return Err(ParseError::DuplicateMetric { metric: text_of(input, pos, colon) });
        }
        slots.set(m, Some(k));
        if end == n {
            more = false;
        } else {
            pos = end + 1;
        }
    }
    let base: usize = base_count(f);
    let mut m: usize = 0;
    while m < base
        invariant
            m <= base,
            base == base_metrics(f),
            base <= slots.len(),
            slots_valid(f, slots@),
            n == input@.len(),
            metrics_of(f, input@.subrange(start as int, n as int)) == finish(f, slots@),
            forall|j: int| 0 <= j < m ==> slots@[j].is_some(),
        decreases base - m,
    {
        if slots[m].is_none() {
            proof {
                lemma_first_index(slots@.subrange(0, base as int), None, m as int);
            }
            return Err(ParseError::MissingMetric { metric: String::from_str(metric_code(f, m)) });
        }
        m = m + 1;
    }
    proof {
        lemma_first_index(slots@.subrange(0, base as int), None, base as int);
    }
    let mut values: Vec<u8> = Vec::new();
    let mut i: usize = 0;
    while i < count
        invariant
            i <= count,
            count == slots.len(),
            n == input@.len(),
            metrics_of(f, input@.subrange(start as int, n as int)) == finish(f, slots@),
            finish(f, slots@).is_ok(),
            count == metric_codes(f).len(),
            values.len() == i,
            slots_valid(f, slots@),
            forall|j: int|
                0 <= j < i ==> values@[j] == (match slots@[j] {
                    Some(k) => k,
                    None => 0u8,
                }),
        decreases count - i,
    {
        let v: u8 = match slots[i] {
            Some(k) => k,
            None => 0,
        };
        values.push(v);
        i = i + 1;
    }
    proof {
        assert(values@ =~= finish(f, slots@)->Ok_0);
        assert forall|j: int| 0 <= j < values@.len() implies (#[trigger] values@[j]) < value_codes(
            f,
            j,
        ).len() by {
            assert(value_codes(f, j).len() >= 2);
            assert(match slots@[j] {
                Some(k) => k < value_codes(f, j).len(),
                None => true,
            });
        }
    }
    Ok(values)
}

} // verus!
