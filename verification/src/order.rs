//! The order of the tokens of a vector does not matter: tokens that give a
//! vector give the same vector in any other order.

use crate::metric::{metric_codes, value_codes, Family};
use crate::parse::{empty_slots, fill, metrics_of, step, Fault, Slots};
use crate::text::{first_index, join, lemma_split_join};
use vstd::prelude::*;

verus! {

/// A metric and one of its values, by their positions.
pub struct Reading {
    pub metric: int,
    pub value: u8,
}

/// What a token says: a metric of the family and one of its values, or
/// nothing where the token is not of that form.
pub open spec fn reading(f: Family, token: Seq<char>) -> Option<Reading> {
    let c = first_index(token, ':');
    let metric = token.subrange(0, c as int);
    let value = token.subrange(c as int + 1, token.len() as int);
    let m = first_index(metric_codes(f), metric);
    let k = first_index(value_codes(f, m as int), value);
    if c < token.len() && m < metric_codes(f).len() && k < value_codes(f, m as int).len() {
        Some(Reading { metric: m as int, value: k as u8 })
    } else {
        None
    }
}

/// The metric that token `i` names.
pub open spec fn metric_at(f: Family, ts: Seq<Seq<char>>, i: int) -> int {
    reading(f, ts[i]).unwrap().metric
}

/// Whether token `i` gives metric `m` the value `k`.
pub open spec fn reads(f: Family, ts: Seq<Seq<char>>, i: int, m: int, k: u8) -> bool {
    0 <= i < ts.len() && reading(f, ts[i]) == Some(Reading { metric: m, value: k })
}

/// Whether the slots hold value `k` for metric `m`.
pub open spec fn holds(slots: Slots, m: int, k: u8) -> bool {
    slots[m] == Some(k)
}

/// Whether every token names a metric that has no value in the slots, and no
/// two tokens name the same.
pub open spec fn fresh(f: Family, ts: Seq<Seq<char>>, slots: Slots) -> bool {
    &&& forall|i: int|
        0 <= i < ts.len() ==> reading(f, ts[i]).is_some() && slots[#[trigger] metric_at(
            f,
            ts,
            i,
        )].is_none()
    &&& forall|i: int, j: int|
        0 <= i < j < ts.len() ==> #[trigger] metric_at(f, ts, i) != #[trigger] metric_at(f, ts, j)
}

/// Whether `p` and `q` are rearrangements of so many positions that undo
/// each other.
pub open spec fn rearranges(p: Seq<int>, q: Seq<int>, n: nat) -> bool {
    &&& p.len() == n
    &&& q.len() == n
    &&& forall|i: int| 0 <= i < n ==> 0 <= #[trigger] p[i] < n && q[p[i]] == i
    &&& forall|j: int| 0 <= j < n ==> 0 <= #[trigger] q[j] < n && p[q[j]] == j
}

/// The sequence with, at each position `i`, what stood at `p[i]`.
pub open spec fn rearranged<T>(ts: Seq<T>, p: Seq<int>) -> Seq<T> {
    Seq::new(ts.len(), |i: int| ts[p[i]])
}

/// Tokens that can be read are fresh, and the slots hold afterwards what
/// they held before and what the tokens say.
pub proof fn lemma_fill_reads(f: Family, ts: Seq<Seq<char>>, slots: Slots)
    requires
        slots.len() == metric_codes(f).len(),
        fill(f, ts, slots).is_ok(),
    ensures
        fresh(f, ts, slots),
        fill(f, ts, slots)->Ok_0.len() == slots.len(),
        forall|m: int, k: u8|
            0 <= m < slots.len() ==> (#[trigger] holds(fill(f, ts, slots)->Ok_0, m, k) <==> holds(
                slots,
                m,
                k,
            ) || exists|i: int| reads(f, ts, i, m, k)),
    decreases ts.len(),
{
    let after = fill(f, ts, slots)->Ok_0;
    if ts.len() == 0 {
    } else {
        let rest = ts.drop_first();
        let next = step(f, slots, ts[0])->Ok_0;
        let m0 = reading(f, ts[0]).unwrap().metric;
        let k0 = reading(f, ts[0]).unwrap().value;
        assert(step(f, slots, ts[0]).is_ok());
        assert(next == slots.update(m0, Some(k0)));
        assert(fill(f, ts, slots) == fill(f, rest, next));
        lemma_fill_reads(f, rest, next);
        assert forall|i: int| 0 <= i < ts.len() implies reading(f, ts[i]).is_some()
            && slots[#[trigger] metric_at(f, ts, i)].is_none() by {
            if i > 0 {
                assert(ts[i] == rest[i - 1]);
                assert(next[metric_at(f, rest, i - 1)].is_none());
            }
        }
        assert forall|i: int, j: int| 0 <= i < j < ts.len() implies #[trigger] metric_at(
            f,
            ts,
            i,
        ) != #[trigger] metric_at(f, ts, j) by {
            assert(ts[j] == rest[j - 1]);
            assert(next[metric_at(f, rest, j - 1)].is_none());
            if i > 0 {
                assert(ts[i] == rest[i - 1]);
                assert(metric_at(f, rest, i - 1) != metric_at(f, rest, j - 1));
            }
        }
        assert forall|m: int, k: u8| 0 <= m < slots.len() implies (#[trigger] holds(after, m, k)
            <==> holds(slots, m, k) || exists|i: int| reads(f, ts, i, m, k)) by {
            assert(holds(after, m, k) <==> holds(next, m, k) || exists|i: int|
                reads(f, rest, i, m, k));
            if holds(after, m, k) {
                if holds(next, m, k) {
                    if m == m0 {
                        assert(reads(f, ts, 0, m, k));
                    }
                } else {
                    let i = choose|i: int| reads(f, rest, i, m, k);
                    assert(ts[i + 1] == rest[i]);
                    assert(reads(f, ts, i + 1, m, k));
                }
            }
            if exists|i: int| reads(f, ts, i, m, k) {
                let i = choose|i: int| reads(f, ts, i, m, k);
                if i > 0 {
                    assert(ts[i] == rest[i - 1]);
                    assert(reads(f, rest, i - 1, m, k));
                }
            }
        }
    }
}

/// Fresh tokens can be read.
pub proof fn lemma_fresh_fills(f: Family, ts: Seq<Seq<char>>, slots: Slots)
    requires
        slots.len() == metric_codes(f).len(),
        fresh(f, ts, slots),
    ensures
        fill(f, ts, slots).is_ok(),
    decreases ts.len(),
{
    if ts.len() > 0 {
        let rest = ts.drop_first();
        let m0 = metric_at(f, ts, 0);
        let k0 = reading(f, ts[0]).unwrap().value;
        assert(reading(f, ts[0]).is_some() && slots[m0].is_none());
        let next = slots.update(m0, Some(k0));
        assert(step(f, slots, ts[0]) == Ok::<Slots, Fault>(next));
        assert forall|i: int| 0 <= i < rest.len() implies reading(f, rest[i]).is_some()
            && next[#[trigger] metric_at(f, rest, i)].is_none() by {
            assert(rest[i] == ts[i + 1]);
            assert(metric_at(f, ts, 0) != metric_at(f, ts, i + 1));
            assert(slots[metric_at(f, ts, i + 1)].is_none());
        }
        assert forall|i: int, j: int| 0 <= i < j < rest.len() implies #[trigger] metric_at(
            f,
            rest,
            i,
        ) != #[trigger] metric_at(f, rest, j) by {
            assert(rest[i] == ts[i + 1]);
            assert(rest[j] == ts[j + 1]);
            assert(metric_at(f, ts, i + 1) != metric_at(f, ts, j + 1));
        }
        lemma_fresh_fills(f, rest, next);
        assert(fill(f, ts, slots) == fill(f, rest, next));
    }
}

/// Tokens that fill empty slots fill them alike in any other order.
pub proof fn lemma_fill_rearranged(f: Family, ts: Seq<Seq<char>>, p: Seq<int>, q: Seq<int>)
    requires
        rearranges(p, q, ts.len()),
        fill(f, ts, empty_slots(f)).is_ok(),
    ensures
        fill(f, rearranged(ts, p), empty_slots(f)) == fill(f, ts, empty_slots(f)),
{
    let empty = empty_slots(f);
    let us = rearranged(ts, p);
    lemma_fill_reads(f, ts, empty);
    assert forall|i: int| 0 <= i < us.len() implies reading(f, us[i]).is_some()
        && empty[#[trigger] metric_at(f, us, i)].is_none() by {
        assert(us[i] == ts[p[i]]);
        assert(empty[metric_at(f, ts, p[i])].is_none());
    }
    assert forall|i: int, j: int| 0 <= i < j < us.len() implies #[trigger] metric_at(f, us, i)
        != #[trigger] metric_at(f, us, j) by {
        assert(us[i] == ts[p[i]]);
        assert(us[j] == ts[p[j]]);
        assert(q[p[i]] == i && q[p[j]] == j);
        if p[i] < p[j] {
            assert(metric_at(f, ts, p[i]) != metric_at(f, ts, p[j]));
        } else {
            assert(metric_at(f, ts, p[j]) != metric_at(f, ts, p[i]));
        }
    }
    lemma_fresh_fills(f, us, empty);
    lemma_fill_reads(f, us, empty);
    let a = fill(f, ts, empty)->Ok_0;
    let b = fill(f, us, empty)->Ok_0;
    assert forall|m: int| 0 <= m < a.len() implies a[m] == b[m] by {
        match a[m] {
            Some(k) => {
                assert(holds(a, m, k));
                let j = choose|j: int| reads(f, ts, j, m, k);
                assert(us[q[j]] == ts[p[q[j]]]);
                assert(reads(f, us, q[j], m, k));
                assert(holds(b, m, k));
            },
            None => {
                match b[m] {
                    Some(k) => {
                        assert(holds(b, m, k));
                        let i = choose|i: int| reads(f, us, i, m, k);
                        assert(us[i] == ts[p[i]]);
                        assert(reads(f, ts, p[i], m, k));
                        assert(holds(a, m, k));
                    },
                    None => {},
                }
            },
        }
    }
    assert(a =~= b);
}

/// Tokens that give a vector give the same vector in any other order.
pub proof fn lemma_order_invariance(f: Family, ts: Seq<Seq<char>>, p: Seq<int>, q: Seq<int>)
    requires
        ts.len() > 0,
        forall|k: int, i: int| 0 <= k < ts.len() && 0 <= i < ts[k].len() ==> ts[k][i] != '/',
        rearranges(p, q, ts.len()),
        metrics_of(f, join(ts, '/')).is_ok(),
    ensures
        metrics_of(f, join(rearranged(ts, p), '/')) == metrics_of(f, join(ts, '/')),
{
    let us = rearranged(ts, p);
    lemma_split_join(ts, '/');
    assert forall|k: int, i: int| 0 <= k < us.len() && 0 <= i < us[k].len() implies us[k][i]
        != '/' by {
        assert(us[k] == ts[p[k]]);
    }
    lemma_split_join(us, '/');
    lemma_fill_rearranged(f, ts, p, q);
}

} // verus!
