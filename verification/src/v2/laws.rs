//! What holds of reading and writing vectors of version 2.0.

use crate::codes::lemma_metric_code;
use crate::metric::{metric_codes, Family};
use crate::order::{
    lemma_fill_reads, lemma_order_invariance, metric_at, reading, rearranged, rearranges,
};
use crate::parse::{empty_slots, fill, Fault};
use crate::roundtrip::lemma_metrics_round_trip;
use crate::text::{first_index, join, lemma_first_index_is, lemma_join_begins, lemma_split_join};
use crate::v2::{parsed, text};
use crate::values::valid;
use vstd::prelude::*;

verus! {

/// The canonical text of a vector, read again, gives the vector.
pub proof fn lemma_round_trip(values: Seq<u8>)
    requires
        valid(Family::V2, values),
    ensures
        parsed(text(values)) == Ok::<Seq<u8>, Fault>(values),
{
    reveal_strlit("CVSS:");
    reveal_strlit("AV");
    lemma_metrics_round_trip(Family::V2, values);
    let whole = text(values);
    assert(whole.subrange(0, 2)[0] == 'A');
    if "CVSS:"@.is_prefix_of(whole) {
        assert(whole.subrange(0, 5)[0] == 'C');
    }
}

/// A text in canonical form, which is the text of some vector, is read, and
/// the text of what was read is the same text.
pub proof fn lemma_canonical_text_is_kept(s: Seq<char>, values: Seq<u8>)
    requires
        valid(Family::V2, values),
        s == text(values),
    ensures
        parsed(s).is_ok(),
        text(parsed(s)->Ok_0) == s,
{
    lemma_round_trip(values);
}

/// Tokens that give a vector give the same vector, and so the same text, in
/// any other order.
pub proof fn lemma_token_order(ts: Seq<Seq<char>>, p: Seq<int>, q: Seq<int>)
    requires
        ts.len() > 0,
        forall|k: int, i: int| 0 <= k < ts.len() && 0 <= i < ts[k].len() ==> ts[k][i] != '/',
        rearranges(p, q, ts.len()),
        parsed(join(ts, '/')).is_ok(),
    ensures
        parsed(join(rearranged(ts, p), '/')) == parsed(join(ts, '/')),
{
    let us = rearranged(ts, p);
    let whole = join(us, '/');
    let empty = empty_slots(Family::V2);
    lemma_order_invariance(Family::V2, ts, p, q);
    assert forall|k: int, i: int| 0 <= k < us.len() && 0 <= i < us[k].len() implies us[k][i]
        != '/' by {
        assert(us[k] == ts[p[k]]);
    }
    lemma_split_join(us, '/');
    assert(fill(Family::V2, us, empty).is_ok());
    lemma_fill_reads(Family::V2, us, empty);
    // the first token begins with a metric code and a colon, which `CVSS:` is not
    let first = us[0];
    let c = first_index(first, ':') as int;
    let metric = first.subrange(0, c);
    let m = first_index(metric_codes(Family::V2), metric) as int;
    assert(reading(Family::V2, first).is_some()) by {
        assert(empty[metric_at(Family::V2, us, 0)].is_none());
    }
    lemma_first_index_is(first, ':');
    lemma_first_index_is(metric_codes(Family::V2), metric);
    lemma_metric_code(Family::V2, m);
    lemma_join_begins(us, '/');
    reveal_strlit("CVSS:");
    if "CVSS:"@.is_prefix_of(whole) {
        assert(whole.subrange(0, 5)[c] == "CVSS:"@[c]);
        assert(whole.subrange(0, first.len() as int)[c] == first[c]);
    }
}

} // verus!
