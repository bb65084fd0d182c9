//! What holds of vectors of version 3: metrics that are not defined are
//! neutral, and reading and writing undo each other.

use crate::bounds::lemma_product_one;
use crate::float::ratio;
use crate::format::metrics_text;
use crate::metric::{value_codes, weights, Family};
use crate::order::{lemma_order_invariance, rearranged, rearranges};
use crate::parse::Fault;
use crate::rounding::lemma_ratio_normal;
use crate::roundtrip::lemma_metrics_round_trip;
use crate::score::tenths::{lemma_ceiling_tenths, lemma_corrected_tenths};
use crate::text::join;
use crate::v3::{
    base_tenths, changed, environmental_tenths, exploitability, impact, modified,
    modified_exploitability, modified_impact, parsed, prefix, temporal_of, temporal_tenths, text,
    MinorVersion, VectorModel,
};
use crate::v3::range::{lemma_base_range, lemma_sub_score_capped, lemma_weight};
use crate::values::valid;
use vstd::arithmetic::power2::*;
use vstd::prelude::*;
use vstd::string::*;

verus! {

/// Where exploit code maturity, remediation level and report confidence are
/// not defined, a score adjusted by them is the same score.
pub proof fn lemma_temporal_neutral(minor: MinorVersion, v: Seq<u8>, tenths: nat)
    requires
        valid(Family::V3, v),
        v[8] == 0 && v[9] == 0 && v[10] == 0,
        tenths <= 100,
    ensures
        temporal_of(minor, v, tenths as int) == tenths,
{
    lemma_weight(1000);
    lemma2_to64_rest();
    let b = ratio(tenths, 10);
    lemma_ratio_normal(tenths, 10);
    lemma_product_one(b);
    match minor {
        MinorVersion::V0 => lemma_ceiling_tenths(tenths),
        MinorVersion::V1 => lemma_corrected_tenths(tenths),
    }
}

/// Where no environmental metric is defined, the environment sees the impact
/// and the exploitability of the base metrics.
pub proof fn lemma_environment_neutral(v: Seq<u8>)
    requires
        valid(Family::V3, v),
        forall|m: int| 11 <= m < 22 ==> v[m] == 0,
    ensures
        modified_impact(v) == impact(v),
        modified_exploitability(v) == exploitability(v),
        changed(modified(v, 4)) == changed(v[4]),
{
    lemma_weight(1000);
    assert(v[5] < value_codes(Family::V3, 5).len());
    assert(v[6] < value_codes(Family::V3, 6).len());
    assert(v[7] < value_codes(Family::V3, 7).len());
    let wc = weights(Family::V3, 5)[v[5] as int] as nat;
    let wi = weights(Family::V3, 6)[v[6] as int] as nat;
    let wa = weights(Family::V3, 7)[v[7] as int] as nat;
    lemma_weight(wc);
    lemma_weight(wi);
    lemma_weight(wa);
    lemma_product_one(ratio(wc, 1000));
    lemma_product_one(ratio(wi, 1000));
    lemma_product_one(ratio(wa, 1000));
    lemma_sub_score_capped(wc, wi, wa);
    assert(v[11] == 0 && v[12] == 0 && v[13] == 0);
    assert(v[14] == 0 && v[15] == 0 && v[16] == 0 && v[17] == 0 && v[18] == 0);
    assert(v[19] == 0 && v[20] == 0 && v[21] == 0);
}

/// Where no temporal metric is defined, the temporal score is the base
/// score.
pub proof fn lemma_temporal_is_base(minor: MinorVersion, v: Seq<u8>)
    requires
        valid(Family::V3, v),
        v[8] == 0 && v[9] == 0 && v[10] == 0,
    ensures
        temporal_tenths(minor, v) == base_tenths(minor, v),
{
    lemma_base_range(minor, v);
    lemma_temporal_neutral(minor, v, base_tenths(minor, v) as nat);
}

/// Where no temporal and no environmental metric is defined, the temporal
/// score and the environmental score are the base score.
pub proof fn lemma_default_neutrality(minor: MinorVersion, v: Seq<u8>)
    requires
        valid(Family::V3, v),
        forall|m: int| 8 <= m < 22 ==> v[m] == 0,
    ensures
        temporal_tenths(minor, v) == base_tenths(minor, v),
        environmental_tenths(minor, v) == base_tenths(minor, v),
{
    assert(v[8] == 0 && v[9] == 0 && v[10] == 0);
    lemma_temporal_is_base(minor, v);
    lemma_environment_neutral(v);
}

/// The canonical text of a vector, read again, gives the vector.
pub proof fn lemma_round_trip(v: VectorModel)
    requires
        valid(Family::V3, v.values),
    ensures
        parsed(text(v)) == Ok::<VectorModel, Fault>(v),
{
    reveal_strlit("CVSS:3.0/");
    reveal_strlit("CVSS:3.1/");
    lemma_metrics_round_trip(Family::V3, v.values);
    let whole = text(v);
    assert(whole.subrange(0, 9) =~= prefix(v.minor));
    assert(whole.subrange(9, whole.len() as int) =~= metrics_text(Family::V3, v.values));
    if v.minor == MinorVersion::V1 {
        assert(whole.subrange(0, 9)[7] != prefix(MinorVersion::V0)[7]);
    }
}

/// A text in canonical form, which is the text of some vector, is read, and
/// the text of what was read is the same text.
pub proof fn lemma_canonical_text_is_kept(s: Seq<char>, v: VectorModel)
    requires
        valid(Family::V3, v.values),
        s == text(v),
    ensures
        parsed(s).is_ok(),
        text(parsed(s)->Ok_0) == s,
{
    lemma_round_trip(v);
}

/// Tokens that give a vector give the same vector, and so the same text, in
/// any other order behind the same beginning.
pub proof fn lemma_token_order(minor: MinorVersion, ts: Seq<Seq<char>>, p: Seq<int>, q: Seq<int>)
    requires
        ts.len() > 0,
        forall|k: int, i: int| 0 <= k < ts.len() && 0 <= i < ts[k].len() ==> ts[k][i] != '/',
        rearranges(p, q, ts.len()),
        parsed(prefix(minor) + join(ts, '/')).is_ok(),
    ensures
        parsed(prefix(minor) + join(rearranged(ts, p), '/')) == parsed(
            prefix(minor) + join(ts, '/'),
        ),
{
    reveal_strlit("CVSS:3.0/");
    reveal_strlit("CVSS:3.1/");
    let a = prefix(minor) + join(ts, '/');
    let b = prefix(minor) + join(rearranged(ts, p), '/');
    assert(a.subrange(0, 9) =~= prefix(minor));
    assert(b.subrange(0, 9) =~= prefix(minor));
    assert(a.subrange(9, a.len() as int) =~= join(ts, '/'));
    assert(b.subrange(9, b.len() as int) =~= join(rearranged(ts, p), '/'));
    if minor == MinorVersion::V1 {
        assert(a.subrange(0, 9)[7] != prefix(MinorVersion::V0)[7]);
        assert(b.subrange(0, 9)[7] != prefix(MinorVersion::V0)[7]);
    }
    lemma_order_invariance(Family::V3, ts, p, q);
}

} // verus!
