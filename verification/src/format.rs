//! Writing the metrics of a vector as text: every base metric, then every
//! optional metric that is defined, in canonical order.

use crate::metric::{
    base_count, base_metrics, metric_code, metric_codes, metric_count, value_code, value_codes,
    Family,
};
use crate::text::join;
use crate::values::valid;
use vstd::prelude::*;
use vstd::string::*;

verus! {

/// Whether the text names metric `m`: a base metric always, an optional one
/// where it is defined.
pub open spec fn shown(f: Family, values: Seq<u8>, m: int) -> bool {
    m < base_metrics(f) || values[m] != 0
}

/// The token of metric `m`: its code, a colon, the code of its value.
pub open spec fn token(f: Family, values: Seq<u8>, m: int) -> Seq<char> {
    metric_codes(f)[m] + seq![':'] + value_codes(f, m)[values[m] as int]
}

/// The tokens of the metrics before `upto` that the text names.
pub open spec fn tokens(f: Family, values: Seq<u8>, upto: nat) -> Seq<Seq<char>>
    decreases upto,
{
    if upto == 0 {
        Seq::empty()
    } else if shown(f, values, upto - 1) {
        tokens(f, values, (upto - 1) as nat).push(token(f, values, upto - 1))
    } else {
        tokens(f, values, (upto - 1) as nat)
    }
}

/// The text of the metrics: the tokens with slashes between them.
pub open spec fn metrics_text(f: Family, values: Seq<u8>) -> Seq<char> {
    join(tokens(f, values, metric_codes(f).len()), '/')
}

/// `text` with the text of the metrics behind it.
pub fn append_metrics(f: Family, values: &Vec<u8>, text: String) -> (r: String)
    requires
        valid(f, values@),
    ensures
        r@ == text@ + metrics_text(f, values@),
{
    let count: usize = metric_count(f);
    let base: usize = base_count(f);
    let mut out: String = text;
    let mut first: bool = true;
    let mut m: usize = 0;
    assert(out@ =~= text@ + join(tokens(f, values@, 0), '/'));
    while m < count
        invariant
            m <= count,
            count == metric_codes(f).len(),
            base == base_metrics(f),
            valid(f, values@),
            first == (tokens(f, values@, m as nat).len() == 0),
            out@ == text@ + join(tokens(f, values@, m as nat), '/'),
        decreases count - m,
    {
        let ghost before = tokens(f, values@, m as nat);
        if m < base || values[m] != 0 {
            let ghost old_out = out@;
            if !first {
                out.append("/");
            }
            out.append(metric_code(f, m));
            out.append(":");
            out.append(value_code(f, m, values[m]));
            proof {
                reveal_strlit("/");
                reveal_strlit(":");
                let tok = token(f, values@, m as int);
                let after = before.push(tok);
                assert(after.drop_last() =~= before);
                assert(after.last() == tok);
                assert("/"@ =~= seq!['/']);
                assert(":"@ =~= seq![':']);
                if first {
                    assert(join(after, '/') == tok);
                    assert(join(before, '/') =~= Seq::<char>::empty());
                    assert(out@ =~= text@ + join(after, '/'));
                } else {
                    assert(join(after, '/') == join(before, '/') + seq!['/'] + tok);
                    assert(out@ =~= text@ + join(after, '/'));
                }
            }
            first = false;
        }
        m = m + 1;
    }
    out
}

} // verus!
