//! The canonical text of a vector, read again, gives the vector.

use crate::codes::{lemma_metric_code, lemma_value_code};
use crate::format::{metrics_text, shown, token, tokens};
use crate::metric::{base_metrics, metric_codes, value_codes, Family};
use crate::parse::{empty_slots, fill, finish, metrics_of, step, Fault, Slots};
use crate::text::{lemma_first_index, lemma_join_begins, lemma_split_join};
use crate::values::valid;
use vstd::prelude::*;

verus! {

/// The slots after the tokens of the metrics before `upto` were read.
pub open spec fn filled(f: Family, values: Seq<u8>, upto: int) -> Slots {
    Seq::new(
        metric_codes(f).len(),
        |m: int|
            if m < upto && shown(f, values, m) {
                Some(values[m])
            } else {
                None
            },
    )
}

/// Reading one more token at the end is one more step after the others.
pub proof fn lemma_fill_push(f: Family, ts: Seq<Seq<char>>, t: Seq<char>, slots: Slots)
    ensures
        fill(f, ts.push(t), slots) == match fill(f, ts, slots) {
            Err(e) => Err(e),
            Ok(s) => step(f, s, t),
        },
    decreases ts.len(),
{
    let all = ts.push(t);
    if ts.len() == 0 {
        assert(all[0] == t);
        assert(all.drop_first().len() == 0);
        assert(fill(f, ts, slots) == Ok::<Slots, Fault>(slots));
        match step(f, slots, t) {
            Ok(next) => {
                assert(fill(f, all.drop_first(), next) == Ok::<Slots, Fault>(next));
            },
            Err(_) => {},
        }
    } else {
        assert(all[0] == ts[0]);
        assert(all.drop_first() =~= ts.drop_first().push(t));
        match step(f, slots, ts[0]) {
            Ok(next) => {
                lemma_fill_push(f, ts.drop_first(), t, next);
                assert(fill(f, all, slots) == fill(f, all.drop_first(), next));
                assert(fill(f, ts, slots) == fill(f, ts.drop_first(), next));
            },
            Err(_) => {},
        }
    }
}

/// The token of a metric holds no slash, and read into slots that have
/// nothing for the metric it puts the metric's value there.
pub proof fn lemma_token(f: Family, values: Seq<u8>, m: int, slots: Slots)
    requires
        valid(f, values),
        0 <= m < metric_codes(f).len(),
        slots.len() == metric_codes(f).len(),
        slots[m].is_none(),
    ensures
        forall|i: int| 0 <= i < token(f, values, m).len() ==> token(f, values, m)[i] != '/',
        step(f, slots, token(f, values, m)) == Ok::<Slots, Fault>(
            slots.update(m, Some(values[m])),
        ),
{
    let code = metric_codes(f)[m];
    let value = value_codes(f, m)[values[m] as int];
    let tok = token(f, values, m);
    lemma_metric_code(f, m);
    lemma_value_code(f, m, values[m] as int);
    assert forall|i: int| 0 <= i < tok.len() implies tok[i] != '/' by {
        if i < code.len() {
            assert(tok[i] == code[i]);
        } else if i > code.len() {
            assert(tok[i] == value[i - code.len() - 1]);
        }
    }
    assert forall|i: int| 0 <= i < code.len() implies tok[i] != ':' by {
        assert(tok[i] == code[i]);
    }
    assert(tok[code.len() as int] == ':');
    lemma_first_index(tok, ':', code.len() as int);
    assert(tok.subrange(0, code.len() as int) =~= code);
    assert(tok.subrange(code.len() as int + 1, tok.len() as int) =~= value);
}

/// The tokens of a vector hold no slash, there is one for each base metric,
/// and read from the left they fill the slots of the metrics they name.
pub proof fn lemma_tokens(f: Family, values: Seq<u8>, upto: nat)
    requires
        valid(f, values),
        upto <= metric_codes(f).len(),
    ensures
        forall|k: int, i: int|
            0 <= k < tokens(f, values, upto).len() && 0 <= i < tokens(f, values, upto)[k].len()
                ==> tokens(f, values, upto)[k][i] != '/',
        upto > 0 ==> tokens(f, values, upto).len() > 0 && tokens(f, values, upto)[0] == token(
            f,
            values,
            0,
        ),
        fill(f, tokens(f, values, upto), empty_slots(f)) == Ok::<Slots, Fault>(
            filled(f, values, upto as int),
        ),
    decreases upto,
{
    if upto == 0 {
        assert(filled(f, values, 0) =~= empty_slots(f));
    } else {
        let before = tokens(f, values, (upto - 1) as nat);
        lemma_tokens(f, values, (upto - 1) as nat);
        let slots = filled(f, values, upto - 1);
        if shown(f, values, upto - 1) {
            let tok = token(f, values, upto - 1);
            lemma_fill_push(f, before, tok, empty_slots(f));
            lemma_token(f, values, upto - 1, slots);
            assert(slots.update(upto - 1, Some(values[upto - 1])) =~= filled(
                f,
                values,
                upto as int,
            ));
            let after = before.push(tok);
            assert forall|k: int, i: int|
                0 <= k < after.len() && 0 <= i < after[k].len() implies after[k][i] != '/' by {
                if k < before.len() {
                    assert(after[k] == before[k]);
                }
            }
            if upto > 1 {
                assert(after[0] == before[0]);
            }
        } else {
            assert(slots =~= filled(f, values, upto as int));
        }
    }
}

/// The text of the metrics of a vector, read again, gives the values of the
/// vector.
pub proof fn lemma_metrics_round_trip(f: Family, values: Seq<u8>)
    requires
        valid(f, values),
    ensures
        metrics_of(f, metrics_text(f, values)) == Ok::<Seq<u8>, Fault>(values),
        metric_codes(f)[0].is_prefix_of(metrics_text(f, values)),
{
    let count = metric_codes(f).len();
    let base = base_metrics(f) as int;
    let ts = tokens(f, values, count);
    lemma_tokens(f, values, count);
    lemma_split_join(ts, '/');
    let slots = filled(f, values, count as int);
    assert forall|i: int| 0 <= i < base implies slots.subrange(0, base)[i] != None::<u8> by {
        assert(shown(f, values, i));
    }
    lemma_first_index(slots.subrange(0, base), None, base);
    assert(finish(f, slots)->Ok_0 =~= values);
    lemma_join_begins(ts, '/');
    let first = token(f, values, 0);
    let code = metric_codes(f)[0];
    assert(first.subrange(0, code.len() as int) =~= code);
    assert(metrics_text(f, values).subrange(0, code.len() as int) =~= first.subrange(
        0,
        code.len() as int,
    ));
}

} // verus!
