//! What the parser needs of the codes: none holds a slash or a colon, and
//! within one table no code stands twice.

use crate::metric::{metric_codes, value_codes, Family};
use crate::text::{first_index, lemma_first_index};
use vstd::prelude::*;

verus! {

/// The codes, character by character.
proof fn lemma_literals()
    ensures
        "AV"@ == seq!['A', 'V'],
        "L"@ == seq!['L'],
        "A"@ == seq!['A'],
        "N"@ == seq!['N'],
        "AC"@ == seq!['A', 'C'],
        "H"@ == seq!['H'],
        "M"@ == seq!['M'],
        "Au"@ == seq!['A', 'u'],
        "S"@ == seq!['S'],
        "C"@ == seq!['C'],
        "P"@ == seq!['P'],
        "I"@ == seq!['I'],
        "E"@ == seq!['E'],
        "ND"@ == seq!['N', 'D'],
        "U"@ == seq!['U'],
        "POC"@ == seq!['P', 'O', 'C'],
        "F"@ == seq!['F'],
        "RL"@ == seq!['R', 'L'],
        "OF"@ == seq!['O', 'F'],
        "TF"@ == seq!['T', 'F'],
        "W"@ == seq!['W'],
        "RC"@ == seq!['R', 'C'],
        "UC"@ == seq!['U', 'C'],
        "UR"@ == seq!['U', 'R'],
        "CDP"@ == seq!['C', 'D', 'P'],
        "LM"@ == seq!['L', 'M'],
        "MH"@ == seq!['M', 'H'],
        "TD"@ == seq!['T', 'D'],
        "CR"@ == seq!['C', 'R'],
        "IR"@ == seq!['I', 'R'],
        "AR"@ == seq!['A', 'R'],
        "PR"@ == seq!['P', 'R'],
        "UI"@ == seq!['U', 'I'],
        "R"@ == seq!['R'],
        "X"@ == seq!['X'],
        "T"@ == seq!['T'],
        "O"@ == seq!['O'],
        "MAV"@ == seq!['M', 'A', 'V'],
        "MAC"@ == seq!['M', 'A', 'C'],
        "MPR"@ == seq!['M', 'P', 'R'],
        "MUI"@ == seq!['M', 'U', 'I'],
        "MS"@ == seq!['M', 'S'],
        "MC"@ == seq!['M', 'C'],
        "MI"@ == seq!['M', 'I'],
        "MA"@ == seq!['M', 'A'],
{
    reveal_strlit("AV");
    reveal_strlit("L");
    reveal_strlit("A");
    reveal_strlit("N");
    reveal_strlit("AC");
    reveal_strlit("H");
    reveal_strlit("M");
    reveal_strlit("Au");
    reveal_strlit("S");
    reveal_strlit("C");
    reveal_strlit("P");
    reveal_strlit("I");
    reveal_strlit("E");
    reveal_strlit("ND");
    reveal_strlit("U");
    reveal_strlit("POC");
    reveal_strlit("F");
    reveal_strlit("RL");
    reveal_strlit("OF");
    reveal_strlit("TF");
    reveal_strlit("W");
    reveal_strlit("RC");
    reveal_strlit("UC");
    reveal_strlit("UR");
    reveal_strlit("CDP");
    reveal_strlit("LM");
    reveal_strlit("MH");
    reveal_strlit("TD");
    reveal_strlit("CR");
    reveal_strlit("IR");
    reveal_strlit("AR");
    reveal_strlit("PR");
    reveal_strlit("UI");
    reveal_strlit("R");
    reveal_strlit("X");
    reveal_strlit("T");
    reveal_strlit("O");
    reveal_strlit("MAV");
    reveal_strlit("MAC");
    reveal_strlit("MPR");
    reveal_strlit("MUI");
    reveal_strlit("MS");
    reveal_strlit("MC");
    reveal_strlit("MI");
    reveal_strlit("MA");
    assert("AV"@ =~= seq!['A', 'V']);
    assert("L"@ =~= seq!['L']);
    assert("A"@ =~= seq!['A']);
    assert("N"@ =~= seq!['N']);
    assert("AC"@ =~= seq!['A', 'C']);
    assert("H"@ =~= seq!['H']);
    assert("M"@ =~= seq!['M']);
    assert("Au"@ =~= seq!['A', 'u']);
    assert("S"@ =~= seq!['S']);
    assert("C"@ =~= seq!['C']);
    assert("P"@ =~= seq!['P']);
    assert("I"@ =~= seq!['I']);
    assert("E"@ =~= seq!['E']);
    assert("ND"@ =~= seq!['N', 'D']);
    assert("U"@ =~= seq!['U']);
    assert("POC"@ =~= seq!['P', 'O', 'C']);
    assert("F"@ =~= seq!['F']);
    assert("RL"@ =~= seq!['R', 'L']);
    assert("OF"@ =~= seq!['O', 'F']);
    assert("TF"@ =~= seq!['T', 'F']);
    assert("W"@ =~= seq!['W']);
    assert("RC"@ =~= seq!['R', 'C']);
    assert("UC"@ =~= seq!['U', 'C']);
    assert("UR"@ =~= seq!['U', 'R']);
    assert("CDP"@ =~= seq!['C', 'D', 'P']);
    assert("LM"@ =~= seq!['L', 'M']);
    assert("MH"@ =~= seq!['M', 'H']);
    assert("TD"@ =~= seq!['T', 'D']);
    assert("CR"@ =~= seq!['C', 'R']);
    assert("IR"@ =~= seq!['I', 'R']);
    assert("AR"@ =~= seq!['A', 'R']);
    assert("PR"@ =~= seq!['P', 'R']);
    assert("UI"@ =~= seq!['U', 'I']);
    assert("R"@ =~= seq!['R']);
    assert("X"@ =~= seq!['X']);
    assert("T"@ =~= seq!['T']);
    assert("O"@ =~= seq!['O']);
    assert("MAV"@ =~= seq!['M', 'A', 'V']);
    assert("MAC"@ =~= seq!['M', 'A', 'C']);
    assert("MPR"@ =~= seq!['M', 'P', 'R']);
    assert("MUI"@ =~= seq!['M', 'U', 'I']);
    assert("MS"@ =~= seq!['M', 'S']);
    assert("MC"@ =~= seq!['M', 'C']);
    assert("MI"@ =~= seq!['M', 'I']);
    assert("MA"@ =~= seq!['M', 'A']);
}

/// Whether a text holds neither a slash nor a colon.
pub open spec fn is_code(s: Seq<char>) -> bool {
    forall|i: int| 0 <= i < s.len() ==> s[i] != '/' && s[i] != ':'
}

/// A metric code holds neither a slash nor a colon, and it is found in the
/// table of its family where it stands.
pub proof fn lemma_metric_code(f: Family, m: int)
    requires
        0 <= m < metric_codes(f).len(),
    ensures
        is_code(metric_codes(f)[m]),
        0 < metric_codes(f)[m].len() <= 3,
        first_index(metric_codes(f), metric_codes(f)[m]) == m,
{
    lemma_literals();
    let codes = metric_codes(f);
    lemma_small(m);
    assert(is_code(codes[m]));
    assert forall|i: int| 0 <= i < m implies codes[i] != codes[m] by {
        lemma_small(i);
        lemma_small(m);
        lemma_differ(codes[i], codes[m]);
    }
    lemma_first_index(codes, codes[m], m);
}

/// A position in a table is one of a few numbers.
proof fn lemma_small(i: int)
    requires
        0 <= i < 22,
    ensures
        i == 0 || i == 1 || i == 2 || i == 3 || i == 4 || i == 5 || i == 6 || i == 7 || i == 8
            || i == 9 || i == 10 || i == 11 || i == 12 || i == 13 || i == 14 || i == 15 || i
            == 16 || i == 17 || i == 18 || i == 19 || i == 20 || i == 21,
{
}

/// Two texts of at most three characters that differ in length or in a
/// character are not the same.
proof fn lemma_differ(a: Seq<char>, b: Seq<char>)
    requires
        a.len() <= 3,
        b.len() <= 3,
        a.len() != b.len() || a[0] != b[0] || a[1] != b[1] || a[2] != b[2],
    ensures
        a != b,
{
}

/// A value code holds neither a slash nor a colon, and it is found in the
/// table of its metric where it stands.
pub proof fn lemma_value_code(f: Family, m: int, k: int)
    requires
        0 <= m < metric_codes(f).len(),
        0 <= k < value_codes(f, m).len(),
    ensures
        is_code(value_codes(f, m)[k]),
        first_index(value_codes(f, m), value_codes(f, m)[k]) == k,
{
    lemma_literals();
    let codes = value_codes(f, m);
    assert(is_code(codes[k]));
    lemma_small(m);
    assert forall|i: int| 0 <= i < k implies codes[i] != codes[k] by {
        lemma_small(i);
        lemma_small(k);
        lemma_differ(codes[i], codes[k]);
    }
    lemma_first_index(codes, codes[k], k);
}

} // verus!
