//! The metrics of each family of the standard, in canonical order: their
//! codes, the codes of their values, and the weights of the values in
//! thousandths.

use vstd::prelude::*;

verus! {

/// A family of versions that share one set of metrics.
#[derive(Clone, Copy, Debug, PartialEq, Eq, Structural)]
pub enum Family {
    /// Version 2.0.
    V2,
    /// Versions 3.0 and 3.1.
    V3,
}

/// The metric codes of a family, in canonical order. The base metrics come
/// first.
pub open spec fn metric_codes(f: Family) -> Seq<Seq<char>> {
    match f {
        Family::V2 => seq![
            "AV"@, "AC"@, "Au"@, "C"@, "I"@, "A"@, "E"@, "RL"@,
            "RC"@, "CDP"@, "TD"@, "CR"@, "IR"@, "AR"@,
        ],
        Family::V3 => seq![
            "AV"@, "AC"@, "PR"@, "UI"@, "S"@, "C"@, "I"@, "A"@,
            "E"@, "RL"@, "RC"@, "CR"@, "IR"@, "AR"@, "MAV"@, "MAC"@,
            "MPR"@, "MUI"@, "MS"@, "MC"@, "MI"@, "MA"@,
        ],
    }
}

/// How many of a family's metrics are base metrics, which a vector must give.
pub open spec fn base_metrics(f: Family) -> nat {
    match f {
        Family::V2 => 6,
        Family::V3 => 8,
    }
}

/// The codes of the values of metric `m`. Where the metric is optional, the
/// first is the code of "not defined".
pub open spec fn value_codes(f: Family, m: int) -> Seq<Seq<char>> {
    match f {
        Family::V2 => {
            if m == 0 {
                seq!["L"@, "A"@, "N"@]
            } else if m == 1 {
                seq!["H"@, "M"@, "L"@]
            } else if m == 2 {
                seq!["M"@, "S"@, "N"@]
            } else if m == 3 {
                seq!["N"@, "P"@, "C"@]
            } else if m == 4 {
                seq!["N"@, "P"@, "C"@]
            } else if m == 5 {
                seq!["N"@, "P"@, "C"@]
            } else if m == 6 {
                seq!["ND"@, "U"@, "POC"@, "F"@, "H"@]
            } else if m == 7 {
                seq!["ND"@, "OF"@, "TF"@, "W"@, "U"@]
            } else if m == 8 {
                seq!["ND"@, "UC"@, "UR"@, "C"@]
            } else if m == 9 {
                seq!["ND"@, "N"@, "L"@, "LM"@, "MH"@, "H"@]
            } else if m == 10 {
                seq!["ND"@, "N"@, "L"@, "M"@, "H"@]
            } else if m == 11 {
                seq!["ND"@, "L"@, "M"@, "H"@]
            } else if m == 12 {
                seq!["ND"@, "L"@, "M"@, "H"@]
            } else {
                seq!["ND"@, "L"@, "M"@, "H"@]
            }
        },
        Family::V3 => {
            if m == 0 {
                seq!["N"@, "A"@, "L"@, "P"@]
            } else if m == 1 {
                seq!["L"@, "H"@]
            } else if m == 2 {
                seq!["N"@, "L"@, "H"@]
            } else if m == 3 {
                seq!["N"@, "R"@]
            } else if m == 4 {
                seq!["U"@, "C"@]
            } else if m == 5 {
                seq!["H"@, "L"@, "N"@]
            } else if m == 6 {
                seq!["H"@, "L"@, "N"@]
            } else if m == 7 {
                seq!["H"@, "L"@, "N"@]
            } else if m == 8 {
                seq!["X"@, "H"@, "F"@, "P"@, "U"@]
            } else if m == 9 {
                seq!["X"@, "U"@, "W"@, "T"@, "O"@]
            } else if m == 10 {
                seq!["X"@, "C"@, "R"@, "U"@]
            } else if m == 11 {
                seq!["X"@, "H"@, "M"@, "L"@]
            } else if m == 12 {
                seq!["X"@, "H"@, "M"@, "L"@]
            } else if m == 13 {
                seq!["X"@, "H"@, "M"@, "L"@]
            } else if m == 14 {
                seq!["X"@, "N"@, "A"@, "L"@, "P"@]
            } else if m == 15 {
                seq!["X"@, "L"@, "H"@]
            } else if m == 16 {
                seq!["X"@, "N"@, "L"@, "H"@]
            } else if m == 17 {
                seq!["X"@, "N"@, "R"@]
            } else if m == 18 {
                seq!["X"@, "U"@, "C"@]
            } else if m == 19 {
                seq!["X"@, "H"@, "L"@, "N"@]
            } else if m == 20 {
                seq!["X"@, "H"@, "L"@, "N"@]
            } else {
                seq!["X"@, "H"@, "L"@, "N"@]
            }
        },
    }
}

/// The weights of the values of metric `m`, in thousandths. A metric that is
/// not defined weighs one, so that it changes no product; collateral damage
/// potential, which is added, weighs zero then. Scope has no weight.
pub open spec fn weights(f: Family, m: int) -> Seq<int> {
    match f {
        Family::V2 => {
            if m == 0 {
                seq![395, 646, 1000]
            } else if m == 1 {
                seq![350, 610, 710]
            } else if m == 2 {
                seq![450, 560, 704]
            } else if m == 3 {
                seq![0, 275, 660]
            } else if m == 4 {
                seq![0, 275, 660]
            } else if m == 5 {
                seq![0, 275, 660]
            } else if m == 6 {
                seq![1000, 850, 900, 950, 1000]
            } else if m == 7 {
                seq![1000, 870, 900, 950, 1000]
            } else if m == 8 {
                seq![1000, 900, 950, 1000]
            } else if m == 9 {
                seq![0, 0, 100, 300, 400, 500]
            } else if m == 10 {
                seq![1000, 0, 250, 750, 1000]
            } else if m == 11 {
                seq![1000, 500, 1000, 1510]
            } else if m == 12 {
                seq![1000, 500, 1000, 1510]
            } else {
                seq![1000, 500, 1000, 1510]
            }
        },
        Family::V3 => {
            if m == 0 {
                seq![850, 620, 550, 200]
            } else if m == 1 {
                seq![770, 440]
            } else if m == 2 {
                seq![850, 620, 270]
            } else if m == 3 {
                seq![850, 620]
            } else if m == 4 {
                seq![0, 0]
            } else if m == 5 {
                seq![560, 220, 0]
            } else if m == 6 {
                seq![560, 220, 0]
            } else if m == 7 {
                seq![560, 220, 0]
            } else if m == 8 {
                seq![1000, 1000, 970, 940, 910]
            } else if m == 9 {
                seq![1000, 1000, 970, 960, 950]
            } else if m == 10 {
                seq![1000, 1000, 960, 920]
            } else if m == 11 {
                seq![1000, 1500, 1000, 500]
            } else if m == 12 {
                seq![1000, 1500, 1000, 500]
            } else if m == 13 {
                seq![1000, 1500, 1000, 500]
            } else if m == 14 {
                seq![1000, 850, 620, 550, 200]
            } else if m == 15 {
                seq![1000, 770, 440]
            } else if m == 16 {
                seq![1000, 850, 620, 270]
            } else if m == 17 {
                seq![1000, 850, 620]
            } else if m == 18 {
                seq![0, 0, 0]
            } else if m == 19 {
                seq![1000, 560, 220, 0]
            } else if m == 20 {
                seq![1000, 560, 220, 0]
            } else {
                seq![1000, 560, 220, 0]
            }
        },
    }
}

/// The number of metrics of a family.
pub fn metric_count(f: Family) -> (n: usize)
    ensures
        n == metric_codes(f).len(),
        base_metrics(f) <= n <= 22,
{
    match f {
        Family::V2 => 14,
        Family::V3 => 22,
    }
}

/// The number of base metrics of a family.
pub fn base_count(f: Family) -> (n: usize)
    ensures
        n == base_metrics(f),
        0 < n <= metric_codes(f).len(),
{
    match f {
        Family::V2 => 6,
        Family::V3 => 8,
    }
}

/// The code of metric `m`.
pub fn metric_code(f: Family, m: usize) -> (s: &'static str)
    requires
        m < metric_codes(f).len(),
    ensures
        s@ == metric_codes(f)[m as int],
{
    match f {
        Family::V2 => match m {
            0 => "AV",
            1 => "AC",
            2 => "Au",
            3 => "C",
            4 => "I",
            5 => "A",
            6 => "E",
            7 => "RL",
            8 => "RC",
            9 => "CDP",
            10 => "TD",
            11 => "CR",
            12 => "IR",
            _ => "AR",
        },
        Family::V3 => match m {
            0 => "AV",
            1 => "AC",
            2 => "PR",
            3 => "UI",
            4 => "S",
            5 => "C",
            6 => "I",
            7 => "A",
            8 => "E",
            9 => "RL",
            10 => "RC",
            11 => "CR",
            12 => "IR",
            13 => "AR",
            14 => "MAV",
            15 => "MAC",
            16 => "MPR",
            17 => "MUI",
            18 => "MS",
            19 => "MC",
            20 => "MI",
            _ => "MA",
        },
    }
}

/// The number of values of metric `m`.
pub fn value_count(f: Family, m: usize) -> (n: u8)
    requires
        m < metric_codes(f).len(),
    ensures
        n == value_codes(f, m as int).len(),
        n == weights(f, m as int).len(),
        2 <= n <= 6,
{
    match f {
        Family::V2 => match m {
            0 => 3,
            1 => 3,
            2 => 3,
            3 => 3,
            4 => 3,
            5 => 3,
            6 => 5,
            7 => 5,
            8 => 4,
            9 => 6,
            10 => 5,
            11 => 4,
            12 => 4,
            _ => 4,
        },
        Family::V3 => match m {
            0 => 4,
            1 => 2,
            2 => 3,
            3 => 2,
            4 => 2,
            5 => 3,
            6 => 3,
            7 => 3,
            8 => 5,
            9 => 5,
            10 => 4,
            11 => 4,
            12 => 4,
            13 => 4,
            14 => 5,
            15 => 3,
            16 => 4,
            17 => 3,
            18 => 3,
            19 => 4,
            20 => 4,
            _ => 4,
        },
    }
}

/// The code of value `v` of metric `m`.
pub fn value_code(f: Family, m: usize, v: u8) -> (s: &'static str)
    requires
        m < metric_codes(f).len(),
        v < value_codes(f, m as int).len(),
    ensures
        s@ == value_codes(f, m as int)[v as int],
{
    match f {
        Family::V2 => match m {
            0 => match v {
                0 => "L",
                1 => "A",
                _ => "N",
            },
            1 => match v {
                0 => "H",
                1 => "M",
                _ => "L",
            },
            2 => match v {
                0 => "M",
                1 => "S",
                _ => "N",
            },
            3 => match v {
                0 => "N",
                1 => "P",
                _ => "C",
            },
            4 => match v {
                0 => "N",
                1 => "P",
                _ => "C",
            },
            5 => match v {
                0 => "N",
                1 => "P",
                _ => "C",
            },
            6 => match v {
                0 => "ND",
                1 => "U",
                2 => "POC",
                3 => "F",
                _ => "H",
            },
            7 => match v {
                0 => "ND",
                1 => "OF",
                2 => "TF",
                3 => "W",
                _ => "U",
            },
            8 => match v {
                0 => "ND",
                1 => "UC",
                2 => "UR",
                _ => "C",
            },
            9 => match v {
                0 => "ND",
                1 => "N",
                2 => "L",
                3 => "LM",
                4 => "MH",
                _ => "H",
            },
            10 => match v {
                0 => "ND",
                1 => "N",
                2 => "L",
                3 => "M",
                _ => "H",
            },
            11 => match v {
                0 => "ND",
                1 => "L",
                2 => "M",
                _ => "H",
            },
            12 => match v {
                0 => "ND",
                1 => "L",
                2 => "M",
                _ => "H",
            },
            _ => match v {
                0 => "ND",
                1 => "L",
                2 => "M",
                _ => "H",
            },
        },
        Family::V3 => match m {
            0 => match v {
                0 => "N",
                1 => "A",
                2 => "L",
                _ => "P",
            },
            1 => match v {
                0 => "L",
                _ => "H",
            },
            2 => match v {
                0 => "N",
                1 => "L",
                _ => "H",
            },
            3 => match v {
                0 => "N",
                _ => "R",
            },
            4 => match v {
                0 => "U",
                _ => "C",
            },
            5 => match v {
                0 => "H",
                1 => "L",
                _ => "N",
            },
            6 => match v {
                0 => "H",
                1 => "L",
                _ => "N",
            },
            7 => match v {
                0 => "H",
                1 => "L",
                _ => "N",
            },
            8 => match v {
                0 => "X",
                1 => "H",
                2 => "F",
                3 => "P",
                _ => "U",
            },
            9 => match v {
                0 => "X",
                1 => "U",
                2 => "W",
                3 => "T",
                _ => "O",
            },
            10 => match v {
                0 => "X",
                1 => "C",
                2 => "R",
                _ => "U",
            },
            11 => match v {
                0 => "X",
                1 => "H",
                2 => "M",
                _ => "L",
            },
            12 => match v {
                0 => "X",
                1 => "H",
                2 => "M",
                _ => "L",
            },
            13 => match v {
                0 => "X",
                1 => "H",
                2 => "M",
                _ => "L",
            },
            14 => match v {
                0 => "X",
                1 => "N",
                2 => "A",
                3 => "L",
                _ => "P",
            },
            15 => match v {
                0 => "X",
                1 => "L",
                _ => "H",
            },
            16 => match v {
                0 => "X",
                1 => "N",
                2 => "L",
                _ => "H",
            },
            17 => match v {
                0 => "X",
                1 => "N",
                _ => "R",
            },
            18 => match v {
                0 => "X",
                1 => "U",
                _ => "C",
            },
            19 => match v {
                0 => "X",
                1 => "H",
                2 => "L",
                _ => "N",
            },
            20 => match v {
                0 => "X",
                1 => "H",
                2 => "L",
                _ => "N",
            },
            _ => match v {
                0 => "X",
                1 => "H",
                2 => "L",
                _ => "N",
            },
        },
    }
}

/// The weight of value `v` of metric `m`, in thousandths.
pub fn weight(f: Family, m: usize, v: u8) -> (w: u32)
    requires
        m < metric_codes(f).len(),
        v < weights(f, m as int).len(),
    ensures
        w == weights(f, m as int)[v as int],
        w <= 1510,
{
    match f {
        Family::V2 => match m {
            0 => match v {
                0 => 395,
                1 => 646,
                _ => 1000,
            },
            1 => match v {
                0 => 350,
                1 => 610,
                _ => 710,
            },
            2 => match v {
                0 => 450,
                1 => 560,
                _ => 704,
            },
            3 => match v {
                0 => 0,
                1 => 275,
                _ => 660,
            },
            4 => match v {
                0 => 0,
                1 => 275,
                _ => 660,
            },
            5 => match v {
                0 => 0,
                1 => 275,
                _ => 660,
            },
            6 => match v {
                0 => 1000,
                1 => 850,
                2 => 900,
                3 => 950,
                _ => 1000,
            },
            7 => match v {
                0 => 1000,
                1 => 870,
                2 => 900,
                3 => 950,
                _ => 1000,
            },
            8 => match v {
                0 => 1000,
                1 => 900,
                2 => 950,
                _ => 1000,
            },
            9 => match v {
                0 => 0,
                1 => 0,
                2 => 100,
                3 => 300,
                4 => 400,
                _ => 500,
            },
            10 => match v {
                0 => 1000,
                1 => 0,
                2 => 250,
                3 => 750,
                _ => 1000,
            },
            11 => match v {
                0 => 1000,
                1 => 500,
                2 => 1000,
                _ => 1510,
            },
            12 => match v {
                0 => 1000,
                1 => 500,
                2 => 1000,
                _ => 1510,
            },
            _ => match v {
                0 => 1000,
                1 => 500,
                2 => 1000,
                _ => 1510,
            },
        },
        Family::V3 => match m {
            0 => match v {
                0 => 850,
                1 => 620,
                2 => 550,
                _ => 200,
            },
            1 => match v {
                0 => 770,
                _ => 440,
            },
            2 => match v {
                0 => 850,
                1 => 620,
                _ => 270,
            },
            3 => match v {
                0 => 850,
                _ => 620,
            },
            4 => match v {
                0 => 0,
                _ => 0,
            },
            5 => match v {
                0 => 560,
                1 => 220,
                _ => 0,
            },
            6 => match v {
                0 => 560,
                1 => 220,
                _ => 0,
            },
            7 => match v {
                0 => 560,
                1 => 220,
                _ => 0,
            },
            8 => match v {
                0 => 1000,
                1 => 1000,
                2 => 970,
                3 => 940,
                _ => 910,
            },
            9 => match v {
                0 => 1000,
                1 => 1000,
                2 => 970,
                3 => 960,
                _ => 950,
            },
            10 => match v {
                0 => 1000,
                1 => 1000,
                2 => 960,
                _ => 920,
            },
            11 => match v {
                0 => 1000,
                1 => 1500,
                2 => 1000,
                _ => 500,
            },
            12 => match v {
                0 => 1000,
                1 => 1500,
                2 => 1000,
                _ => 500,
            },
            13 => match v {
                0 => 1000,
                1 => 1500,
                2 => 1000,
                _ => 500,
            },
            14 => match v {
                0 => 1000,
                1 => 850,
                2 => 620,
                3 => 550,
                _ => 200,
            },
            15 => match v {
                0 => 1000,
                1 => 770,
                _ => 440,
            },
            16 => match v {
                0 => 1000,
                1 => 850,
                2 => 620,
                _ => 270,
            },
            17 => match v {
                0 => 1000,
                1 => 850,
                _ => 620,
            },
            18 => match v {
                0 => 0,
                1 => 0,
                _ => 0,
            },
            19 => match v {
                0 => 1000,
                1 => 560,
                2 => 220,
                _ => 0,
            },
            20 => match v {
                0 => 1000,
                1 => 560,
                2 => 220,
                _ => 0,
            },
            _ => match v {
                0 => 1000,
                1 => 560,
                2 => 220,
                _ => 0,
            },
        },
    }
}

} // verus!
