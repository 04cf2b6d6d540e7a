//! Sort specifications, the human-readable size formatter, and the
//! indentation prefix of a rendered line.

use vstd::prelude::*;

verus! {

/// The sort key and direction applied to every sibling group.
#[derive(Clone, Copy, PartialEq, Eq, Structural, Debug)]
pub enum Sort {
    NameASC,
    NameDEC,
    SizeASC,
    SizeDEC,
    DateASC,
    DateDEC,
}

/// The character for one decimal digit.
pub open spec fn digit_char(d: int) -> char {
    if d == 0 {
        '0'
    } else if d == 1 {
        '1'
    } else if d == 2 {
        '2'
    } else if d == 3 {
        '3'
    } else if d == 4 {
        '4'
    } else if d == 5 {
        '5'
    } else if d == 6 {
        '6'
    } else if d == 7 {
        '7'
    } else if d == 8 {
        '8'
    } else {
        '9'
    }
}

/// The decimal digit string of a nonnegative integer, most significant
/// digit first, without sign or padding.
pub open spec fn spec_decimal(n: int) -> Seq<char>
    decreases n,
{
    if n < 10 {
        seq![digit_char(n)]
    } else {
        spec_decimal(n / 10).push(digit_char(n % 10))
    }
}

/// Powers of 1024.
pub open spec fn pow1024(u: int) -> int
    decreases u,
{
    if u <= 0 {
        1
    } else {
        1024 * pow1024(u - 1)
    }
}

/// The index of the display unit: how often the value can be divided by
/// 1024 before it drops below 1024, capped at the last unit.
pub open spec fn unit_index(n: int, u: int) -> int
    decreases 5 - u,
{
    if n < 1024 || u >= 5 {
        u
    } else {
        unit_index(n / 1024, u + 1)
    }
}

/// The unit suffix for a unit index.
pub open spec fn unit_name(u: int) -> Seq<char> {
    if u == 0 {
        seq!['B']
    } else if u == 1 {
        seq!['K', 'B']
    } else if u == 2 {
        seq!['M', 'B']
    } else if u == 3 {
        seq!['G', 'B']
    } else if u == 4 {
        seq!['T', 'B']
    } else {
        seq!['P', 'B']
    }
}

/// The human-readable rendering of a byte count: the value scaled into the
/// largest fitting unit of {B, KB, MB, GB, TB, PB}, with exactly two
/// fractional digits rounded half-up, a space, and the unit suffix.
pub open spec fn spec_format_size(n: u64) -> Seq<char> {
    let u = unit_index(n as int, 0);
    let d = pow1024(u);
    let q = n as int / d;
    let h = ((n as int % d) * 100 + d / 2) / d;
    let whole = if h == 100 {
        q + 1
    } else {
        q
    };
    let frac = if h == 100 {
        0int
    } else {
        h
    };
    spec_decimal(whole) + seq!['.'] + seq![digit_char(frac / 10), digit_char(frac % 10)]
        + seq![' '] + unit_name(u)
}

/// The decimal digit string of a value, most significant digit first.
fn u64_to_string(n: u64) -> (r: String)
    ensures
        r@ == spec_decimal(n as int),
    decreases n,
{
    if n < 10 {
        let mut s = String::new();
        s.append(digit_str(n));
        proof {
            assert(s@ =~= spec_decimal(n as int));
        }
        s
    } else {
        let mut s = u64_to_string(n / 10);
        s.append(digit_str(n % 10));
        proof {
            assert(s@ =~= spec_decimal(n as int));
        }
        s
    }
}

/// The character of one decimal digit, as a borrowed string.
fn digit_str(d: u64) -> (r: &'static str)
    requires
        d < 10,
    ensures
        r@ == seq![digit_char(d as int)],
{
    proof {
        reveal_strlit("0");
        reveal_strlit("1");
        reveal_strlit("2");
        reveal_strlit("3");
        reveal_strlit("4");
        reveal_strlit("5");
        reveal_strlit("6");
        reveal_strlit("7");
        reveal_strlit("8");
        reveal_strlit("9");
    }
    if d == 0 {
        proof {
            assert("0"@ =~= seq![digit_char(0)]);
        }
        "0"
    } else if d == 1 {
        proof {
            assert("1"@ =~= seq![digit_char(1)]);
        }
        "1"
    } else if d == 2 {
        proof {
            assert("2"@ =~= seq![digit_char(2)]);
        }
        "2"
    } else if d == 3 {
        proof {
            assert("3"@ =~= seq![digit_char(3)]);
        }
        "3"
    } else if d == 4 {
        proof {
            assert("4"@ =~= seq![digit_char(4)]);
        }
        "4"
    } else if d == 5 {
        proof {
            assert("5"@ =~= seq![digit_char(5)]);
        }
        "5"
    } else if d == 6 {
        proof {
            assert("6"@ =~= seq![digit_char(6)]);
        }
        "6"
    } else if d == 7 {
        proof {
            assert("7"@ =~= seq![digit_char(7)]);
        }
        "7"
    } else if d == 8 {
        proof {
            assert("8"@ =~= seq![digit_char(8)]);
        }
        "8"
    } else {
        proof {
            assert("9"@ =~= seq![digit_char(9)]);
        }
        "9"
    }
}

/// The unit suffix for a unit index, as a borrowed string.
fn unit_str(u: u8) -> (r: &'static str)
    requires
        u <= 5,
    ensures
        r@ == unit_name(u as int),
{
    proof {
        reveal_strlit("B");
        reveal_strlit("KB");
        reveal_strlit("MB");
        reveal_strlit("GB");
        reveal_strlit("TB");
        reveal_strlit("PB");
    }
    if u == 0 {
        proof {
            assert("B"@ =~= unit_name(0));
        }
        "B"
    } else if u == 1 {
        proof {
            assert("KB"@ =~= unit_name(1));
        }
        "KB"
    } else if u == 2 {
        proof {
            assert("MB"@ =~= unit_name(2));
        }
        "MB"
    } else if u == 3 {
        proof {
            assert("GB"@ =~= unit_name(3));
        }
        "GB"
    } else if u == 4 {
        proof {
            assert("TB"@ =~= unit_name(4));
        }
        "TB"
    } else {
        proof {
            assert("PB"@ =~= unit_name(5));
        }
        "PB"
    }
}

/// Formats a byte count for display, as `spec_format_size` states.
#[verifier::loop_isolation(false)]
pub fn parse_file_size(file_size: u64) -> (r: String)
    ensures
        r@ == spec_format_size(file_size),
{
    let mut v: u64 = file_size;
    let mut u: u8 = 0;
    while v >= 1024 && u < 5
        invariant
            u <= 5,
            unit_index(file_size as int, 0) == unit_index(v as int, u as int),
        decreases 5 - u,
    {
        v = v / 1024;
        u = u + 1;
    }
    assert(u as int == unit_index(file_size as int, 0));
    let d: u64 = if u == 0 {
        1
    } else if u == 1 {
        1024
    } else if u == 2 {
        1048576
    } else if u == 3 {
        1073741824
    } else if u == 4 {
        1099511627776
    } else {
        1125899906842624
    };
    proof {
        reveal_with_fuel(pow1024, 7);
        assert(d as int == pow1024(u as int));
    }
    let q: u64 = file_size / d;
    let rem: u64 = file_size % d;
    let h: u64 = (rem * 100 + d / 2) / d;
    assert(h <= 100) by {
        assert(rem as int * 100 + d as int / 2 < 101 * (d as int)) by (nonlinear_arith)
            requires
                (rem as int) < (d as int),
                (d as int) >= 1,
        ;
        assert((rem as int * 100 + d as int / 2) / (d as int) < 101) by (nonlinear_arith)
            requires
                rem as int * 100 + d as int / 2 < 101 * (d as int),
                (d as int) >= 1,
        ;
    };
    let whole: u64 = if h == 100 {
        proof {
            assert(d >= 1024) by {
                if u == 0 {
                    assert(rem == 0);
                }
            };
            vstd::arithmetic::div_mod::lemma_fundamental_div_mod(file_size as int, d as int);
            assert(rem >= 1) by {
                if rem == 0 {
                    assert(d / 2 < d);
                    assert((d / 2) / d == 0);
                    assert(h == (d / 2) / d);
                }
            };
            assert((q as int) <= (d as int) * (q as int)) by (nonlinear_arith)
                requires
                    (d as int) >= 1,
                    (q as int) >= 0,
            ;
            assert(q < u64::MAX);
        }
        q + 1
    } else {
        q
    };
    let frac: u64 = if h == 100 {
        0
    } else {
        h
    };
    let mut out = u64_to_string(whole);
    out.append(".");
    out.append(digit_str(frac / 10));
    out.append(digit_str(frac % 10));
    out.append(" ");
    out.append(unit_str(u));
    proof {
        reveal_strlit(".");
        reveal_strlit(" ");
        assert("."@ =~= seq!['.']);
        assert(" "@ =~= seq![' ']);
        assert(out@ =~= spec_format_size(file_size));
    }
    out
}


/// The indentation prefix of a rendered line: nothing at the first level,
/// otherwise one space per level beyond the first, closed by a branch
/// glyph.
pub open spec fn spec_append_level(level: int) -> Seq<char> {
    if level > 1 {
        Seq::new((level - 1) as nat, |i: int| ' ') + seq!['\u{2514}']
    } else {
        Seq::empty()
    }
}

/// Builds the indentation prefix for an entry's level.
#[verifier::loop_isolation(false)]
pub fn append_level(level: &u8) -> (r: String)
    ensures
        r@ == spec_append_level(*level as int),
{
    proof {
        reveal_strlit(" ");
        reveal_strlit("\u{2514}");
    }
    if *level > 1 {
        let mut s = String::new();
        let mut i: u8 = 1;
        while i < *level
            invariant
                1 <= i <= *level,
                s@ =~= Seq::new((i - 1) as nat, |j: int| ' '),
            decreases *level - i,
        {
            s.append(" ");
            i = i + 1;
            proof {
                assert(s@ =~= Seq::new((i - 1) as nat, |j: int| ' '));
            }
        }
        s.append("\u{2514}");
        proof {
            assert("\u{2514}"@ =~= seq!['\u{2514}']);
            assert(s@ =~= spec_append_level(*level as int));
        }
        s
    } else {
        String::new()
    }
}


/// The skip decision for one entry: it is left out exactly when the
/// platform's hidden predicate marked it and hidden entries were not
/// requested.
pub fn hidden_check(hidden_attr: bool, show_hidden: bool) -> (r: bool)
    ensures
        r == (hidden_attr && !show_hidden),
{
    hidden_attr && !show_hidden
}

} // verus!
