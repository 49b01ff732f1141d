use vstd::prelude::*;

use vstd::string::StringExecFns;

verus! {

/// The decimal digit character for `d` (meaningful for `0 <= d <= 9`).
pub open spec fn digit_char(d: int) -> char {
    if d == 0 {
        '0'
    } else if d == 1 {
        '1'
    } else if d == 2 {
        '2'
    } else if d == 3 {
        '3'
    } else if d == 4 {
        '4'
    } else if d == 5 {
        '5'
    } else if d == 6 {
        '6'
    } else if d == 7 {
        '7'
    } else if d == 8 {
        '8'
    } else {
        '9'
    }
}

/// The decimal digits of `v`, most significant first, without leading zeros
/// (a lone zero for `v == 0`).
pub open spec fn dec_digits(v: int) -> Seq<char>
    decreases v,
{
    if v < 10 {
        seq![digit_char(v)]
    } else {
        dec_digits(v / 10) + seq![digit_char(v % 10)]
    }
}

/// The digit characters of `ds` read back to front.
pub open spec fn rev_digit_chars(ds: Seq<u32>) -> Seq<char> {
    Seq::new(ds.len(), |k: int| digit_char(ds[ds.len() - 1 - k] as int))
}

fn digit_str(d: u32) -> (r: &'static str)
    requires
        d < 10,
    ensures
        r@ == seq![digit_char(d as int)],
{
    if d == 0 {
        proof {
            reveal_strlit("0");
            assert("0"@ =~= seq![digit_char(0)]);
        }
        "0"
    } else if d == 1 {
        proof {
            reveal_strlit("1");
            assert("1"@ =~= seq![digit_char(1)]);
        }
        "1"
    } else if d == 2 {
        proof {
            reveal_strlit("2");
            assert("2"@ =~= seq![digit_char(2)]);
        }
        "2"
    } else if d == 3 {
        proof {
            reveal_strlit("3");
            assert("3"@ =~= seq![digit_char(3)]);
        }
        "3"
    } else if d == 4 {
        proof {
            reveal_strlit("4");
            assert("4"@ =~= seq![digit_char(4)]);
        }
        "4"
    } else if d == 5 {
        proof {
            reveal_strlit("5");
            assert("5"@ =~= seq![digit_char(5)]);
        }
        "5"
    } else if d == 6 {
        proof {
            reveal_strlit("6");
            assert("6"@ =~= seq![digit_char(6)]);
        }
        "6"
    } else if d == 7 {
        proof {
            reveal_strlit("7");
            assert("7"@ =~= seq![digit_char(7)]);
        }
        "7"
    } else if d == 8 {
        proof {
            reveal_strlit("8");
            assert("8"@ =~= seq![digit_char(8)]);
        }
        "8"
    } else {
        proof {
            reveal_strlit("9");
            assert("9"@ =~= seq![digit_char(9)]);
        }
        "9"
    }
}

/// Renders `v` in decimal.
pub fn u32_to_decimal(v: u32) -> (r: String)
    ensures
        r@ == dec_digits(v as int),
{
    // Collect the digits least significant first.
    let mut rest: u32 = v;
    let mut digits: Vec<u32> = Vec::new();
    proof {
        assert(rev_digit_chars(digits@) =~= Seq::<char>::empty());
        assert(dec_digits(v as int) =~= dec_digits(v as int) + rev_digit_chars(digits@));
    }
    while rest >= 10
        invariant
            dec_digits(v as int) == dec_digits(rest as int) + rev_digit_chars(digits@),
            forall|k: int| 0 <= k < digits@.len() ==> digits@[k] < 10,
        decreases rest,
    {
        let ghost pre = digits@;
        digits.push(rest % 10);
        proof {
            assert(rev_digit_chars(digits@) =~= seq![digit_char((rest % 10) as int)]
                + rev_digit_chars(pre));
            assert(dec_digits(rest as int) + rev_digit_chars(pre) =~= dec_digits(
                rest as int / 10,
            ) + (seq![digit_char((rest % 10) as int)] + rev_digit_chars(pre)));
        }
        rest = rest / 10;
    }
    let ghost pre = digits@;
    digits.push(rest);
    proof {
        assert(rev_digit_chars(digits@) =~= seq![digit_char(rest as int)] + rev_digit_chars(pre));
        assert(dec_digits(rest as int) + rev_digit_chars(pre) =~= rev_digit_chars(digits@));
    }
    // Emit the digits most significant first.
    let mut r = String::new();
    let mut i: usize = digits.len();
    while i > 0
        invariant
            i <= digits@.len(),
            forall|k: int| 0 <= k < digits@.len() ==> digits@[k] < 10,
            r@ == rev_digit_chars(digits@).take(digits@.len() - i),
        decreases i,
    {
        i -= 1;
        let ds = digit_str(digits[i]);
        r.append(ds);
        proof {
            assert(rev_digit_chars(digits@).take(digits@.len() - i) =~= rev_digit_chars(
                digits@,
            ).take(digits@.len() - (i + 1)) + seq![digit_char(digits@[i as int] as int)]);
        }
    }
    proof {
        assert(rev_digit_chars(digits@).take(digits@.len() as int) =~= rev_digit_chars(digits@));
    }
    r
}

} // verus!
