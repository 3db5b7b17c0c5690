//! Where each day's puzzle input lives.
use vstd::prelude::*;
use vstd::string::StringExecFns;

verus! {

pub open spec fn digit_char(d: nat) -> char {
    ('0' as nat + d) as char
}

/// The decimal digits of `n`, without leading zeros.
pub open spec fn decimal(n: nat) -> Seq<char>
    decreases n,
{
    if n < 10 {
        seq![digit_char(n)]
    } else {
        decimal(n / 10).push(digit_char(n % 10))
    }
}

/// The path of the input of day `day`: `inputs/day<day>`.
pub open spec fn input_path(day: nat) -> Seq<char> {
    seq!['i', 'n', 'p', 'u', 't', 's', '/', 'd', 'a', 'y'] + decimal(day)
}

fn digit_str(d: u8) -> (r: &'static str)
    requires
        d < 10,
    ensures
        r@ == seq![digit_char(d as nat)],
{
    proof {
        reveal_strlit("0");
        reveal_strlit("1");
        reveal_strlit("2");
        reveal_strlit("3");
        reveal_strlit("4");
        reveal_strlit("5");
        reveal_strlit("6");
        reveal_strlit("7");
        reveal_strlit("8");
        reveal_strlit("9");
    }
    match d {
        0 => "0",
        1 => "1",
        2 => "2",
        3 => "3",
        4 => "4",
        5 => "5",
        6 => "6",
        7 => "7",
        8 => "8",
        _ => "9",
    }
}

/// The path of the input file of day `day`.
pub fn get_input_file(day: u8) -> (r: String)
    ensures
        r@ == input_path(day as nat),
{
    proof {
        reveal_strlit("inputs/day");
    }
    let mut s = String::from_str("inputs/day");
    let ghost base = s@;
    assert(base =~= seq!['i', 'n', 'p', 'u', 't', 's', '/', 'd', 'a', 'y']);
    if day >= 100 {
        s.append(digit_str(day / 100));
    }
    if day >= 10 {
        s.append(digit_str((day / 10) % 10));
    }
    s.append(digit_str(day % 10));
    proof {
        let n = day as nat;
        if n >= 100 {
            assert(decimal(n / 100) == seq![digit_char(n / 100)]);
            assert(decimal(n / 10) == decimal(n / 100).push(digit_char((n / 10) % 10)));
            assert((n / 10) / 10 == n / 100);
        } else if n >= 10 {
            assert(decimal(n / 10) == seq![digit_char(n / 10)]);
            assert((n / 10) % 10 == n / 10);
        }
        assert(s@ =~= input_path(n));
    }
    s
}

} // verus!
