//! Building human-readable messages: appending text and decimal numbers to a `String`.
use vstd::prelude::*;

verus! {

/// The decimal digit for `d`, which is below ten.
pub open spec fn digit_char(d: nat) -> char {
    if d == 0 {
        '0'
    } else if d == 1 {
        '1'
    } else if d == 2 {
        '2'
    } else if d == 3 {
        '3'
    } else if d == 4 {
        '4'
    } else if d == 5 {
        '5'
    } else if d == 6 {
        '6'
    } else if d == 7 {
        '7'
    } else if d == 8 {
        '8'
    } else {
        '9'
    }
}

/// The decimal representation of `n`: no sign, no leading zeros, `"0"` for zero.
pub open spec fn decimal(n: nat) -> Seq<char>
    decreases n,
{
    if n < 10 {
        seq![digit_char(n)]
    } else {
        decimal(n / 10).push(digit_char(n % 10))
    }
}

/// The texts of `names` separated by `sep`.
pub open spec fn joined(names: Seq<String>, sep: Seq<char>) -> Seq<char>
    decreases names.len(),
{
    if names.len() == 0 {
        Seq::empty()
    } else if names.len() == 1 {
        names[0]@
    } else {
        joined(names.drop_last(), sep) + sep + names.last()@
    }
}

/// Appends `t` to `s`.
pub(crate) fn push_text(s: &mut String, t: &str)
    ensures
        final(s)@ == old(s)@ + t@,
{
    s.append(t);
}

fn digit(d: u64) -> (t: &'static str)
    requires
        d < 10,
    ensures
        t@ == seq![digit_char(d as nat)],
{
    match d {
        0 => {
            proof {
                reveal_strlit("0");
            }
            "0"
        },
        1 => {
            proof {
                reveal_strlit("1");
            }
            "1"
        },
        2 => {
            proof {
                reveal_strlit("2");
            }
            "2"
        },
        3 => {
            proof {
                reveal_strlit("3");
            }
            "3"
        },
        4 => {
            proof {
                reveal_strlit("4");
            }
            "4"
        },
        5 => {
            proof {
                reveal_strlit("5");
            }
            "5"
        },
        6 => {
            proof {
                reveal_strlit("6");
            }
            "6"
        },
        7 => {
            proof {
                reveal_strlit("7");
            }
            "7"
        },
        8 => {
            proof {
                reveal_strlit("8");
            }
            "8"
        },
        _ => {
            proof {
                reveal_strlit("9");
            }
            "9"
        },
    }
}

/// Appends the decimal representation of `n` to `s`.
pub(crate) fn push_decimal(s: &mut String, n: u64)
    ensures
        final(s)@ == old(s)@ + decimal(n as nat),
    decreases n,
{
    let ghost start = s@;
    if n >= 10 {
        push_decimal(s, n / 10);
    }
    let t = digit(n % 10);
    let ghost mid = s@;
    push_text(s, t);
    proof {
        let c = digit_char((n % 10) as nat);
        assert(s@ =~= mid.push(c));
        if n >= 10 {
            assert(start + decimal(n as nat) =~= (start + decimal((n / 10) as nat)).push(c));
        } else {
            assert(start + decimal(n as nat) =~= start.push(c));
        }
    }
}

/// Appends the texts of `names`, separated by `sep`.
pub(crate) fn push_joined(s: &mut String, names: &Vec<String>, sep: &str)
    ensures
        final(s)@ == old(s)@ + joined(names@, sep@),
{
    let ghost start = s@;
    let mut i: usize = 0;
    while i < names.len()
        invariant
            i <= names@.len(),
            s@ == start + joined(names@.take(i as int), sep@),
        decreases names@.len() - i,
    {
        let ghost before = s@;
        proof {
            assert(names@.take(i as int + 1).drop_last() =~= names@.take(i as int));
            assert(names@.take(i as int + 1).last() == names@[i as int]);
        }
        if i > 0 {
            push_text(s, sep);
        }
        push_text(s, names[i].as_str());
        proof {
            if i == 0 {
                assert(joined(names@.take(1), sep@) == names@[0]@);
                assert(joined(names@.take(0), sep@) =~= Seq::<char>::empty());
                assert(s@ =~= start + joined(names@.take(1), sep@));
            } else {
                assert(s@ =~= start + joined(names@.take(i as int + 1), sep@));
            }
        }
        i += 1;
    }
    proof {
        assert(names@.take(names@.len() as int) =~= names@);
    }
}

} // verus!
