use vstd::prelude::*;
use vstd::string::*;


verus! {

/// Character of a decimal digit.
pub open spec fn digit_char(d: int) -> char {
    if d == 0 {
        '0'
    } else if d == 1 {
        '1'
    } else if d == 2 {
        '2'
    } else if d == 3 {
        '3'
    } else if d == 4 {
        '4'
    } else if d == 5 {
        '5'
    } else if d == 6 {
        '6'
    } else if d == 7 {
        '7'
    } else if d == 8 {
        '8'
    } else {
        '9'
    }
}

/// Decimal representation of `n`, without leading zeros.
pub open spec fn decimal(n: nat) -> Seq<char>
    decreases n,
{
    if n < 10 {
        seq![digit_char(n as int)]
    } else {
        decimal(n / 10).push(digit_char((n % 10) as int))
    }
}

fn digit_str(d: u64) -> (r: &'static str)
    requires
        d < 10,
    ensures
        r@ == seq![digit_char(d as int)],
{
    if d == 0 {
        proof {
            reveal_strlit("0");
        }
        "0"
    } else if d == 1 {
        proof {
            reveal_strlit("1");
        }
        "1"
    } else if d == 2 {
        proof {
            reveal_strlit("2");
        }
        "2"
    } else if d == 3 {
        proof {
            reveal_strlit("3");
        }
        "3"
    } else if d == 4 {
        proof {
            reveal_strlit("4");
        }
        "4"
    } else if d == 5 {
        proof {
            reveal_strlit("5");
        }
        "5"
    } else if d == 6 {
        proof {
            reveal_strlit("6");
        }
        "6"
    } else if d == 7 {
        proof {
            reveal_strlit("7");
        }
        "7"
    } else if d == 8 {
        proof {
            reveal_strlit("8");
        }
        "8"
    } else {
        proof {
            reveal_strlit("9");
        }
        "9"
    }
}

/// Append the decimal representation of `n`.
pub fn append_decimal(s: &mut String, n: u64)
    ensures
        final(s)@ == old(s)@ + decimal(n as nat),
    decreases n,
{
    if n >= 10 {
        append_decimal(s, n / 10);
    }
    let d = digit_str(n % 10);
    s.append(d);
    proof {
        if n >= 10 {
            assert(final(s)@ =~= old(s)@ + decimal(n as nat));
        } else {
            assert(final(s)@ =~= old(s)@ + decimal(n as nat));
        }
    }
}

/// Source of fresh identifiers `prefix_1`, `prefix_2`, ... shared by every
/// kind of object; the counter wraps around after `u64::MAX`.
#[derive(Debug, Clone, Copy, PartialEq, Eq, Structural)]
pub struct IdSource {
    pub next: u64,
}

impl IdSource {
    /// A source whose first identifier carries the number 1.
    pub fn new() -> (r: IdSource)
        ensures
            r.next == 1,
    {
        IdSource { next: 1 }
    }

    /// The identifier `prefix_N` for the current number `N`, which then
    /// advances.
    pub fn next_id(&mut self, prefix: &str) -> (r: String)
        ensures
            r@ == prefix@ + seq!['_'] + decimal(old(self).next as nat),
            final(self).next == if old(self).next == u64::MAX { 0 } else { (old(self).next + 1) as u64 },
    {
        let n = self.next;
        self.next = if n == u64::MAX { 0 } else { n + 1 };
        let mut s = String::from_str(prefix);
        let sep = "_";
        proof {
            reveal_strlit("_");
        }
        s.append(sep);
        append_decimal(&mut s, n);
        s
    }
}

/// A fresh identifier is never empty.
pub proof fn lemma_fresh_id_nonempty(prefix: Seq<char>, n: nat)
    ensures
        (prefix + seq!['_'] + decimal(n)).len() > prefix.len(),
{
}

} // verus!
