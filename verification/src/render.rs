//! Rendering an assignment as space-separated signed literals: variable `i+1`
//! appears positive when true and negative when false (`"1 -2 3 ..."`).

use vstd::prelude::*;
use vstd::string::StringExecFns;
use crate::model::TruthAssignment;

verus! {

/// The character of one decimal digit.
pub open spec fn digit_char(d: int) -> char
    recommends
        0 <= d <= 9,
{
    if d == 0 {
        '0'
    } else if d == 1 {
        '1'
    } else if d == 2 {
        '2'
    } else if d == 3 {
        '3'
    } else if d == 4 {
        '4'
    } else if d == 5 {
        '5'
    } else if d == 6 {
        '6'
    } else if d == 7 {
        '7'
    } else if d == 8 {
        '8'
    } else {
        '9'
    }
}

/// The decimal digits of `n`, most significant first.
pub open spec fn dec_digits(n: nat) -> Seq<char>
    decreases n,
    via dec_digits_decreases
{
    if n < 10 {
        seq![digit_char(n as int)]
    } else {
        dec_digits(n / 10) + seq![digit_char((n % 10) as int)]
    }
}

#[via_fn]
proof fn dec_digits_decreases(n: nat) {
    if n >= 10 {
        vstd::arithmetic::div_mod::lemma_div_decreases(n as int, 10);
    }
}

/// One rendered literal: the 1-based variable index, with a minus sign when
/// the variable is false.
pub open spec fn literal_token(a: Seq<bool>, i: int) -> Seq<char>
    recommends
        0 <= i < a.len(),
{
    if a[i] {
        dec_digits((i + 1) as nat)
    } else {
        seq!['-'] + dec_digits((i + 1) as nat)
    }
}

/// The first `k` literals, space-separated.
pub open spec fn spec_render(a: Seq<bool>, k: int) -> Seq<char>
    recommends
        k <= a.len(),
    decreases k,
{
    if k <= 0 {
        Seq::empty()
    } else if k == 1 {
        literal_token(a, 0)
    } else {
        spec_render(a, k - 1) + seq![' '] + literal_token(a, k - 1)
    }
}

/// The one-character string of a decimal digit.
fn digit_str(d: u8) -> (r: &'static str)
    requires
        d <= 9,
    ensures
        r@ == seq![digit_char(d as int)],
{
    proof {
        reveal_strlit("0");
        reveal_strlit("1");
        reveal_strlit("2");
        reveal_strlit("3");
        reveal_strlit("4");
        reveal_strlit("5");
        reveal_strlit("6");
        reveal_strlit("7");
        reveal_strlit("8");
        reveal_strlit("9");
    }
    match d {
        0 => "0",
        1 => "1",
        2 => "2",
        3 => "3",
        4 => "4",
        5 => "5",
        6 => "6",
        7 => "7",
        8 => "8",
        _ => "9",
    }
}

/// Appends the decimal rendering of `v`.
fn push_decimal(out: &mut String, v: usize)
    ensures
        final(out)@ == old(out)@ + dec_digits(v as nat),
{
    let mut rev: Vec<u8> = Vec::new();
    let mut x = v;
    let ghost mut tail: Seq<char> = Seq::empty();
    proof {
        assert(dec_digits(v as nat) + Seq::<char>::empty() =~= dec_digits(v as nat));
    }
    loop
        invariant_except_break
            dec_digits(v as nat) == dec_digits(x as nat) + tail,
            rev@.len() == tail.len(),
            forall|j: int|
                0 <= j < tail.len() ==> #[trigger] tail[j] == digit_char(
                    rev@[tail.len() - 1 - j] as int,
                ) && rev@[tail.len() - 1 - j] <= 9,
        ensures
            dec_digits(v as nat) == tail,
            rev@.len() == tail.len(),
            forall|j: int|
                0 <= j < tail.len() ==> #[trigger] tail[j] == digit_char(
                    rev@[tail.len() - 1 - j] as int,
                ) && rev@[tail.len() - 1 - j] <= 9,
        decreases x,
    {
        let ghost x0 = x as nat;
        let ghost tail0 = tail;
        let ghost rev0 = rev@;
        let d = (x % 10) as u8;
        rev.push(d);
        proof {
            tail = seq![digit_char(d as int)] + tail0;
        }
        x = x / 10;
        proof {
            assert forall|j: int|
                0 <= j < tail.len() implies #[trigger] tail[j] == digit_char(
                rev@[tail.len() - 1 - j] as int,
            ) && rev@[tail.len() - 1 - j] <= 9 by {
                if j == 0 {
                    assert(rev@[tail.len() - 1] == d);
                } else {
                    assert(tail[j] == tail0[j - 1]);
                    assert(rev@[tail.len() - 1 - j] == rev0[tail0.len() - 1 - (j - 1)]);
                }
            }
            if x0 < 10 {
                assert(d as int == x0 as int);
                assert(dec_digits(x0) == seq![digit_char(x0 as int)]);
                assert(seq![digit_char(d as int)] + tail0 =~= dec_digits(x0) + tail0);
            } else {
                assert(dec_digits(x0) == dec_digits(x0 / 10) + seq![
                    digit_char((x0 % 10) as int),
                ]);
                assert((dec_digits(x0 / 10) + seq![digit_char((x0 % 10) as int)]) + tail0
                    =~= dec_digits(x0 / 10) + (seq![digit_char(d as int)] + tail0));
                assert(x as nat == x0 / 10);
            }
        }
        if x == 0 {
            break ;
        }
    }
    let n = rev.len();
    let ghost base = out@;
    let mut m = n;
    while m > 0
        invariant
            0 <= m <= n,
            n == rev@.len(),
            n == tail.len(),
            forall|j: int|
                0 <= j < tail.len() ==> #[trigger] tail[j] == digit_char(
                    rev@[tail.len() - 1 - j] as int,
                ) && rev@[tail.len() - 1 - j] <= 9,
            out@ == base + tail.take(n - m),
        decreases m,
    {
        m -= 1;
        proof {
            assert(tail[n - 1 - m] == digit_char(rev@[m as int] as int) && rev@[m as int] <= 9);
        }
        out.append(digit_str(rev[m]));
        proof {
            assert(tail.take(n - m) =~= tail.take(n - m - 1).push(tail[n - m - 1]));
        }
    }
    proof {
        assert(tail.take(n as int) =~= tail);
    }
}

impl TruthAssignment {
    /// The assignment rendered as space-separated signed literals.
    pub fn render(&self) -> (r: String)
        ensures
            r@ == spec_render(self@, self@.len() as int),
    {
        let mut out = String::new();
        let n = self.assignments.len();
        let mut i: usize = 0;
        while i < n
            invariant
                0 <= i <= n,
                n == self@.len(),
                out@ == spec_render(self@, i as int),
            decreases n - i,
        {
            proof {
                reveal_strlit(" ");
                reveal_strlit("-");
            }
            if i > 0 {
                out.append(" ");
            }
            if !self.assignments[i] {
                out.append("-");
            }
            push_decimal(&mut out, i + 1);
            i += 1;
        }
        out
    }
}

} // verus!
