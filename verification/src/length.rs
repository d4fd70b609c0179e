//! Which lengths the network accepts.
use vstd::prelude::*;
use vstd::string::StringExecFns;

verus! {

/// `n` is one of 1, 2, 4, 8, ...
pub open spec fn is_power_of_two(n: nat) -> bool
    decreases n,
{
    n == 1 || (n > 1 && n % 2 == 0 && is_power_of_two(n / 2))
}

/// The lengths that can be sorted: the powers of two, and the empty sequence,
/// which needs no sorting.
pub open spec fn sortable_length(n: nat) -> bool {
    n == 0 || is_power_of_two(n)
}

/// Both halves of a sequence of sortable length are of sortable length, and
/// beyond length one they are equally long.
pub proof fn lemma_sortable_halves(n: nat)
    requires
        sortable_length(n),
    ensures
        sortable_length(n / 2),
        sortable_length((n - n / 2) as nat),
        n > 1 ==> n % 2 == 0,
{
    reveal_with_fuel(is_power_of_two, 2);
}

/// A positive number is a power of two exactly when it shares no bit with
/// its predecessor.
proof fn lemma_single_bit(n: u64)
    requires
        n >= 1,
    ensures
        (n & ((n - 1) as u64)) == 0 <==> is_power_of_two(n as nat),
    decreases n,
{
    if n == 1 {
        assert((1u64 & ((1u64 - 1) as u64)) == 0) by (bit_vector);
    } else {
        let h = n / 2;
        assert(((n & ((n - 1) as u64)) == 0) <==> (n % 2 == 0 && (h & ((h - 1) as u64)) == 0))
            by (bit_vector)
            requires
                n >= 2,
                h == n / 2,
        ;
        lemma_single_bit(h);
    }
}

/// Whether a sequence of `n` elements can be sorted by the network.
pub fn is_sortable_length(n: usize) -> (yes: bool)
    ensures
        yes == sortable_length(n as nat),
{
    if n == 0 {
        true
    } else {
        let bits: u64 = n as u64;
        proof {
            lemma_single_bit(bits);
        }
        bits & (bits - 1) == 0
    }
}

/// The decimal digit of a number below ten.
pub open spec fn digit(d: nat) -> char {
    if d == 0 {
        '0'
    } else if d == 1 {
        '1'
    } else if d == 2 {
        '2'
    } else if d == 3 {
        '3'
    } else if d == 4 {
        '4'
    } else if d == 5 {
        '5'
    } else if d == 6 {
        '6'
    } else if d == 7 {
        '7'
    } else if d == 8 {
        '8'
    } else {
        '9'
    }
}

/// A number written in decimal, without leading zeros.
pub open spec fn decimal(n: nat) -> Seq<char>
    decreases n,
{
    if n < 10 {
        seq![digit(n)]
    } else {
        decimal(n / 10).push(digit(n % 10))
    }
}

/// What the error says of a sequence of `n` elements that cannot be sorted.
pub open spec fn length_error_text(n: nat) -> Seq<char> {
    "The length of x is not a power of two. (x.len(): "@ + decimal(n) + ")"@
}

/// The text of one decimal digit.
fn digit_text(d: usize) -> (text: &'static str)
    requires
        d < 10,
    ensures
        text@ == seq![digit(d as nat)],
{
    proof {
        reveal_strlit("0");
        reveal_strlit("1");
        reveal_strlit("2");
        reveal_strlit("3");
        reveal_strlit("4");
        reveal_strlit("5");
        reveal_strlit("6");
        reveal_strlit("7");
        reveal_strlit("8");
        reveal_strlit("9");
    }
    let text = if d == 0 {
        "0"
    } else if d == 1 {
        "1"
    } else if d == 2 {
        "2"
    } else if d == 3 {
        "3"
    } else if d == 4 {
        "4"
    } else if d == 5 {
        "5"
    } else if d == 6 {
        "6"
    } else if d == 7 {
        "7"
    } else if d == 8 {
        "8"
    } else {
        "9"
    };
    assert(text@ =~= seq![digit(d as nat)]);
    text
}

/// A length written in decimal.
pub fn decimal_text(n: usize) -> (text: String)
    ensures
        text@ == decimal(n as nat),
    decreases n,
{
    if n < 10 {
        String::from_str(digit_text(n))
    } else {
        let mut text = decimal_text(n / 10);
        text.append(digit_text(n % 10));
        assert(text@ =~= decimal(n as nat));
        text
    }
}

/// The error for a sequence of `n` elements that cannot be sorted.
pub fn length_error(n: usize) -> (message: String)
    ensures
        message@ == length_error_text(n as nat),
{
    let mut message = String::from_str("The length of x is not a power of two. (x.len(): ");
    let number = decimal_text(n);
    message.append(number.as_str());
    message.append(")");
    message
}

} // verus!
