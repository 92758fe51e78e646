//! Numbers as decimal text.

use vstd::prelude::*;
use vstd::string::StringExecFns;

verus! {

/// The character that writes the digit `d`.
pub open spec fn digit(d: int) -> char {
    if d == 0 {
        '0'
    } else if d == 1 {
        '1'
    } else if d == 2 {
        '2'
    } else if d == 3 {
        '3'
    } else if d == 4 {
        '4'
    } else if d == 5 {
        '5'
    } else if d == 6 {
        '6'
    } else if d == 7 {
        '7'
    } else if d == 8 {
        '8'
    } else {
        '9'
    }
}

/// The decimal text of `n`: its digits from the most significant down, with
/// no sign and no leading zero; `0` is written as one digit.
pub open spec fn decimal(n: nat) -> Seq<char>
    decreases n,
{
    if n < 10 {
        seq![digit(n as int)]
    } else {
        decimal(n / 10).push(digit((n % 10) as int))
    }
}

/// The digit that a character writes; 0 for a character that writes none.
pub open spec fn digit_value(c: char) -> nat {
    if c == '1' {
        1
    } else if c == '2' {
        2
    } else if c == '3' {
        3
    } else if c == '4' {
        4
    } else if c == '5' {
        5
    } else if c == '6' {
        6
    } else if c == '7' {
        7
    } else if c == '8' {
        8
    } else if c == '9' {
        9
    } else {
        0
    }
}

/// The number that a text of digits writes, read from the left.
pub open spec fn decimal_value(text: Seq<char>) -> nat
    decreases text.len(),
{
    if text.len() == 0 {
        0
    } else {
        10 * decimal_value(text.drop_last()) + digit_value(text.last())
    }
}

/// Reading the decimal text of a number gives the number back.
pub proof fn lemma_decimal_round_trip(n: nat)
    ensures
        decimal_value(decimal(n)) == n,
    decreases n,
{
    if n < 10 {
        let text = seq![digit(n as int)];
        assert(text.drop_last() =~= Seq::<char>::empty());
        assert(decimal_value(text.drop_last()) == 0);
        assert(text.last() == digit(n as int));
    } else {
        lemma_decimal_round_trip(n / 10);
        let text = decimal(n / 10).push(digit((n % 10) as int));
        assert(text.drop_last() =~= decimal(n / 10));
        assert(text.last() == digit((n % 10) as int));
    }
}

/// Whether a character writes a digit.
pub open spec fn is_digit(c: char) -> bool {
    c == '0' || c == '1' || c == '2' || c == '3' || c == '4' || c == '5' || c == '6' || c == '7'
        || c == '8' || c == '9'
}

/// Whether a text is made of digits alone.
pub open spec fn all_digits(text: Seq<char>) -> bool {
    forall|i: int| 0 <= i < text.len() ==> is_digit(#[trigger] text[i])
}

/// The decimal text of a number holds at least one character, and digits
/// only.
pub proof fn lemma_decimal_is_digits(n: nat)
    ensures
        decimal(n).len() >= 1,
        all_digits(decimal(n)),
    decreases n,
{
    if n >= 10 {
        lemma_decimal_is_digits(n / 10);
    }
}

/// Two numbers with the same decimal text are the same number.
pub proof fn lemma_decimal_injective(a: nat, b: nat)
    requires
        decimal(a) == decimal(b),
    ensures
        a == b,
{
    lemma_decimal_round_trip(a);
    lemma_decimal_round_trip(b);
}

/// A run of digits ends where the first other character stands: two texts
/// that are equal, and each made of a run of digits and a rest that opens
/// with another character, have the same run and the same rest.
pub proof fn lemma_digit_run_ends(
    run: Seq<char>,
    rest: Seq<char>,
    other_run: Seq<char>,
    other_rest: Seq<char>,
)
    requires
        all_digits(run),
        all_digits(other_run),
        rest.len() > 0 && !is_digit(rest[0]),
        other_rest.len() > 0 && !is_digit(other_rest[0]),
        run + rest == other_run + other_rest,
    ensures
        run == other_run,
        rest == other_rest,
{
    let text = run + rest;
    let other_text = other_run + other_rest;
    if run.len() < other_run.len() {
        assert(text[run.len() as int] == rest[0]);
        assert(other_text[run.len() as int] == other_run[run.len() as int]);
        assert(false);
    }
    if other_run.len() < run.len() {
        assert(other_text[other_run.len() as int] == other_rest[0]);
        assert(text[other_run.len() as int] == run[other_run.len() as int]);
        assert(false);
    }
    assert(run =~= text.subrange(0, run.len() as int));
    assert(other_run =~= other_text.subrange(0, run.len() as int));
    assert(rest =~= text.subrange(run.len() as int, text.len() as int));
    assert(other_rest =~= other_text.subrange(run.len() as int, text.len() as int));
}

/// A number ends where the first other character stands: two texts that are
/// equal, and each made of the decimal text of a number, the character
/// `close`, which is no digit, and a rest, have the same number and the same
/// rest.
pub proof fn lemma_number_ends(
    n: nat,
    close: char,
    rest: Seq<char>,
    other: nat,
    other_rest: Seq<char>,
)
    requires
        !is_digit(close),
        decimal(n) + (seq![close] + rest) == decimal(other) + (seq![close] + other_rest),
    ensures
        n == other,
        rest == other_rest,
{
    let tail = seq![close] + rest;
    let other_tail = seq![close] + other_rest;
    lemma_decimal_is_digits(n);
    lemma_decimal_is_digits(other);
    lemma_digit_run_ends(decimal(n), tail, decimal(other), other_tail);
    lemma_decimal_injective(n, other);
    assert(rest =~= tail.subrange(1, tail.len() as int));
    assert(other_rest =~= other_tail.subrange(1, other_tail.len() as int));
}

/// The text of one digit.
fn digit_text(d: usize) -> (text: &'static str)
    requires
        d < 10,
    ensures
        text@ == seq![digit(d as int)],
{
    proof {
        reveal_strlit("0");
        reveal_strlit("1");
        reveal_strlit("2");
        reveal_strlit("3");
        reveal_strlit("4");
        reveal_strlit("5");
        reveal_strlit("6");
        reveal_strlit("7");
        reveal_strlit("8");
        reveal_strlit("9");
    }
    let text: &'static str = if d == 0 {
        "0"
    } else if d == 1 {
        "1"
    } else if d == 2 {
        "2"
    } else if d == 3 {
        "3"
    } else if d == 4 {
        "4"
    } else if d == 5 {
        "5"
    } else if d == 6 {
        "6"
    } else if d == 7 {
        "7"
    } else if d == 8 {
        "8"
    } else {
        "9"
    };
    assert(text@ =~= seq![digit(d as int)]);
    text
}

/// Writes the decimal text of `n` at the end of `out`.
pub fn append_decimal(out: &mut String, n: usize)
    ensures
        final(out)@ == old(out)@ + decimal(n as nat),
    decreases n,
{
    if n >= 10 {
        append_decimal(out, n / 10);
    }
    out.append(digit_text(n % 10));
    proof {
        if n >= 10 {
            assert(old(out)@ + decimal((n / 10) as nat) + seq![digit((n % 10) as int)] =~= old(
                out,
            )@ + decimal(n as nat));
        }
    }
}

} // verus!
