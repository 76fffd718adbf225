//! Plain-text building blocks for the printers of the trees.

use vstd::prelude::*;

verus! {

/// `String::push`: the character is appended to the end of the string.
#[verifier::external_body]
pub(crate) fn push_char(s: &mut String, c: char)
    ensures
        final(s)@ == old(s)@.push(c),
{
    s.push(c)
}

/// `String::pop`: the last character is taken off the string and returned, if there is one.
#[verifier::external_body]
pub(crate) fn pop_char(s: &mut String) -> (c: Option<char>)
    ensures
        old(s)@.len() > 0 ==> c == Some(old(s)@.last()) && final(s)@ == old(s)@.drop_last(),
        old(s)@.len() == 0 ==> c is None && final(s)@ == old(s)@,
{
    s.pop()
}

/// The character of a decimal digit.
pub open spec fn digit_char(d: nat) -> char {
    (48 + d) as char
}

/// The decimal notation of a number, without leading zeros.
pub open spec fn decimal_text(n: nat) -> Seq<char>
    decreases n,
{
    if n < 10 {
        seq![digit_char(n)]
    } else {
        decimal_text(n / 10).push(digit_char(n % 10))
    }
}

/// The decimal notation of an integer, with a minus sign where it is negative.
pub open spec fn signed_text(n: int) -> Seq<char> {
    if n < 0 {
        seq!['-'] + decimal_text((-n) as nat)
    } else {
        decimal_text(n as nat)
    }
}

/// `n` times the same character.
pub open spec fn repeated(c: char, n: nat) -> Seq<char> {
    Seq::new(n, |i: int| c)
}

/// Appends the decimal notation of `n`.
pub fn push_decimal(s: &mut String, n: u64)
    ensures
        final(s)@ == old(s)@ + decimal_text(n as nat),
{
    let mut digits: Vec<u8> = Vec::new();
    let mut rest = n;
    digits.push((rest % 10) as u8);
    rest = rest / 10;
    proof {
        assert(digits@.drop_last() =~= Seq::<u8>::empty());
        assert(tail_text(Seq::<u8>::empty()) =~= Seq::<char>::empty());
        assert(digits@.last() == (n % 10) as u8);
        assert(tail_text(digits@) =~= seq![digit_char((n % 10) as nat)]);
        if n >= 10 {
            assert(decimal_text(n as nat) =~= decimal_text(rest as nat) + tail_text(digits@));
        }
    }
    while rest > 0
        invariant
            forall|i: int| 0 <= i < digits@.len() ==> #[trigger] digits[i] < 10,
            rest > 0 ==> decimal_text(n as nat) == decimal_text(rest as nat) + tail_text(
                digits@,
            ),
            rest == 0 ==> decimal_text(n as nat) == tail_text(digits@),
        decreases rest,
    {
        let ghost before = digits@;
        digits.push((rest % 10) as u8);
        proof {
            assert(digits@.drop_last() =~= before);
            assert(tail_text(digits@) == seq![digit_char((rest % 10) as nat)] + tail_text(
                before,
            ));
            if rest >= 10 {
                assert(decimal_text(n as nat) =~= decimal_text((rest / 10) as nat) + tail_text(
                    digits@,
                ));
            } else {
                assert(decimal_text(n as nat) =~= tail_text(digits@));
            }
        }
        rest = rest / 10;
    }
    let ghost start = s@;
    let mut i = digits.len();
    proof {
        assert(digits@.take(i as int) =~= digits@);
    }
    while i > 0
        invariant
            i <= digits@.len(),
            forall|j: int| 0 <= j < digits@.len() ==> #[trigger] digits[j] < 10,
            s@ + tail_text(digits@.take(i as int)) == start + tail_text(digits@),
        decreases i,
    {
        i -= 1;
        let c = (48u8 + digits[i]) as char;
        proof {
            assert(digits@.take(i + 1).drop_last() =~= digits@.take(i as int));
            assert(digits@.take(i + 1).last() == digits[i as int]);
            assert(c == digit_char(digits[i as int] as nat));
            assert(s@.push(c) + tail_text(digits@.take(i as int)) =~= s@ + tail_text(
                digits@.take(i + 1),
            ));
        }
        push_char(s, c);
    }
    proof {
        assert(tail_text(digits@.take(0)) =~= Seq::<char>::empty());
        assert(s@ + Seq::<char>::empty() =~= s@);
    }
}

/// The text of digits that were collected from the least significant one up.
pub open spec fn tail_text(digits: Seq<u8>) -> Seq<char>
    decreases digits.len(),
{
    if digits.len() == 0 {
        Seq::empty()
    } else {
        seq![digit_char(digits.last() as nat)] + tail_text(digits.drop_last())
    }
}

/// Appends the decimal notation of `n`, with a minus sign where it is negative.
pub fn push_signed(s: &mut String, n: i32)
    ensures
        final(s)@ == old(s)@ + signed_text(n as int),
{
    if n < 0 {
        push_char(s, '-');
        let m: u64 = (-(n as i64)) as u64;
        push_decimal(s, m);
        proof {
            assert(s@ =~= old(s)@ + signed_text(n as int));
        }
    } else {
        push_decimal(s, n as u64);
    }
}

/// Appends `n` times the character `c`.
pub fn push_repeated(s: &mut String, c: char, n: usize)
    ensures
        final(s)@ == old(s)@ + repeated(c, n as nat),
{
    let mut i: usize = 0;
    proof {
        assert(s@ + repeated(c, 0) =~= s@);
    }
    while i < n
        invariant
            i <= n,
            s@ == old(s)@ + repeated(c, i as nat),
        decreases n - i,
    {
        push_char(s, c);
        i += 1;
        proof {
            assert((old(s)@ + repeated(c, (i - 1) as nat)).push(c) =~= old(s)@ + repeated(
                c,
                i as nat,
            ));
        }
    }
}

/// Three pieces appended in turn are their concatenation appended at once.
pub proof fn lemma_append3<T>(s: Seq<T>, a: Seq<T>, b: Seq<T>, c: Seq<T>)
    ensures
        ((s + a) + b) + c == s + ((a + b) + c),
{
    assert(((s + a) + b) + c =~= s + ((a + b) + c));
}

} // verus!
