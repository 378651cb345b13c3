use crate::types::{TokenType, TokenView, UnsignedInt};
use vstd::prelude::*;

verus! {

/// An ASCII decimal digit.
pub open spec fn is_digit(c: char) -> bool {
    48 <= c as u32 <= 57
}

/// The value of a run of decimal digits.
pub open spec fn digits_value(w: Seq<char>) -> int
    decreases w.len(),
{
    if w.len() == 0 {
        0
    } else {
        digits_value(w.drop_last()) * 10 + ((w.last() as u32) as int - 48)
    }
}

pub open spec fn all_digits(w: Seq<char>) -> bool {
    forall|i: int| 0 <= i < w.len() ==> is_digit(#[trigger] w[i])
}

/// The number a lexeme denotes: a non-empty run of decimal digits whose
/// value fits in [`UnsignedInt`].
pub open spec fn number_of(w: Seq<char>) -> Option<UnsignedInt> {
    if w.len() > 0 && all_digits(w) && digits_value(w) <= u32::MAX {
        Some(digits_value(w) as UnsignedInt)
    } else {
        None
    }
}

/// The boolean a lexeme denotes.
pub open spec fn bool_of(w: Seq<char>) -> Option<bool> {
    if w == seq!['t', 'r', 'u', 'e'] {
        Some(true)
    } else if w == seq!['f', 'a', 'l', 's', 'e'] {
        Some(false)
    } else {
        None
    }
}

proof fn lemma_digits_value_prefix(w: Seq<char>, i: int)
    requires
        0 <= i <= w.len(),
        all_digits(w),
    ensures
        0 <= digits_value(w.take(i)) <= digits_value(w),
    decreases w.len(),
{
    if w.len() > 0 {
        assert(all_digits(w.drop_last()));
        if i < w.len() {
            assert(w.drop_last().take(i) =~= w.take(i));
            lemma_digits_value_prefix(w.drop_last(), i);
        } else {
            assert(w.take(i) =~= w);
            lemma_digits_value_prefix(w.drop_last(), 0);
        }
    } else {
        assert(w.take(i) =~= w);
    }
}

/// The number a lexeme denotes, if it is one.
pub(crate) fn number_value(w: &Vec<char>) -> (r: Option<UnsignedInt>)
    ensures
        r == number_of(w@),
{
    let n = w.len();
    if n == 0 {
        return None;
    }
    let mut acc: u64 = 0;
    let mut i: usize = 0;
    while i < n
        invariant
            n == w.len(),
                        0 <= i <= n,
            acc as int == digits_value(w@.take(i as int)),
            acc <= u32::MAX,
            forall|k: int| 0 <= k < i ==> is_digit(#[trigger] w@[k]),
        decreases n - i,
    {
        let c = w[i];
        if !(48 <= c as u32 && c as u32 <= 57) {
            return None;
        }
        assert(w@.take(i + 1).drop_last() =~= w@.take(i as int));
        let next = acc * 10 + (c as u32 - 48) as u64;
        i = i + 1;
        if next > u32::MAX as u64 {
            proof {
                if all_digits(w@) {
                    lemma_digits_value_prefix(w@, i as int);
                }
            }
            return None;
        }
        acc = next;
    }
    assert(w@.take(n as int) =~= w@);
    Some(acc as u32)
}

/// The boolean a lexeme denotes, if it is one.
pub(crate) fn bool_value(w: &Vec<char>) -> (r: Option<bool>)
    ensures
        r == bool_of(w@),
{
    let n = w.len();
    if n == 4 && w[0] == 't' && w[1] == 'r' && w[2] == 'u' && w[3] == 'e' {
        assert(w@ =~= seq!['t', 'r', 'u', 'e']);
        Some(true)
    } else if n == 5 && w[0] == 'f' && w[1] == 'a' && w[2] == 'l' && w[3] == 's' && w[4] == 'e' {
        assert(w@ =~= seq!['f', 'a', 'l', 's', 'e']);
        Some(false)
    } else {
        assert(w@ != seq!['t', 'r', 'u', 'e']);
        assert(w@ != seq!['f', 'a', 'l', 's', 'e']);
        None
    }
}

/// A token whose lexeme denotes a value of its kind: a Bool token `true` or
/// `false`, a Number token a digit run that fits, a Null token `null`.
pub open spec fn literal_ok(t: TokenView) -> bool {
    &&& t.kind == TokenType::Bool ==> bool_of(t.lexeme) is Some
    &&& t.kind == TokenType::Number ==> number_of(t.lexeme) is Some
    &&& t.kind == TokenType::Null ==> t.lexeme == seq!['n', 'u', 'l', 'l']
}

} // verus!
