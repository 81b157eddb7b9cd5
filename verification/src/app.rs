//! Validation of numeric command-line values.

use vstd::prelude::*;
use vstd::string::StrSliceExecFns;
use vstd::string::StringExecFns;

verus! {

/// A decimal digit character.
pub open spec fn is_dec_digit(c: char) -> bool {
    48 <= c as int <= 57
}

/// The value of one decimal digit character.
pub open spec fn digit_val(c: char) -> int {
    c as int - 48
}

/// The value of a run of decimal digit characters.
pub open spec fn digits_val(s: Seq<char>) -> int
    decreases s.len(),
{
    if s.len() == 0 {
        0
    } else {
        digits_val(s.drop_last()) * 10 + digit_val(s.last())
    }
}

/// The digits of a numeral, an optional leading plus sign stripped.
pub open spec fn numeral_body(s: Seq<char>) -> Seq<char> {
    if s.len() > 0 && s[0] == '+' {
        s.drop_first()
    } else {
        s
    }
}

/// A numeral: at least one decimal digit, at most one leading plus sign.
pub open spec fn is_numeral(s: Seq<char>) -> bool {
    &&& numeral_body(s).len() > 0
    &&& forall|i: int|
        0 <= i < numeral_body(s).len() ==> is_dec_digit(#[trigger] numeral_body(s)[i])
}

/// The value a numeral denotes.
pub open spec fn numeral_val(s: Seq<char>) -> int {
    digits_val(numeral_body(s))
}

/// The strings accepted as a worker count or depth bound: numerals whose
/// value is positive and representable.
pub open spec fn accepted_count(s: Seq<char>) -> bool {
    is_numeral(s) && 1 <= numeral_val(s) <= usize::MAX
}

proof fn lemma_digits_val_nonneg(s: Seq<char>)
    requires
        forall|i: int| 0 <= i < s.len() ==> is_dec_digit(#[trigger] s[i]),
    ensures
        digits_val(s) >= 0,
    decreases s.len(),
{
    if s.len() > 0 {
        lemma_digits_val_nonneg(s.drop_last());
    }
}

proof fn lemma_digits_val_prefix(s: Seq<char>, t: int)
    requires
        forall|i: int| 0 <= i < s.len() ==> is_dec_digit(#[trigger] s[i]),
        0 <= t <= s.len(),
    ensures
        digits_val(s.take(t)) <= digits_val(s),
    decreases s.len() - t,
{
    if t == s.len() {
        assert(s.take(t) =~= s);
    } else {
        assert(s.take(t + 1).drop_last() =~= s.take(t));
        assert(s.take(t + 1).last() == s[t]);
        lemma_digits_val_nonneg(s.take(t));
        lemma_digits_val_prefix(s, t + 1);
    }
}

fn err_msg() -> (m: String)
    ensures
        m@ == "the value must be a positive number"@,
{
    String::from_str("the value must be a positive number")
}

/// Validate a numeric flag value: accepted exactly when it is a decimal
/// numeral denoting a positive, representable number.
pub fn is_positive(s: &str) -> (r: Result<(), String>)
    ensures
        r is Ok <==> accepted_count(s@),
        r matches Err(m) ==> m@ == "the value must be a positive number"@,
{
    let n = s.unicode_len();
    let mut i: usize = 0;
    if n > 0 && s.get_char(0) == '+' {
        i = 1;
    }
    let ghost off = i as int;
    let ghost b = numeral_body(s@);
    proof {
        assert(b =~= s@.skip(off));
    }
    if i == n {
        proof {
            assert(b.len() == 0);
        }
        return Result::Err(err_msg());
    }
    let mut acc: usize = 0;
    proof {
        assert(s@.subrange(off, off) =~= Seq::<char>::empty());
    }
    while i < n
        invariant
            n == s@.len(),
            off <= i <= n,
            off < n,
            0 <= off <= 1,
            b == numeral_body(s@),
            b =~= s@.skip(off),
            forall|t: int| off <= t < i ==> is_dec_digit(#[trigger] s@[t]),
            acc as int == digits_val(s@.subrange(off, i as int)),
        decreases n - i,
    {
        let c = s.get_char(i);
        let d: u8 = match c {
            '0' => 0,
            '1' => 1,
            '2' => 2,
            '3' => 3,
            '4' => 4,
            '5' => 5,
            '6' => 6,
            '7' => 7,
            '8' => 8,
            '9' => 9,
            _ => {
                proof {
                    assert(numeral_body(s@)[i - off] == s@[i as int]);
                    assert(s@[i as int] == c);
                    assert(!is_dec_digit(numeral_body(s@)[i - off]));
                    assert(!is_numeral(s@));
                }
                return Result::Err(err_msg());
            },
        };
        proof {
            assert(is_dec_digit(c));
            assert(digit_val(c) == d as int);
        }
        if acc > (usize::MAX - (d as usize)) / 10 {
            proof {
                vstd::arithmetic::div_mod::lemma_fundamental_div_mod(
                    usize::MAX - (d as int),
                    10,
                );
                vstd::arithmetic::div_mod::lemma_mod_bound(usize::MAX - (d as int), 10);
                assert(acc * 10 + (d as usize) > usize::MAX);
                assert(s@.subrange(off, i + 1).drop_last() =~= s@.subrange(off, i as int));
                assert(s@.subrange(off, i + 1).last() == s@[i as int]);
                assert(digits_val(s@.subrange(off, i + 1)) == acc * 10 + d);
                if is_numeral(s@) {
                    assert(b.take(i + 1 - off) =~= s@.subrange(off, i + 1));
                    lemma_digits_val_prefix(b, i + 1 - off);
                    assert(numeral_val(s@) > usize::MAX);
                }
            }
            return Result::Err(err_msg());
        }
        proof {
            vstd::arithmetic::div_mod::lemma_fundamental_div_mod(usize::MAX - (d as int), 10);
            vstd::arithmetic::div_mod::lemma_mod_bound(usize::MAX - (d as int), 10);
            assert(acc * 10 + (d as usize) <= usize::MAX);
            assert(s@.subrange(off, i + 1).drop_last() =~= s@.subrange(off, i as int));
            assert(s@.subrange(off, i + 1).last() == s@[i as int]);
        }
        acc = acc * 10 + (d as usize);
        i = i + 1;
    }
    proof {
        assert(s@.subrange(off, n as int) =~= b);
        assert(forall|t: int| 0 <= t < b.len() ==> is_dec_digit(#[trigger] b[t]));
    }
    if acc == 0 {
        return Result::Err(err_msg());
    }
    Result::Ok(())
}

} // verus!
