//! Natural numbers of any size, as they are written in an expression.
use vstd::prelude::*;
use vstd::arithmetic::div_mod::*;
use crate::field::FieldElement;

verus! {

/// `b` is one of the characters `0` to `9`.
pub open spec fn is_digit(b: u8) -> bool {
    0x30 <= b <= 0x39
}

/// The number that a run of decimal digit characters denotes, the most
/// significant digit first. The empty run denotes 0.
pub open spec fn decimal_value(text: Seq<u8>) -> nat
    decreases text.len(),
{
    if text.len() == 0 {
        0
    } else {
        decimal_value(text.drop_last()) * 10 + (text.last() - 0x30) as nat
    }
}

/// Every character of `text` is a decimal digit.
pub open spec fn all_digits(text: Seq<u8>) -> bool {
    forall|i: int| 0 <= i < text.len() ==> is_digit(#[trigger] text[i])
}

/// A natural number, held as its decimal digits without leading zeros.
#[derive(Debug, PartialEq, Eq, Hash)]
pub struct Natural {
    digits: Vec<u8>,
}

impl View for Natural {
    type V = nat;

    closed spec fn view(&self) -> nat {
        decimal_value(self.digits@)
    }
}

impl Clone for Natural {
    fn clone(&self) -> (copy: Self)
        ensures
            copy@ == self@,
    {
        proof {
            use_type_invariant(self);
        }
        let digits = self.digits.clone();
        assert(digits@ =~= self.digits@);
        Natural { digits }
    }
}

impl Natural {
    #[verifier::type_invariant]
    spec fn canonical(self) -> bool {
        &&& self.digits@.len() >= 1
        &&& all_digits(self.digits@)
        &&& self.digits@.len() > 1 ==> self.digits@[0] != 0x30
    }

    /// The number that `text` denotes, where `text` is a nonempty run of
    /// decimal digits; `None` for any other text.
    pub fn from_decimal(text: &[u8]) -> (number: Option<Natural>)
        ensures
            number is Some <==> text@.len() > 0 && all_digits(text@),
            number is Some ==> number.unwrap()@ == decimal_value(text@),
    {
        let n = text.len();
        if n == 0 {
            return None;
        }
        // leading zeros add nothing to the value
        let mut start: usize = 0;
        while start + 1 < n && text[start] == 0x30
            invariant
                n == text@.len(),
                start < n,
                forall|i: int| 0 <= i < start ==> text@[i] == 0x30,
            decreases n - start,
        {
            start += 1;
        }
        let mut digits: Vec<u8> = Vec::new();
        let mut i: usize = start;
        while i < n
            invariant
                n == text@.len(),
                start <= i <= n,
                digits@ == text@.subrange(start as int, i as int),
                all_digits(digits@),
                forall|j: int| 0 <= j < start ==> text@[j] == 0x30,
                forall|j: int| start <= j < i ==> is_digit(#[trigger] text@[j]),
            decreases n - i,
        {
            let b = text[i];
            if !(0x30 <= b && b <= 0x39) {
                return None;
            }
            digits.push(b);
            i += 1;
            assert(digits@ =~= text@.subrange(start as int, i as int));
        }
        proof {
            assert(text@.subrange(start as int, n as int) =~= text@.skip(start as int));
            lemma_leading_zeros(text@, start as nat);
            assert(all_digits(text@));
        }
        Some(Natural { digits })
    }

    /// The decimal digits of the number, the most significant first,
    /// without leading zeros.
    pub fn digits(&self) -> (digits: &Vec<u8>)
        ensures
            digits@.len() > 0,
            all_digits(digits@),
            decimal_value(digits@) == self@,
            digits@.len() > 1 ==> digits@[0] != 0x30,
    {
        proof {
            use_type_invariant(self);
        }
        &self.digits
    }

    /// The remainder of the number modulo `P`, as an element of the field.
    pub fn reduce<const P: u64>(&self) -> (element: FieldElement<P>)
        requires
            P > 0,
        ensures
            element@ == self@ % (P as nat),
    {
        proof {
            use_type_invariant(self);
        }
        let n = self.digits.len();
        let mut acc: u64 = 0;
        let mut i: usize = 0;
        proof {
            assert(self.digits@.take(0) =~= Seq::<u8>::empty());
            lemma_small_mod(0, P as nat);
        }
        while i < n
            invariant
                P > 0,
                n == self.digits@.len(),
                all_digits(self.digits@),
                i <= n,
                acc < P,
                acc == decimal_value(self.digits@.take(i as int)) % (P as nat),
            decreases n - i,
        {
            let d: u8 = self.digits[i] - 0x30;
            let wide: u128 = (acc as u128 * 10 + d as u128) % (P as u128);
            proof {
                let before = self.digits@.take(i as int);
                let after = self.digits@.take(i + 1);
                assert(after.drop_last() =~= before);
                assert(after.last() == self.digits@[i as int]);
                let v = decimal_value(before) as int;
                lemma_mul_mod_noop_left(v, 10, P as int);
                lemma_add_mod_noop(v * 10, d as int, P as int);
                lemma_add_mod_noop(acc * 10, d as int, P as int);
            }
            acc = wide as u64;
            i += 1;
        }
        proof {
            assert(self.digits@.take(n as int) =~= self.digits@);
            lemma_small_mod(acc as nat, P as nat);
        }
        FieldElement::new(acc)
    }
}

/// Zeros in front of a run of digits do not change the number it denotes.
pub proof fn lemma_leading_zeros(text: Seq<u8>, zeros: nat)
    requires
        zeros <= text.len(),
        forall|i: int| 0 <= i < zeros ==> text[i] == 0x30,
    ensures
        decimal_value(text) == decimal_value(text.skip(zeros as int)),
    decreases text.len(),
{
    if zeros == text.len() {
        lemma_zeros_denote_zero(text);
        assert(text.skip(zeros as int) =~= Seq::<u8>::empty());
    } else {
        lemma_leading_zeros(text.drop_last(), zeros);
        assert(text.skip(zeros as int).drop_last() =~= text.drop_last().skip(zeros as int));
    }
}

/// A run of zeros denotes 0.
pub proof fn lemma_zeros_denote_zero(text: Seq<u8>)
    requires
        forall|i: int| 0 <= i < text.len() ==> text[i] == 0x30,
    ensures
        decimal_value(text) == 0,
    decreases text.len(),
{
    if text.len() > 0 {
        lemma_zeros_denote_zero(text.drop_last());
    }
}

} // verus!
