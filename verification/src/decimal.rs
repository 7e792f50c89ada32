//! Decimal text for record identifiers: rendering a `u64` as digits and
//! parsing the digits back, with an exact round-trip.

use vstd::prelude::*;

use crate::FormatError;

verus! {

/// The decimal digits of `n`, most significant first.
pub open spec fn spec_decimal(n: nat) -> Seq<u8>
    decreases n,
{
    if n < 10 {
        seq![(n + 0x30) as u8]
    } else {
        spec_decimal(n / 10) + seq![(n % 10 + 0x30) as u8]
    }
}

pub open spec fn is_digit(b: u8) -> bool {
    0x30 <= b <= 0x39
}

pub open spec fn all_digits(s: Seq<u8>) -> bool {
    forall|i: int| 0 <= i < s.len() ==> is_digit(#[trigger] s[i])
}

/// The numeric value of a digit string, most significant first.
pub open spec fn spec_value(s: Seq<u8>) -> nat
    decreases s.len(),
{
    if s.len() == 0 {
        0
    } else {
        spec_value(s.drop_last()) * 10 + (s.last() - 0x30) as nat
    }
}

/// A longer digit string never has a smaller value than its prefix.
pub proof fn lemma_value_prefix(t: Seq<u8>, i: int)
    requires
        0 <= i <= t.len(),
    ensures
        spec_value(t.take(i)) <= spec_value(t),
    decreases t.len(),
{
    if i < t.len() {
        assert(t.drop_last().take(i) =~= t.take(i));
        lemma_value_prefix(t.drop_last(), i);
    } else {
        assert(t.take(i) =~= t);
    }
}

/// Rendering a number gives digits whose value is the number again.
pub proof fn lemma_decimal_roundtrip(n: nat)
    ensures
        spec_decimal(n).len() >= 1,
        all_digits(spec_decimal(n)),
        spec_value(spec_decimal(n)) == n,
    decreases n,
{
    if n < 10 {
        assert(spec_decimal(n).drop_last() =~= Seq::<u8>::empty());
        assert(spec_decimal(n).last() == (n + 0x30) as u8);
        assert(spec_value(Seq::<u8>::empty()) == 0);
        assert(spec_value(spec_decimal(n)) == spec_value(spec_decimal(n).drop_last()) * 10 + (
        spec_decimal(n).last() - 0x30) as nat);
    } else {
        lemma_decimal_roundtrip(n / 10);
        assert(spec_decimal(n).drop_last() =~= spec_decimal(n / 10));
        assert(spec_decimal(n).last() == (n % 10 + 0x30) as u8);
        vstd::arithmetic::div_mod::lemma_fundamental_div_mod(n as int, 10);
        assert(spec_value(spec_decimal(n)) == (n / 10) * 10 + n % 10);
        assert forall|i: int| 0 <= i < spec_decimal(n).len() implies is_digit(
            #[trigger] spec_decimal(n)[i],
        ) by {
            if i < spec_decimal(n / 10).len() {
                assert(spec_decimal(n)[i] == spec_decimal(n / 10)[i]);
            }
        }
    }
}

/// Appends the decimal digits of `n` to `out`.
pub fn push_decimal(n: u64, out: &mut Vec<u8>)
    ensures
        final(out)@ == old(out)@ + spec_decimal(n as nat),
    decreases n,
{
    if n < 10 {
        out.push((n as u8) + 0x30);
        assert(final(out)@ =~= old(out)@ + spec_decimal(n as nat));
    } else {
        push_decimal(n / 10, out);
        out.push(((n % 10) as u8) + 0x30);
        assert(final(out)@ =~= old(out)@ + spec_decimal(n as nat));
    }
}

/// The decimal digits of `n`, as a fresh byte vector.
pub fn decimal_of(n: u64) -> (r: Vec<u8>)
    ensures
        r@ == spec_decimal(n as nat),
{
    let mut out: Vec<u8> = Vec::new();
    push_decimal(n, &mut out);
    assert(out@ =~= spec_decimal(n as nat));
    out
}

/// Parses a record identifier: the whole field must be decimal digits whose
/// value fits in a `u64`; anything else is a `FormatError::RecordId`.
pub fn parse_decimal(s: &Vec<u8>) -> (r: Result<u64, FormatError>)
    ensures
        r is Ok <==> s@.len() > 0 && all_digits(s@) && spec_value(s@) <= u64::MAX,
        r is Ok ==> r->Ok_0 == spec_value(s@),
        r is Err ==> r->Err_0 == FormatError::RecordId,
{
    if s.len() == 0 {
        return Err(FormatError::RecordId);
    }
    let mut val: u64 = 0;
    let mut i: usize = 0;
    while i < s.len()
        invariant
            0 <= i <= s@.len(),
            all_digits(s@.take(i as int)),
            val == spec_value(s@.take(i as int)),
        decreases s@.len() - i,
    {
        let b = s[i];
        if b < 0x30 || b > 0x39 {
            assert(!is_digit(s@[i as int]));
            return Err(FormatError::RecordId);
        }
        let d = (b - 0x30) as u64;
        if val > (u64::MAX - d) / 10 {
            proof {
                assert(s@.take(i + 1).drop_last() =~= s@.take(i as int));
                assert(spec_value(s@.take(i + 1)) == val * 10 + d);
                assert(val * 10 + d > u64::MAX) by (nonlinear_arith)
                    requires
                        val > (u64::MAX - d) / 10,
                        d <= 9,
                ;
                lemma_value_prefix(s@, i + 1);
            }
            return Err(FormatError::RecordId);
        }
        proof {
            assert(val * 10 + d <= u64::MAX) by (nonlinear_arith)
                requires
                    val <= (u64::MAX - d) / 10,
                    d <= 9,
            ;
            assert(s@.take(i + 1).drop_last() =~= s@.take(i as int));
        }
        val = val * 10 + d;
        i += 1;
    }
    assert(s@.take(i as int) =~= s@);
    Ok(val)
}

} // verus!
