//! Length octets: the short form and the minimal long form.
use vstd::prelude::*;

verus! {

/// A decoded length.
#[derive(Debug, Clone, Copy, PartialEq, Eq, Structural)]
pub enum Length {
    /// The value takes this many octets.
    Definite(usize),
}

/// Why length octets could not be decoded.
#[derive(Debug, Clone, Copy, PartialEq, Eq, Structural)]
pub enum LengthError {
    /// The input ended before the length octets did.
    InsufficientBytes,
    /// The long form announces this many octets: none (the indefinite form,
    /// which DER forbids), or more than this decoder accepts.
    UnsupportedLength(u8),
    /// The long form with this many octets, holding this value, which fewer
    /// octets could have encoded.
    BadRepresentation(u8, usize),
}

/// Another name for [`LengthError`].
pub type LengthErr = LengthError;

/// The most octets a long-form length may take.
pub const MAX_LENGTH_OCTETS: u8 = 4;

/// The unsigned big-endian number that `s` encodes.
pub open spec fn be_value(s: Seq<u8>) -> nat
    decreases s.len(),
{
    if s.len() == 0 {
        0
    } else {
        be_value(s.drop_last()) * 256 + s.last() as nat
    }
}

/// What the length octets at the start of `s` decode to: the number of
/// octets they take and the length.
pub open spec fn spec_read_len(s: Seq<u8>) -> Result<(usize, Length), LengthError> {
    if s.len() == 0 {
        Err(LengthError::InsufficientBytes)
    } else if s[0] < 128 {
        Ok((1, Length::Definite(s[0] as usize)))
    } else {
        let k = (s[0] - 128) as int;
        if k == 0 || k > MAX_LENGTH_OCTETS {
            Err(LengthError::UnsupportedLength(k as u8))
        } else if s.len() < 1 + k {
            Err(LengthError::InsufficientBytes)
        } else {
            let v = be_value(s.subrange(1, 1 + k));
            if (k == 1 && v < 128) || (k > 1 && s[1] == 0) {
                Err(LengthError::BadRepresentation(k as u8, v as usize))
            } else {
                Ok(((1 + k) as usize, Length::Definite(v as usize)))
            }
        }
    }
}

/// Decodes the length octets at the start of `data`.
pub fn read_len(data: &[u8]) -> (r: Result<(usize, Length), LengthError>)
    ensures
        r == spec_read_len(data@),
{
    if data.len() == 0 {
        return Err(LengthError::InsufficientBytes);
    }
    let first = data[0];
    if first < 128 {
        return Ok((1, Length::Definite(first as usize)));
    }
    let count = first - 128;
    if count == 0 || count > MAX_LENGTH_OCTETS {
        return Err(LengthError::UnsupportedLength(count));
    }
    read_long_form(data, count)
}

/// Length octets that decode take at least one octet, and no more than the
/// input holds.
pub proof fn lemma_read_len_consumed(s: Seq<u8>)
    ensures
        spec_read_len(s) matches Ok((l, v)) ==> 1 <= l <= s.len() && l <= MAX_LENGTH_OCTETS + 1,
{
}

/// A length below 128 is its own single octet.
pub proof fn lemma_short_form(n: u8)
    requires
        n < 128,
    ensures
        spec_read_len(seq![n]) == Ok::<(usize, Length), LengthError>(
            (1, Length::Definite(n as usize)),
        ),
{
}

/// A first octet of 0x80, the indefinite form, is refused whatever follows.
pub proof fn lemma_indefinite_refused(s: Seq<u8>)
    requires
        s.len() >= 1,
        s[0] == 0x80,
    ensures
        spec_read_len(s) == Err::<(usize, Length), LengthError>(LengthError::UnsupportedLength(0)),
{
}

/// A long form with one octet is accepted exactly when its value is at
/// least 128; below that it is a bad representation of the value.
pub proof fn lemma_one_octet_long_form(v: u8)
    ensures
        v >= 128 ==> spec_read_len(seq![0x81, v]) == Ok::<(usize, Length), LengthError>(
            (2, Length::Definite(v as usize)),
        ),
        v < 128 ==> spec_read_len(seq![0x81, v]) == Err::<(usize, Length), LengthError>(
            LengthError::BadRepresentation(1, v as usize),
        ),
{
    let s = seq![0x81u8, v];
    let t = s.subrange(1, 2);
    assert(t.drop_last() =~= Seq::<u8>::empty());
    assert(be_value(t.drop_last()) == 0);
    assert(t.last() == v);
}

/// A long form with two octets is accepted exactly when its value is at
/// least 256; below that it is a bad representation of the value.
pub proof fn lemma_two_octet_long_form(hi: u8, lo: u8)
    ensures
        (hi as int) * 256 + (lo as int) >= 256 ==> spec_read_len(seq![0x82, hi, lo]) == Ok::<
            (usize, Length),
            LengthError,
        >((3, Length::Definite(((hi as int) * 256 + (lo as int)) as usize))),
        (hi as int) * 256 + (lo as int) < 256 ==> spec_read_len(seq![0x82, hi, lo]) == Err::<
            (usize, Length),
            LengthError,
        >(LengthError::BadRepresentation(2, ((hi as int) * 256 + (lo as int)) as usize)),
{
    let s = seq![0x82u8, hi, lo];
    let t = s.subrange(1, 3);
    assert(t.drop_last() =~= seq![hi]);
    assert(t.drop_last().drop_last() =~= Seq::<u8>::empty());
    assert(be_value(t.drop_last().drop_last()) == 0);
    assert(t.drop_last().last() == hi);
    assert(t.last() == lo);
    assert(be_value(t.drop_last()) == hi as nat);
    assert(be_value(t) == (hi as int) * 256 + (lo as int));
    assert(s[1] == hi);
}

/// The long form: `count` octets after the first hold the length.
fn read_long_form(data: &[u8], count: u8) -> (r: Result<(usize, Length), LengthError>)
    requires
        data@.len() >= 1,
        data@[0] == 128 + count,
        1 <= count <= MAX_LENGTH_OCTETS,
    ensures
        r == spec_read_len(data@),
{
    let k = count as usize;
    if data.len() < 1 + k {
        return Err(LengthError::InsufficientBytes);
    }
    let mut value: usize = 0;
    let mut j: usize = 0;
    while j < k
        invariant
            j <= k <= MAX_LENGTH_OCTETS,
            1 + k <= data@.len(),
            value == be_value(data@.subrange(1, 1 + j as int)),
            j <= 1 ==> value < 0x100,
            j <= 2 ==> value < 0x1_0000,
            j <= 3 ==> value < 0x100_0000,
            value < 0x1_0000_0000,
        decreases k - j,
    {
        let b = data[1 + j];
        proof {
            let s = data@.subrange(1, 2 + j as int);
            assert(s.drop_last() =~= data@.subrange(1, 1 + j as int));
            assert(s.last() == b);
        }
        value = value * 256 + b as usize;
        j += 1;
    }
    if (k == 1 && value < 128) || (k > 1 && data[1] == 0) {
        Err(LengthError::BadRepresentation(count, value))
    } else {
        Ok((1 + k, Length::Definite(value)))
    }
}

} // verus!
