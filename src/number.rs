//! Unsigned integers written in a given radix, read as `u32::from_str_radix` reads them.
use vstd::prelude::*;

verus! {

/// Why a digit string is not a `u32`.
#[derive(Debug, Clone, Copy, PartialEq, Eq, Structural)]
pub enum NumberError {
    /// The text is empty.
    Empty,
    /// A character is not a digit of the radix (a lone `+` included).
    InvalidDigit,
    /// The value does not fit in a `u32`.
    Overflow,
}

/// The value of `c` as a digit of `radix` (2 to 36), if it is one.
pub open spec fn digit_of(c: u8, radix: nat) -> Option<nat> {
    let d: int = if 48 <= c <= 57 {
        c - 48
    } else if 97 <= c <= 122 {
        c - 97 + 10
    } else if 65 <= c <= 90 {
        c - 65 + 10
    } else {
        radix as int
    };
    if d < radix {
        Some(d as nat)
    } else {
        None
    }
}

/// Reading the digits `d` from the left: the first digit that is not one of
/// `radix`, or the first prefix whose value exceeds `u32::MAX`, decides the error.
pub open spec fn digits_value(d: Seq<u8>, radix: nat) -> Result<nat, NumberError>
    decreases d.len(),
{
    if d.len() == 0 {
        Ok(0)
    } else {
        match digits_value(d.drop_last(), radix) {
            Err(e) => Err(e),
            Ok(v) => match digit_of(d.last(), radix) {
                None => Err(NumberError::InvalidDigit),
                Some(x) => if v * radix + x > u32::MAX {
                    Err(NumberError::Overflow)
                } else {
                    Ok(v * radix + x)
                },
            },
        }
    }
}

/// What `s` reads as in `radix`: an optional leading `+`, then at least one digit.
pub open spec fn number_value(s: Seq<u8>, radix: nat) -> Result<u32, NumberError> {
    if s.len() == 0 {
        Err(NumberError::Empty)
    } else {
        let d = if s.len() > 1 && s[0] == 43u8 { s.skip(1) } else { s };
        match digits_value(d, radix) {
            Err(e) => Err(e),
            Ok(v) => Ok(v as u32),
        }
    }
}

proof fn lemma_digits_value_bounded(d: Seq<u8>, radix: nat)
    ensures
        digits_value(d, radix) matches Ok(v) ==> v <= u32::MAX,
    decreases d.len(),
{
    if d.len() > 0 {
        lemma_digits_value_bounded(d.drop_last(), radix);
    }
}

fn digit(c: u8, radix: u32) -> (r: Option<u32>)
    requires
        2 <= radix <= 36,
    ensures
        r matches Some(x) ==> digit_of(c, radix as nat) == Some(x as nat),
        r is None ==> digit_of(c, radix as nat) is None,
{
    let d: u32 = if 48 <= c && c <= 57 {
        (c - 48) as u32
    } else if 97 <= c && c <= 122 {
        (c - 97 + 10) as u32
    } else if 65 <= c && c <= 90 {
        (c - 65 + 10) as u32
    } else {
        radix
    };
    if d < radix {
        Some(d)
    } else {
        None
    }
}

/// Reads `s` as an unsigned number in `radix`, as `u32::from_str_radix` does.
pub fn parse_u32(s: &[u8], radix: u32) -> (r: Result<u32, NumberError>)
    requires
        2 <= radix <= 36,
    ensures
        r == number_value(s@, radix as nat),
{
    if s.len() == 0 {
        return Err(NumberError::Empty);
    }
    let start: usize = if s.len() > 1 && s[0] == 43u8 { 1 } else { 0 };
    let ghost d = if s@.len() > 1 && s@[0] == 43u8 { s@.skip(1) } else { s@ };
    assert(d =~= s@.skip(start as int));
    assert(number_value(s@, radix as nat) == match digits_value(d, radix as nat) {
        Err(e) => Err::<u32, NumberError>(e),
        Ok(v) => Ok(v as u32),
    });
    let mut acc: u32 = 0;
    let mut i: usize = start;
    while i < s.len()
        invariant
            start <= i <= s.len(),
            d =~= s@.skip(start as int),
            number_value(s@, radix as nat) == match digits_value(d, radix as nat) {
                Err(e) => Err::<u32, NumberError>(e),
                Ok(v) => Ok(v as u32),
            },
            2 <= radix <= 36,
            digits_value(d.take(i - start), radix as nat) == Ok::<nat, NumberError>(acc as nat),
        decreases s.len() - i,
    {
        let ghost prefix = d.take(i - start + 1);
        assert(prefix.drop_last() =~= d.take(i - start));
        assert(prefix.last() == s@[i as int]);
        match digit(s[i], radix) {
            None => {
                assert(digits_value(prefix, radix as nat) == Err::<nat, NumberError>(NumberError::InvalidDigit));
                proof {
                    lemma_error_persists_to(d, (i - start + 1) as nat, d.len(), radix as nat);
                    assert(d.take(d.len() as int) =~= d);
                    assert(digits_value(d, radix as nat) == Err::<nat, NumberError>(NumberError::InvalidDigit));
                }
                return Err(NumberError::InvalidDigit);
            },
            Some(x) => {
                assert(acc as u64 * radix as u64 <= 0xFFFF_FFFFu64 * 36) by (nonlinear_arith)
                    requires acc <= 0xFFFF_FFFFu32, radix <= 36;
                let wide: u64 = acc as u64 * radix as u64 + x as u64;
                if wide > 0xFFFF_FFFFu64 {
                    assert(digits_value(prefix, radix as nat) == Err::<nat, NumberError>(NumberError::Overflow));
                    proof {
                        lemma_error_persists_to(d, (i - start + 1) as nat, d.len(), radix as nat);
                        assert(d.take(d.len() as int) =~= d);
                        assert(digits_value(d, radix as nat) == Err::<nat, NumberError>(NumberError::Overflow));
                    }
                    return Err(NumberError::Overflow);
                }
                acc = wide as u32;
            },
        }
        i = i + 1;
    }
    assert(d.take(i - start) =~= d);
    Ok(acc)
}

/// Once a prefix of the digits fails, every longer prefix fails the same way.
proof fn lemma_error_persists_to(d: Seq<u8>, n: nat, m: nat, radix: nat)
    requires
        n <= m <= d.len(),
        digits_value(d.take(n as int), radix) is Err,
    ensures
        digits_value(d.take(m as int), radix) == digits_value(d.take(n as int), radix),
    decreases m - n,
{
    if m > n {
        lemma_error_persists_to(d, n, (m - 1) as nat, radix);
        assert(d.take(m as int).drop_last() =~= d.take(m - 1));
    }
}

} // verus!
