use vstd::prelude::*;

verus! {

/// Why a request path could not be decoded.
#[derive(Clone, Copy, Debug, PartialEq, Eq, Structural)]
pub enum UrlDecodeError {
    /// A `%` not followed by two hexadecimal digits.
    InvalidPercentEncoding,
}

pub open spec fn is_hex_digit(b: u8) -> bool {
    (0x30 <= b <= 0x39) || (0x41 <= b <= 0x46) || (0x61 <= b <= 0x66)
}

pub open spec fn hex_value(b: u8) -> u8 {
    if 0x30 <= b <= 0x39 {
        (b - 0x30) as u8
    } else if 0x41 <= b <= 0x46 {
        (b - 0x41 + 10) as u8
    } else {
        (b - 0x61 + 10) as u8
    }
}

/// Percent-decoding of `s`: `%XY` stands for the byte of hexadecimal value XY,
/// every other byte for itself. None when a `%` lacks its two digits.
pub open spec fn percent_decode(s: Seq<u8>) -> Option<Seq<u8>>
    decreases s.len(),
{
    if s.len() == 0 {
        Some(Seq::empty())
    } else if s[0] == 0x25u8 {
        if s.len() >= 3 && is_hex_digit(s[1]) && is_hex_digit(s[2]) {
            match percent_decode(s.skip(3)) {
                Some(rest) => Some(seq![(hex_value(s[1]) * 16 + hex_value(s[2])) as u8] + rest),
                None => None,
            }
        } else {
            None
        }
    } else {
        match percent_decode(s.skip(1)) {
            Some(rest) => Some(seq![s[0]] + rest),
            None => None,
        }
    }
}

fn hex_digit(b: u8) -> (r: Option<u8>)
    ensures
        r == (if is_hex_digit(b) {
            Some(hex_value(b))
        } else {
            None::<u8>
        }),
{
    if 0x30 <= b && b <= 0x39 {
        Some(b - 0x30)
    } else if 0x41 <= b && b <= 0x46 {
        Some(b - 0x41 + 10)
    } else if 0x61 <= b && b <= 0x66 {
        Some(b - 0x61 + 10)
    } else {
        None
    }
}

/// Decodes the percent-escapes of a request path.
pub fn url_decode(s: &[u8]) -> (r: Result<Vec<u8>, UrlDecodeError>)
    ensures
        match percent_decode(s@) {
            Some(d) => r is Ok && r->Ok_0@ == d,
            None => r == Err::<Vec<u8>, UrlDecodeError>(UrlDecodeError::InvalidPercentEncoding),
        },
{
    let mut out: Vec<u8> = Vec::new();
    let mut i: usize = 0;
    proof {
        assert(s@.skip(0) =~= s@);
        assert forall|rest: Seq<u8>| #![auto] out@ + rest =~= rest by {}
    }
    while i < s.len()
        invariant
            i <= s@.len(),
            percent_decode(s@) == match percent_decode(s@.skip(i as int)) {
                Some(rest) => Some(out@ + rest),
                None => None::<Seq<u8>>,
            },
        decreases s@.len() - i,
    {
        let ghost t = s@.skip(i as int);
        if s[i] == 0x25u8 {
            if s.len() - i > 2 {
                let hi = hex_digit(s[i + 1]);
                let lo = hex_digit(s[i + 2]);
                match (hi, lo) {
                    (Some(h), Some(l)) => {
                        assert(t.skip(3) =~= s@.skip(i + 3));
                        let v: u8 = h * 16 + l;
                        let ghost prev = out@;
                        out.push(v);
                        proof {
                            assert forall|rest: Seq<u8>|
                                #![auto]
                                prev + (seq![v] + rest) =~= out@ + rest by {}
                        }
                        i = i + 3;
                    },
                    _ => {
                        return Err(UrlDecodeError::InvalidPercentEncoding);
                    },
                }
            } else {
                return Err(UrlDecodeError::InvalidPercentEncoding);
            }
        } else {
            assert(t.skip(1) =~= s@.skip(i + 1));
            let ghost prev = out@;
            out.push(s[i]);
            proof {
                assert forall|rest: Seq<u8>| #![auto] prev + (seq![s@[i as int]] + rest) =~= out@ + rest by {}
            }
            i = i + 1;
        }
    }
    assert(s@.skip(i as int) =~= Seq::<u8>::empty());
    assert(out@ + Seq::<u8>::empty() =~= out@);
    Ok(out)
}

} // verus!
