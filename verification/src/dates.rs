//! An older offset reader kept beside the line parser: it insists on
//! the `UTC` prefix and captures the digits alone, so the sign,
//! though required, never reaches the returned value.

use vstd::prelude::*;

use crate::strutil::{all_digits, char_digit, dec_value, is_digit};
use crate::timezones::ParseError;

verus! {

/// Whether `s` is `UTC`, a sign, and one or two digits.
pub open spec fn utc_offset_line(s: Seq<char>) -> bool {
    &&& 5 <= s.len() <= 6
    &&& s[0] == 'U' && s[1] == 'T' && s[2] == 'C'
    &&& (s[3] == '+' || s[3] == '-')
    &&& all_digits(s.skip(4))
}

/// The magnitude the digits spell.
pub open spec fn utc_offset_value(s: Seq<char>) -> int {
    dec_value(s.skip(4))
}

/// Reads a `UTC`-prefixed offset; the digits alone decide the value.
pub fn parse_timezone_offset(timezone_offset: &str) -> (r: Result<i8, ParseError>)
    ensures
        r is Ok <==> utc_offset_line(timezone_offset@),
        r is Ok ==> r->Ok_0 as int == utc_offset_value(timezone_offset@),
        r is Err ==> r->Err_0 is InvalidFormat,
{
    let v = crate::codec::str_to_chars(timezone_offset);
    let n = v.len();
    if n < 5 || n > 6 {
        return Err(ParseError::InvalidFormat);
    }
    if !(v[0] == 'U' && v[1] == 'T' && v[2] == 'C') {
        return Err(ParseError::InvalidFormat);
    }
    if !(v[3] == '+' || v[3] == '-') {
        return Err(ParseError::InvalidFormat);
    }
    let ghost d = timezone_offset@.skip(4);
    let c1 = v[4];
    let u1 = c1 as u32;
    if !(48 <= u1 && u1 <= 57) {
        proof {
            assert(d[0] == c1);
        }
        return Err(ParseError::InvalidFormat);
    }
    if n == 5 {
        proof {
            assert(d.len() == 1);
            assert(d[0] == c1);
            assert(d.drop_last() =~= Seq::<char>::empty());
            assert(d.last() == c1);
            assert(dec_value(d) == dec_value(d.drop_last()) * 10 + char_digit(d.last()));
            assert(dec_value(Seq::<char>::empty()) == 0);
            assert forall|q: int| 0 <= q < d.len() implies is_digit(#[trigger] d[q]) by {}
        }
        return Ok((u1 - 48) as i8);
    }
    let c2 = v[5];
    let u2 = c2 as u32;
    if !(48 <= u2 && u2 <= 57) {
        proof {
            assert(d[1] == c2);
        }
        return Err(ParseError::InvalidFormat);
    }
    proof {
        assert(d.len() == 2);
        assert(d[0] == c1 && d[1] == c2);
        assert(d.drop_last() =~= seq![c1]);
        assert(d.last() == c2);
        assert(dec_value(d) == dec_value(d.drop_last()) * 10 + char_digit(d.last()));
        assert(dec_value(seq![c1]) == dec_value(seq![c1].drop_last()) * 10 + char_digit(
            seq![c1].last(),
        ));
        assert(seq![c1].drop_last() =~= Seq::<char>::empty());
        assert(seq![c1].last() == c1);
        assert(dec_value(Seq::<char>::empty()) == 0);
        assert forall|q: int| 0 <= q < d.len() implies is_digit(#[trigger] d[q]) by {
            if q != 0 {
                assert(d[1] == c2);
            }
        }
    }
    Ok(((u1 - 48) * 10 + (u2 - 48)) as i8)
}

} // verus!
