//! The input-line grammar: `name,offset` where the name is any
//! non-empty run of characters without a comma, and the offset is an
//! optional literal `UTC`, a sign, and one or two decimal digits.
//!
//! The whole line must match; the grammar puts no range limit on the
//! offset beyond its two digits.

use vstd::prelude::*;

use crate::strutil::{all_digits, char_digit, dec_value, is_digit};

verus! {

/// Whether some character of `s` is a comma.
pub open spec fn has_comma(s: Seq<char>) -> bool {
    exists|i: int| 0 <= i < s.len() && s[i] == ','
}

/// The position of the first comma.
pub open spec fn first_comma(s: Seq<char>) -> int
    decreases s.len(),
{
    if s.len() == 0 {
        0
    } else if s[0] == ',' {
        0
    } else {
        1 + first_comma(s.drop_first())
    }
}

/// If nothing before `i` is a comma and `s[i]` is one, `i` is the
/// first comma.
pub proof fn lemma_first_comma_at(s: Seq<char>, i: int)
    requires
        0 <= i < s.len(),
        s[i] == ',',
        forall|j: int| 0 <= j < i ==> s[j] != ',',
    ensures
        has_comma(s),
        first_comma(s) == i,
    decreases s.len(),
{
    if i == 0 {
    } else {
        let s2 = s.drop_first();
        assert(s2[i - 1] == s[i]);
        assert(forall|j: int| 0 <= j < i - 1 ==> s2[j] == s[j + 1]);
        lemma_first_comma_at(s2, i - 1);
    }
}

/// Whether `t` is a sign and one or two digits.
pub open spec fn sign_digits(t: Seq<char>) -> bool {
    &&& 2 <= t.len() <= 3
    &&& (t[0] == '+' || t[0] == '-')
    &&& all_digits(t.skip(1))
}

/// Whether `t` is a valid offset text: an optional `UTC`, a sign, one
/// or two digits.
pub open spec fn offset_text(t: Seq<char>) -> bool {
    if t.len() >= 3 && t[0] == 'U' && t[1] == 'T' && t[2] == 'C' {
        sign_digits(t.skip(3))
    } else {
        sign_digits(t)
    }
}

/// The signed value of a valid offset text.
pub open spec fn offset_value(t: Seq<char>) -> int {
    let u = if t.len() >= 3 && t[0] == 'U' && t[1] == 'T' && t[2] == 'C' {
        t.skip(3)
    } else {
        t
    };
    if u[0] == '-' {
        -dec_value(u.skip(1))
    } else {
        dec_value(u.skip(1))
    }
}

/// Whether a whole line matches the grammar: a non-empty name, the
/// first comma, and a valid offset text after it.
pub open spec fn valid_line(s: Seq<char>) -> bool {
    &&& has_comma(s)
    &&& first_comma(s) > 0
    &&& offset_text(s.skip(first_comma(s) + 1))
}

/// The name part of a valid line: everything before the first comma.
pub open spec fn parsed_name(s: Seq<char>) -> Seq<char> {
    s.take(first_comma(s))
}

/// The offset part of a valid line.
pub open spec fn parsed_offset(s: Seq<char>) -> int {
    offset_value(s.skip(first_comma(s) + 1))
}

/// Why a line was not accepted.
#[derive(Clone, Copy, PartialEq, Eq, Structural, Debug)]
pub enum ParseError {
    /// No comma, an empty name, or a malformed offset tail.
    InvalidFormat,
    /// The numeric part did not yield an integer; unreachable under
    /// this grammar, kept distinct for diagnostics.
    InvalidOffset,
}

impl ParseError {
    /// The diagnostic text for this error.
    pub fn message(&self) -> (r: String)
        ensures
            self is InvalidFormat ==> r@ == "User/offset not formatted properly."@,
            self is InvalidOffset ==> r@ == "Unable to convert the offset to a valid integer."@,
    {
        match self {
            ParseError::InvalidFormat => "User/offset not formatted properly.".to_owned(),
            ParseError::InvalidOffset => "Unable to convert the offset to a valid integer.".to_owned(),
        }
    }
}

/// Validates if the text inputted contains some username, then a
/// comma, then a timezone. The timezone can come with or without
/// "UTC" at the start.
pub fn validate_user_timezone_str(text: &str) -> (r: bool)
    ensures
        r == valid_line(text@),
{
    match parse_user_timezone(text) {
        Ok(_) => true,
        Err(_) => false,
    }
}

/// Parses the username and timezone offset, after validation: `Ok`
/// exactly on lines the grammar accepts, with the name before the
/// first comma and the signed one- or two-digit offset after it.
pub fn parse_user_timezone(text: &str) -> (r: Result<(String, i64), ParseError>)
    ensures
        r is Ok <==> valid_line(text@),
        r is Ok ==> (r->Ok_0).0@ == parsed_name(text@),
        r is Ok ==> (r->Ok_0).1 as int == parsed_offset(text@),
        r is Ok ==> -99 <= (r->Ok_0).1 <= 99,
        r is Err ==> r->Err_0 is InvalidFormat,
{
    let v = crate::codec::str_to_chars(text);
    let n = v.len();
    let mut fc: usize = 0;
    while fc < n && !(v[fc] == ',')
        invariant
            n == v@.len(),
            v@ == text@,
            0 <= fc <= n,
            forall|j: int| 0 <= j < fc ==> v@[j] != ',',
        decreases n - fc,
    {
        fc += 1;
    }
    if fc == n {
        proof {
            assert(!has_comma(text@));
        }
        return Err(ParseError::InvalidFormat);
    }
    proof {
        lemma_first_comma_at(text@, fc as int);
    }
    if fc == 0 {
        return Err(ParseError::InvalidFormat);
    }
    let ghost tail = text@.skip(fc as int + 1);
    let mut p: usize = fc + 1;
    let ghost p0 = p;
    proof {
        assert(forall|q: int| 0 <= q < tail.len() ==> tail[q] == text@[p0 + q]);
    }
    if n - p >= 3 && v[p] == 'U' && v[p + 1] == 'T' && v[p + 2] == 'C' {
        p = p + 3;
        proof {
            assert(tail.len() >= 3 && tail[0] == 'U' && tail[1] == 'T' && tail[2] == 'C');
        }
    } else {
        proof {
            assert(!(tail.len() >= 3 && tail[0] == 'U' && tail[1] == 'T' && tail[2] == 'C'));
        }
    }
    let ghost u = if tail.len() >= 3 && tail[0] == 'U' && tail[1] == 'T' && tail[2] == 'C' {
        tail.skip(3)
    } else {
        tail
    };
    proof {
        assert(u =~= text@.skip(p as int));
        assert(forall|q: int| 0 <= q < u.len() ==> u[q] == text@[p as int + q]);
    }
    if p >= n {
        proof {
            assert(!offset_text(tail));
        }
        return Err(ParseError::InvalidFormat);
    }
    let sign = v[p];
    if !(sign == '+' || sign == '-') {
        proof {
            assert(u[0] == sign);
            assert(!offset_text(tail));
        }
        return Err(ParseError::InvalidFormat);
    }
    let rest = n - (p + 1);
    let value: i64;
    if rest == 1 {
        let c1 = v[p + 1];
        let u1 = c1 as u32;
        if !(48 <= u1 && u1 <= 57) {
            proof {
                assert(u.skip(1)[0] == c1);
                assert(!all_digits(u.skip(1)));
                assert(!offset_text(tail));
            }
            return Err(ParseError::InvalidFormat);
        }
        value = (u1 - 48) as i64;
        proof {
            let d = u.skip(1);
            assert(d.len() == 1);
            assert(d[0] == c1);
            assert(d.drop_last() =~= Seq::<char>::empty());
            assert(d.last() == c1);
            assert(dec_value(d) == dec_value(d.drop_last()) * 10 + char_digit(d.last()));
            assert(dec_value(Seq::<char>::empty()) == 0);
            assert(dec_value(d) == char_digit(c1));
            assert(all_digits(d));
            assert(sign_digits(u));
        }
    } else if rest == 2 {
        let c1 = v[p + 1];
        let c2 = v[p + 2];
        let u1 = c1 as u32;
        let u2 = c2 as u32;
        if !(48 <= u1 && u1 <= 57) || !(48 <= u2 && u2 <= 57) {
            proof {
                let d = u.skip(1);
                assert(d[0] == c1 && d[1] == c2);
                assert(!all_digits(d) ==> !offset_text(tail));
                if is_digit(c1) && is_digit(c2) {
                    assert forall|q: int| 0 <= q < d.len() implies is_digit(#[trigger] d[q]) by {
                        if q == 0 {
                        } else {
                            assert(d[1] == c2);
                        }
                    }
                }
            }
            return Err(ParseError::InvalidFormat);
        }
        value = ((u1 - 48) * 10 + (u2 - 48)) as i64;
        proof {
            let d = u.skip(1);
            assert(d.len() == 2);
            assert(d[0] == c1 && d[1] == c2);
            assert(d.drop_last() =~= seq![c1]);
            assert(d.last() == c2);
            assert(seq![c1].drop_last() =~= Seq::<char>::empty());
            assert(seq![c1].last() == c1);
            assert(dec_value(d) == dec_value(d.drop_last()) * 10 + char_digit(d.last()));
            assert(dec_value(seq![c1]) == dec_value(seq![c1].drop_last()) * 10 + char_digit(
                seq![c1].last(),
            ));
            assert(dec_value(Seq::<char>::empty()) == 0);
            assert(dec_value(d) == char_digit(c1) * 10 + char_digit(c2));
            assert forall|q: int| 0 <= q < d.len() implies is_digit(#[trigger] d[q]) by {
                if q == 0 {
                } else {
                    assert(d[1] == c2);
                }
            }
            assert(sign_digits(u));
        }
    } else {
        proof {
            assert(u.len() != 2 && u.len() != 3);
            assert(!sign_digits(u));
            assert(!offset_text(tail));
        }
        return Err(ParseError::InvalidFormat);
    }
    let offset: i64 = if sign == '-' {
        -value
    } else {
        value
    };
    let name = text.substring_char(0, fc).to_owned();
    proof {
        assert(valid_line(text@));
        assert(name@ == parsed_name(text@));
        assert(u[0] == sign);
        assert(offset as int == offset_value(tail));
    }
    Ok((name, offset))
}

} // verus!
