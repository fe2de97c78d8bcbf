//! Text form of the persisted store: a brace-delimited mapping with
//! quoted, escaped keys and signed decimal values, the shape a JSON
//! object of string keys and integer values takes.
//!
//! Both directions are here — `render_storage` writes the canonical
//! text, `parse_storage` reads it back — together with the proof that
//! parsing inverts rendering for every well-formed mapping.

use vstd::prelude::*;

use crate::strutil::{
    all_digits, char_digit, char_to_string, dec_digits, dec_value, digit_char, i64_to_string,
    int_string, is_digit, lemma_dec_digits_value, lemma_dec_digits_wf, push_char,
};

verus! {

/// The mathematical content of a list of store entries: each name as a
/// character sequence beside its offset.
pub open spec fn entries_view(items: Seq<(String, i64)>) -> Seq<(Seq<char>, int)> {
    Seq::new(items.len(), |i: int| (items[i].0@, items[i].1 as int))
}

/// No two entries share a name.
pub open spec fn unique_keys(m: Seq<(Seq<char>, int)>) -> bool {
    forall|i: int, j: int| 0 <= i < j < m.len() ==> (#[trigger] m[i]).0 != (#[trigger] m[j]).0
}

/// Every value fits a 64-bit signed integer.
pub open spec fn values_in_range(m: Seq<(Seq<char>, int)>) -> bool {
    forall|i: int| 0 <= i < m.len() ==> i64::MIN <= (#[trigger] m[i]).1 <= i64::MAX
}

/// The lower-case hex digit character for a value below sixteen.
pub open spec fn hex_char(d: int) -> char {
    if d < 10 {
        digit_char(d)
    } else if d == 10 {
        'a'
    } else if d == 11 {
        'b'
    } else if d == 12 {
        'c'
    } else if d == 13 {
        'd'
    } else if d == 14 {
        'e'
    } else {
        'f'
    }
}

/// Whether `c` is a hex digit, upper or lower case.
pub open spec fn is_hex_digit(c: char) -> bool {
    is_digit(c) || 97 <= c as u32 <= 102 || 65 <= c as u32 <= 70
}

/// The numeric value of a hex digit character.
pub open spec fn hex_value(c: char) -> int {
    if is_digit(c) {
        char_digit(c)
    } else if 97 <= c as u32 <= 102 {
        c as u32 - 87
    } else {
        c as u32 - 55
    }
}

/// The escaped form of one key character: quote and backslash get a
/// backslash, control characters become a four-digit hex escape, and
/// everything else stands as itself.
pub open spec fn enc_char(c: char) -> Seq<char> {
    if c == '"' {
        seq!['\\', '"']
    } else if c == '\\' {
        seq!['\\', '\\']
    } else if (c as u32) < 32 {
        seq!['\\', 'u', '0', '0', hex_char(c as u32 as int / 16), hex_char(c as u32 as int % 16)]
    } else {
        seq![c]
    }
}

/// The escaped form of a whole key.
pub open spec fn enc_str(s: Seq<char>) -> Seq<char>
    decreases s.len(),
{
    if s.len() == 0 {
        Seq::empty()
    } else {
        enc_char(s[0]) + enc_str(s.drop_first())
    }
}

/// The text of one entry: the quoted, escaped name, a colon, the value.
pub open spec fn entry_text(e: (Seq<char>, int)) -> Seq<char> {
    seq!['"'] + enc_str(e.0) + seq!['"', ':'] + int_string(e.1)
}

/// The comma-separated texts of a list of entries.
pub open spec fn entries_text(m: Seq<(Seq<char>, int)>) -> Seq<char>
    decreases m.len(),
{
    if m.len() == 0 {
        Seq::empty()
    } else if m.len() == 1 {
        entry_text(m[0])
    } else {
        entry_text(m[0]) + seq![','] + entries_text(m.drop_first())
    }
}

/// The full text of a mapping.
pub open spec fn map_text(m: Seq<(Seq<char>, int)>) -> Seq<char> {
    seq!['{'] + entries_text(m) + seq!['}']
}

/// The character a short escape stands for, if the letter is one.
pub open spec fn esc_short(e: char) -> Option<char> {
    if e == '"' {
        Some('"')
    } else if e == '\\' {
        Some('\\')
    } else if e == '/' {
        Some('/')
    } else if e == 'b' {
        Some(8 as char)
    } else if e == 'f' {
        Some(12 as char)
    } else if e == 'n' {
        Some(10 as char)
    } else if e == 'r' {
        Some(13 as char)
    } else if e == 't' {
        Some(9 as char)
    } else {
        None
    }
}

/// Reads the inside of a quoted string from position `i` up to and over
/// the closing quote; yields the decoded characters and the position
/// just past the quote.
pub open spec fn sp_chars(s: Seq<char>, i: int) -> Option<(Seq<char>, int)>
    decreases s.len() - i,
{
    if i < 0 || i >= s.len() {
        None
    } else if s[i] == '"' {
        Some((Seq::empty(), i + 1))
    } else if s[i] == '\\' {
        if i + 2 > s.len() {
            None
        } else if esc_short(s[i + 1]) is Some {
            match sp_chars(s, i + 2) {
                Some((t, j)) => Some((seq![esc_short(s[i + 1])->0] + t, j)),
                None => None,
            }
        } else if s[i + 1] == 'u' {
            if i + 6 > s.len() {
                None
            } else if s[i + 2] == '0' && s[i + 3] == '0' && is_hex_digit(s[i + 4]) && is_hex_digit(
                s[i + 5],
            ) {
                let v = hex_value(s[i + 4]) * 16 + hex_value(s[i + 5]);
                match sp_chars(s, i + 6) {
                    Some((t, j)) => Some((seq![(v as u32) as char] + t, j)),
                    None => None,
                }
            } else {
                None
            }
        } else {
            None
        }
    } else {
        match sp_chars(s, i + 1) {
            Some((t, j)) => Some((seq![s[i]] + t, j)),
            None => None,
        }
    }
}

/// Reads a run of digits from position `i`, folding them onto `acc`;
/// stops at the first non-digit.
pub open spec fn sp_digits(s: Seq<char>, i: int, acc: int) -> (int, int)
    decreases s.len() - i,
{
    if 0 <= i < s.len() && is_digit(s[i]) {
        sp_digits(s, i + 1, acc * 10 + char_digit(s[i]))
    } else {
        (acc, i)
    }
}

/// Reads a signed decimal integer from position `i`: an optional minus
/// sign, then digits without a leading zero, of a value that fits an
/// `i64`.
pub open spec fn sp_int(s: Seq<char>, i: int) -> Option<(int, int)> {
    if 0 <= i < s.len() && s[i] == '-' {
        match sp_int_digits(s, i + 1) {
            Some((v, j)) => if -v >= i64::MIN {
                Some((-v, j))
            } else {
                None
            },
            None => None,
        }
    } else {
        match sp_int_digits(s, i) {
            Some((v, j)) => if v <= i64::MAX {
                Some((v, j))
            } else {
                None
            },
            None => None,
        }
    }
}

/// Reads an unsigned digit run from position `i`, rejecting leading
/// zeros and runs too long to fit a 64-bit value.
pub open spec fn sp_int_digits(s: Seq<char>, i: int) -> Option<(int, int)> {
    if 0 <= i < s.len() && is_digit(s[i]) {
        let (v, j) = sp_digits(s, i, 0);
        if s[i] == '0' && j > i + 1 {
            None
        } else if j - i > 19 {
            None
        } else {
            Some((v, j))
        }
    } else {
        None
    }
}

/// Reads one `"name":value` entry from position `i`.
pub open spec fn sp_entry(s: Seq<char>, i: int) -> Option<((Seq<char>, int), int)> {
    if 0 <= i < s.len() && s[i] == '"' {
        match sp_chars(s, i + 1) {
            Some((k, j)) => if j < s.len() && s[j] == ':' {
                match sp_int(s, j + 1) {
                    Some((v, l)) => Some(((k, v), l)),
                    None => None,
                }
            } else {
                None
            },
            None => None,
        }
    } else {
        None
    }
}

/// Reads one or more comma-separated entries from position `i`.
pub open spec fn sp_entries(s: Seq<char>, i: int) -> Option<(Seq<(Seq<char>, int)>, int)>
    decreases s.len() - i,
{
    match sp_entry(s, i) {
        Some((e, j)) => if j <= i || j > s.len() {
            None
        } else if j < s.len() && s[j] == ',' {
            match sp_entries(s, j + 1) {
                Some((es, l)) => Some((seq![e] + es, l)),
                None => None,
            }
        } else {
            Some((seq![e], j))
        },
        None => None,
    }
}

/// Reads a whole mapping: braces around zero or more entries, with
/// nothing after the closing brace.
pub open spec fn sp_map(s: Seq<char>) -> Option<Seq<(Seq<char>, int)>> {
    if s.len() >= 2 && s[0] == '{' {
        if s.len() == 2 && s[1] == '}' {
            Some(Seq::empty())
        } else {
            match sp_entries(s, 1) {
                Some((es, j)) => if j == s.len() - 1 && s[j] == '}' {
                    Some(es)
                } else {
                    None
                },
                None => None,
            }
        }
    } else {
        None
    }
}

/// Appending one entry extends the rendered text on the right.
proof fn lemma_entries_text_push(m: Seq<(Seq<char>, int)>, e: (Seq<char>, int))
    ensures
        entries_text(m.push(e)) == if m.len() == 0 {
            entry_text(e)
        } else {
            entries_text(m) + seq![','] + entry_text(e)
        },
    decreases m.len(),
{
    if m.len() == 0 {
        assert(m.push(e)[0] == e);
        assert(m.push(e).len() == 1);
        assert(entries_text(m.push(e)) == entry_text(e));
    } else {
        lemma_entries_text_push(m.drop_first(), e);
        assert(m.push(e).drop_first() =~= m.drop_first().push(e));
        assert(m.push(e)[0] == m[0]);
        if m.len() == 1 {
            assert(m.drop_first().len() == 0);
            assert(entries_text(m.push(e)) == entry_text(m[0]) + seq![','] + entry_text(e));
            assert(entries_text(m) == entry_text(m[0]));
        } else {
            assert(entries_text(m.push(e)) == entry_text(m[0]) + seq![','] + (entries_text(
                m.drop_first(),
            ) + seq![','] + entry_text(e)));
            assert(entries_text(m) + seq![','] + entry_text(e) == (entry_text(m[0]) + seq![',']
                + entries_text(m.drop_first())) + seq![','] + entry_text(e));
            assert(entry_text(m[0]) + seq![','] + (entries_text(m.drop_first()) + seq![',']
                + entry_text(e)) =~= (entry_text(m[0]) + seq![','] + entries_text(m.drop_first()))
                + seq![','] + entry_text(e));
        }
    }
}

/// Escaping distributes over extension on the right.
proof fn lemma_enc_str_push(s: Seq<char>, c: char)
    ensures
        enc_str(s.push(c)) == enc_str(s) + enc_char(c),
    decreases s.len(),
{
    if s.len() == 0 {
        assert(enc_str(s.push(c)) == enc_char(s.push(c)[0]) + enc_str(s.push(c).drop_first()));
        assert(s.push(c)[0] == c);
        assert(s.push(c).drop_first() =~= Seq::<char>::empty());
        assert(enc_str(Seq::<char>::empty()) == Seq::<char>::empty());
        assert(enc_str(s.push(c)) == enc_char(c) + Seq::<char>::empty());
        assert(enc_char(c) + Seq::<char>::empty() =~= enc_char(c));
        assert(enc_str(s) + enc_char(c) =~= enc_char(c));
    } else {
        lemma_enc_str_push(s.drop_first(), c);
        assert(s.push(c)[0] == s[0]);
        assert(s.push(c).drop_first() =~= s.drop_first().push(c));
        assert(enc_str(s.push(c)) == enc_char(s[0]) + (enc_str(s.drop_first()) + enc_char(c)));
        assert(enc_char(s[0]) + (enc_str(s.drop_first()) + enc_char(c)) =~= (enc_char(s[0])
            + enc_str(s.drop_first())) + enc_char(c));
    }
}

/// Whether the text `t` stands letter for letter inside `s` at
/// position `i`.
pub open spec fn matches_at(s: Seq<char>, i: int, t: Seq<char>) -> bool {
    &&& 0 <= i
    &&& i + t.len() <= s.len()
    &&& forall|q: int| 0 <= q < t.len() ==> s[i + q] == #[trigger] t[q]
}

/// A text matches in two halves.
proof fn lemma_matches_split(s: Seq<char>, i: int, a: Seq<char>, b: Seq<char>)
    requires
        matches_at(s, i, a + b),
    ensures
        matches_at(s, i, a),
        matches_at(s, i + a.len(), b),
{
    assert forall|q: int| 0 <= q < a.len() implies s[i + q] == #[trigger] a[q] by {
        assert((a + b)[q] == a[q]);
        assert(s[i + q] == (a + b)[q]);
    }
    assert forall|q: int| 0 <= q < b.len() implies s[i + a.len() + q] == #[trigger] b[q] by {
        assert((a + b)[a.len() + q] == b[q]);
        assert(s[i + (a.len() + q)] == (a + b)[a.len() + q]);
    }
}

/// Ten to the `n`.
pub open spec fn pow10(n: nat) -> int
    decreases n,
{
    if n == 0 {
        1
    } else {
        10 * pow10((n - 1) as nat)
    }
}

/// Powers of ten are positive.
proof fn lemma_pow10_pos(n: nat)
    ensures
        pow10(n) >= 1,
    decreases n,
{
    if n > 0 {
        lemma_pow10_pos((n - 1) as nat);
    }
}

/// The value of a digit string read from the front.
proof fn lemma_dec_value_front(t: Seq<char>)
    requires
        t.len() > 0,
    ensures
        dec_value(t) == char_digit(t[0]) * pow10((t.len() - 1) as nat) + dec_value(t.drop_first()),
    decreases t.len(),
{
    if t.len() == 1 {
        assert(t.drop_last() =~= Seq::<char>::empty());
        assert(t.drop_first() =~= Seq::<char>::empty());
        assert(t.last() == t[0]);
        assert(dec_value(t) == dec_value(t.drop_last()) * 10 + char_digit(t.last()));
        assert(dec_value(Seq::<char>::empty()) == 0);
        assert(pow10(0) == 1);
        assert(dec_value(t) == char_digit(t[0]) * pow10((t.len() - 1) as nat) + dec_value(
            t.drop_first(),
        ));
    } else {
        let u = t.drop_last();
        lemma_dec_value_front(u);
        assert(u[0] == t[0]);
        assert(u.drop_first() =~= t.drop_first().drop_last());
        assert(t.drop_first().last() == t.last());
        assert(t.drop_first().len() > 0);
        assert(dec_value(t.drop_first()) == dec_value(t.drop_first().drop_last()) * 10
            + char_digit(t.drop_first().last()));
        assert(dec_value(t) == dec_value(u) * 10 + char_digit(t.last()));
        let a = char_digit(t[0]);
        let p = pow10((t.len() - 2) as nat);
        assert(pow10((t.len() - 1) as nat) == 10 * p);
        assert(dec_value(u) == a * p + dec_value(u.drop_first()));
        assert((a * p + dec_value(u.drop_first())) * 10 == a * (10 * p) + dec_value(
            u.drop_first(),
        ) * 10) by (nonlinear_arith);
        assert(dec_value(t) == a * (10 * p) + dec_value(u.drop_first()) * 10 + char_digit(
            t.last(),
        ));
        assert(dec_value(t) == a * (10 * p) + dec_value(t.drop_first()));
    }
}

/// Reading a matched digit run folds its value onto the accumulator.
proof fn lemma_sp_digits_match(s: Seq<char>, i: int, d: Seq<char>, acc: int)
    requires
        matches_at(s, i, d),
        all_digits(d),
        i + d.len() == s.len() || !is_digit(s[i + d.len()]),
    ensures
        sp_digits(s, i, acc) == (acc * pow10(d.len()) + dec_value(d), i + d.len()),
    decreases d.len(),
{
    if d.len() == 0 {
        assert(sp_digits(s, i, acc) == (acc, i));
        assert(acc * 1 == acc) by (nonlinear_arith);
    } else {
        assert(s[i] == d[0]);
        assert(is_digit(s[i]));
        let acc2 = acc * 10 + char_digit(d[0]);
        let d2 = d.drop_first();
        assert(matches_at(s, i + 1, d2)) by {
            assert forall|q: int| 0 <= q < d2.len() implies s[i + 1 + q] == #[trigger] d2[q] by {
                assert(d2[q] == d[q + 1]);
                assert(s[i + (q + 1)] == d[q + 1]);
            }
        }
        lemma_sp_digits_match(s, i + 1, d2, acc2);
        assert(sp_digits(s, i, acc) == sp_digits(s, i + 1, acc2));
        lemma_dec_value_front(d);
        let p = pow10(d2.len());
        assert(pow10(d.len()) == 10 * p);
        assert((acc * 10 + char_digit(d[0])) * p == acc * (10 * p) + char_digit(d[0]) * p)
            by (nonlinear_arith);
    }
}

/// A positive number's digits do not begin with zero.
proof fn lemma_dec_digits_first(n: nat)
    requires
        n > 0,
    ensures
        dec_digits(n)[0] != '0',
    decreases n,
{
    if n < 10 {
    } else {
        lemma_dec_digits_first(n / 10);
        lemma_dec_digits_wf(n / 10);
        assert(dec_digits(n)[0] == dec_digits(n / 10)[0]);
    }
}

/// A number's digit count is bounded by its magnitude.
proof fn lemma_dec_digits_len(n: nat)
    requires
        n > 0,
    ensures
        pow10((dec_digits(n).len() - 1) as nat) <= n,
    decreases n,
{
    lemma_dec_digits_wf(n);
    if n < 10 {
    } else {
        lemma_dec_digits_len(n / 10);
        lemma_dec_digits_wf(n / 10);
        let l = dec_digits(n / 10).len();
        assert(dec_digits(n).len() == l + 1);
        assert(pow10(l as nat) == 10 * pow10((l - 1) as nat));
        assert(10 * pow10((l - 1) as nat) <= 10 * (n / 10));
    }
}

/// Every signed 64-bit magnitude fits in nineteen digits.
proof fn lemma_dec_digits_len19(n: nat)
    requires
        n <= 0x8000000000000000,
    ensures
        dec_digits(n).len() <= 19,
{
    lemma_dec_digits_wf(n);
    if n == 0 {
    } else {
        lemma_dec_digits_len(n);
        let l = dec_digits(n).len();
        if l > 19 {
            assert(pow10((l - 1) as nat) >= pow10(19)) by {
                lemma_pow10_mono(19, (l - 1) as nat);
            }
            assert(pow10(19) == 10000000000000000000) by {
                reveal_with_fuel(pow10, 21);
            }
        }
    }
}

/// Powers of ten grow with the exponent.
proof fn lemma_pow10_mono(a: nat, b: nat)
    requires
        a <= b,
    ensures
        pow10(a) <= pow10(b),
    decreases b,
{
    if a < b {
        lemma_pow10_mono(a, (b - 1) as nat);
        lemma_pow10_pos((b - 1) as nat);
    }
}

/// Reading a matched signed decimal gives back its value.
proof fn lemma_sp_int_match(s: Seq<char>, i: int, v: int)
    requires
        matches_at(s, i, int_string(v)),
        i64::MIN <= v <= i64::MAX,
        i + int_string(v).len() == s.len() || !is_digit(s[i + int_string(v).len()]),
    ensures
        sp_int(s, i) == Some((v, i + int_string(v).len())),
{
    if v >= 0 {
        let d = dec_digits(v as nat);
        lemma_dec_digits_wf(v as nat);
        assert(s[i] == d[0]);
        assert(is_digit(d[0]));
        assert(s[i] != '-') by {
            assert('-' as u32 == 45);
        }
        lemma_sp_digits_match(s, i, d, 0);
        lemma_dec_digits_value(v as nat);
        assert(0 * pow10(d.len()) == 0) by (nonlinear_arith);
        let j = i + d.len();
        if v > 0 {
            lemma_dec_digits_first(v as nat);
            assert(s[i] != '0');
        } else {
            assert(d =~= seq!['0']);
            assert(j == i + 1);
        }
        lemma_dec_digits_len19(v as nat);
        assert(sp_int_digits(s, i) == Some((v, j)));
    } else {
        let m = (-v) as nat;
        let d = dec_digits(m);
        lemma_dec_digits_wf(m);
        assert(int_string(v) == seq!['-'] + d);
        assert(s[i] == (seq!['-'] + d)[0]);
        assert(s[i] == '-');
        assert(matches_at(s, i + 1, d)) by {
            lemma_matches_split(s, i, seq!['-'], d);
        }
        lemma_sp_digits_match(s, i + 1, d, 0);
        lemma_dec_digits_value(m);
        assert(0 * pow10(d.len()) == 0) by (nonlinear_arith);
        let j = i + 1 + d.len();
        lemma_dec_digits_first(m);
        assert(s[i + 1] == d[0]);
        lemma_dec_digits_len19(m);
        assert(sp_int_digits(s, i + 1) == Some((m as int, j)));
        assert(sp_int(s, i) == Some((v, j)));
    }
}

/// A hex digit written by the encoder reads back as itself.
proof fn lemma_hex_roundtrip(d: int)
    requires
        0 <= d < 16,
    ensures
        is_hex_digit(hex_char(d)),
        hex_value(hex_char(d)) == d,
{
}

/// Reading a matched escaped key, closing quote included, gives back
/// the key.
proof fn lemma_sp_chars_enc(s: Seq<char>, i: int, k: Seq<char>)
    requires
        matches_at(s, i, enc_str(k) + seq!['"']),
    ensures
        sp_chars(s, i) == Some((k, i + enc_str(k).len() + 1)),
    decreases k.len(),
{
    broadcast use vstd::utf8::char_u32_cast;

    if k.len() == 0 {
        assert(enc_str(k) + seq!['"'] =~= seq!['"']);
        assert(s[i] == (seq!['"'])[0]);
        assert(sp_chars(s, i) == Some((Seq::<char>::empty(), i + 1)));
        assert(Seq::<char>::empty() =~= k);
    } else {
        let c = k[0];
        let k2 = k.drop_first();
        assert(enc_str(k) == enc_char(c) + enc_str(k2));
        assert((enc_char(c) + enc_str(k2)) + seq!['"'] =~= enc_char(c) + (enc_str(k2)
            + seq!['"']));
        lemma_matches_split(s, i, enc_char(c), enc_str(k2) + seq!['"']);
        let i2 = i + enc_char(c).len();
        lemma_sp_chars_enc(s, i2, k2);
        let tail = Some((k2, i2 + enc_str(k2).len() + 1));
        assert(sp_chars(s, i2) == tail);
        if c == '"' {
            assert(s[i] == '\\' && s[i + 1] == '"');
            assert(esc_short(s[i + 1]) == Some('"'));
            assert(sp_chars(s, i) == Some((seq!['"'] + k2, i2 + enc_str(k2).len() + 1)));
            assert(seq!['"'] + k2 =~= k);
        } else if c == '\\' {
            assert(s[i] == '\\' && s[i + 1] == '\\');
            assert(esc_short(s[i + 1]) == Some('\\'));
            assert(seq!['\\'] + k2 =~= k);
        } else if (c as u32) < 32 {
            assert(s[i] == '\\' && s[i + 1] == 'u' && s[i + 2] == '0' && s[i + 3] == '0');
            let h1 = hex_char(c as u32 as int / 16);
            let h2 = hex_char(c as u32 as int % 16);
            assert(s[i + 4] == h1 && s[i + 5] == h2);
            assert(esc_short('u') is None);
            lemma_hex_roundtrip(c as u32 as int / 16);
            lemma_hex_roundtrip(c as u32 as int % 16);
            let v = hex_value(s[i + 4]) * 16 + hex_value(s[i + 5]);
            assert(v == (c as u32 as int / 16) * 16 + (c as u32 as int % 16));
            vstd::arithmetic::div_mod::lemma_fundamental_div_mod(c as u32 as int, 16);
            assert(v == c as u32);
            assert(v as u32 == c as u32);
            vstd::utf8::char_u32_cast(c, v as u32);
            assert(((v as u32) as char) == c);
            assert(seq![(v as u32) as char] + k2 =~= k);
        } else {
            assert(enc_char(c) == seq![c]);
            assert(enc_char(c)[0] == c);
            assert(s[i + 0] == enc_char(c)[0]);
            assert(s[i] == c);
            assert(s[i] != '"' && s[i] != '\\');
            assert(seq![c] + k2 =~= k);
        }
    }
}

/// Reading a matched entry gives back the entry.
proof fn lemma_sp_entry_match(s: Seq<char>, i: int, e: (Seq<char>, int))
    requires
        matches_at(s, i, entry_text(e)),
        i64::MIN <= e.1 <= i64::MAX,
        i + entry_text(e).len() < s.len(),
        !is_digit(s[i + entry_text(e).len()]),
    ensures
        sp_entry(s, i) == Some((e, i + entry_text(e).len())),
        entry_text(e).len() >= 4,
{
    let k = e.0;
    let v = e.1;
    let quoted = enc_str(k) + seq!['"'];
    assert(entry_text(e) =~= seq!['"'] + (quoted + (seq![':'] + int_string(v))));
    lemma_matches_split(s, i, seq!['"'], quoted + (seq![':'] + int_string(v)));
    assert(s[i] == (seq!['"'])[0]);
    lemma_matches_split(s, i + 1, quoted, seq![':'] + int_string(v));
    lemma_sp_chars_enc(s, i + 1, k);
    let j = i + 1 + enc_str(k).len() + 1;
    lemma_matches_split(s, i + 1 + quoted.len(), seq![':'], int_string(v));
    assert(s[j] == (seq![':'])[0]);
    lemma_sp_int_match(s, j + 1, v);
    assert(sp_entry(s, i) == Some((e, j + 1 + int_string(v).len())));
}

/// Reading matched entries followed by a closing brace gives them all
/// back.
proof fn lemma_sp_entries_match(s: Seq<char>, i: int, m: Seq<(Seq<char>, int)>)
    requires
        m.len() >= 1,
        values_in_range(m),
        matches_at(s, i, entries_text(m)),
        i + entries_text(m).len() < s.len(),
        s[i + entries_text(m).len()] == '}',
    ensures
        sp_entries(s, i) == Some((m, i + entries_text(m).len())),
    decreases m.len(),
{
    assert('}' as u32 == 125);
    assert(',' as u32 == 44);
    if m.len() == 1 {
        assert(entries_text(m) == entry_text(m[0]));
        assert(m[0].1 == m[0].1 && 0 <= 0 < m.len());
        lemma_sp_entry_match(s, i, m[0]);
        let j = i + entry_text(m[0]).len();
        assert(s[j] == '}');
        assert(s[j] != ',');
        assert(sp_entries(s, i) == Some((seq![m[0]], j)));
        assert(seq![m[0]] =~= m);
    } else {
        let m2 = m.drop_first();
        assert(entries_text(m) == entry_text(m[0]) + seq![','] + entries_text(m2));
        assert(entry_text(m[0]) + seq![','] + entries_text(m2) =~= entry_text(m[0]) + (seq![',']
            + entries_text(m2)));
        lemma_matches_split(s, i, entry_text(m[0]), seq![','] + entries_text(m2));
        let j = i + entry_text(m[0]).len();
        lemma_matches_split(s, j, seq![','], entries_text(m2));
        assert(s[j] == (seq![','])[0]);
        assert(!is_digit(s[j]));
        lemma_sp_entry_match(s, i, m[0]);
        assert(values_in_range(m2)) by {
            assert(forall|q: int|
                0 <= q < m2.len() ==> #[trigger] m2[q] == m[q + 1] && i64::MIN <= m[q + 1].1
                    <= i64::MAX);
        }
        lemma_sp_entries_match(s, j + 1, m2);
        assert(sp_entries(s, i) == Some((seq![m[0]] + m2, i + entries_text(m).len())));
        assert(seq![m[0]] + m2 =~= m);
    }
}

/// Parsing inverts rendering: the canonical text of any mapping reads
/// back as exactly that mapping.
pub proof fn lemma_parse_render(m: Seq<(Seq<char>, int)>)
    requires
        values_in_range(m),
    ensures
        sp_map(map_text(m)) == Some(m),
{
    let s = map_text(m);
    assert('{' as u32 == 123 && '}' as u32 == 125 && '"' as u32 == 34);
    if m.len() == 0 {
        assert(entries_text(m) == Seq::<char>::empty());
        assert(s =~= seq!['{', '}']);
        assert(sp_map(s) == Some(Seq::<(Seq<char>, int)>::empty()));
        assert(Seq::<(Seq<char>, int)>::empty() =~= m);
    } else {
        assert(matches_at(s, 0, s)) by {
            assert(forall|q: int| 0 <= q < s.len() ==> s[0 + q] == #[trigger] s[q]);
        }
        assert(s =~= seq!['{'] + (entries_text(m) + seq!['}']));
        lemma_matches_split(s, 0, seq!['{'], entries_text(m) + seq!['}']);
        lemma_matches_split(s, 1, entries_text(m), seq!['}']);
        assert(s[0] == (seq!['{'])[0]);
        assert(s[1 + entries_text(m).len() as int] == (seq!['}'])[0]);
        lemma_sp_entries_match(s, 1, m);
        assert(entries_text(m).len() >= 1) by {
            lemma_sp_entry_match_len(m[0]);
        }
        assert(s.len() > 2);
        assert(sp_map(s) == Some(m));
    }
}

/// An entry's text is never empty.
proof fn lemma_sp_entry_match_len(e: (Seq<char>, int))
    ensures
        entry_text(e).len() >= 4,
{
}

/// The lower-case hex digit character for a value below sixteen.
fn hex_to_char(d: u32) -> (r: char)
    requires
        d < 16,
    ensures
        r == hex_char(d as int),
{
    if d < 10 {
        crate::strutil::digit_to_char(d as u64)
    } else if d == 10 {
        'a'
    } else if d == 11 {
        'b'
    } else if d == 12 {
        'c'
    } else if d == 13 {
        'd'
    } else if d == 14 {
        'e'
    } else {
        'f'
    }
}

/// Appends the escaped form of one character.
fn push_enc_char(out: &mut String, c: char)
    ensures
        final(out)@ == old(out)@ + enc_char(c),
{
    if c == '"' {
        push_char(out, '\\');
        push_char(out, '"');
        proof {
            assert(out@ =~= old(out)@ + enc_char(c));
        }
    } else if c == '\\' {
        push_char(out, '\\');
        push_char(out, '\\');
        proof {
            assert(out@ =~= old(out)@ + enc_char(c));
        }
    } else if (c as u32) < 32 {
        push_char(out, '\\');
        push_char(out, 'u');
        push_char(out, '0');
        push_char(out, '0');
        push_char(out, hex_to_char(c as u32 / 16));
        push_char(out, hex_to_char(c as u32 % 16));
        proof {
            assert(out@ =~= old(out)@ + enc_char(c));
        }
    } else {
        push_char(out, c);
        proof {
            assert(out@ =~= old(out)@ + enc_char(c));
        }
    }
}

/// Appends the escaped form of a whole key.
fn push_enc_str(out: &mut String, k: &str)
    ensures
        final(out)@ == old(out)@ + enc_str(k@),
{
    let n = k.unicode_len();
    let mut i: usize = 0;
    proof {
        assert(k@.take(0) =~= Seq::<char>::empty());
        assert(out@ + enc_str(k@.take(0)) =~= out@);
    }
    while i < n
        invariant
            n == k@.len(),
            0 <= i <= n,
            out@ == old(out)@ + enc_str(k@.take(i as int)),
        decreases n - i,
    {
        let c = k.get_char(i);
        push_enc_char(out, c);
        proof {
            lemma_enc_str_push(k@.take(i as int), c);
            assert(k@.take(i as int).push(c) =~= k@.take(i as int + 1));
            assert(old(out)@ + enc_str(k@.take(i as int)) + enc_char(c) =~= old(out)@ + (enc_str(
                k@.take(i as int),
            ) + enc_char(c)));
        }
        i += 1;
    }
    proof {
        assert(k@.take(n as int) =~= k@);
    }
}

/// The characters of a string, as a vector.
pub fn str_to_chars(s: &str) -> (v: Vec<char>)
    ensures
        v@ == s@,
{
    let n = s.unicode_len();
    let mut v: Vec<char> = Vec::new();
    let mut i: usize = 0;
    while i < n
        invariant
            n == s@.len(),
            0 <= i <= n,
            v@ =~= s@.take(i as int),
        decreases n - i,
    {
        v.push(s.get_char(i));
        i += 1;
        proof {
            assert(v@ =~= s@.take(i as int));
        }
    }
    proof {
        assert(s@.take(n as int) =~= s@);
    }
    v
}

/// Whether `c` is a decimal digit.
fn is_digit_char(c: char) -> (r: bool)
    ensures
        r == is_digit(c),
{
    let u = c as u32;
    48 <= u && u <= 57
}

/// Whether `c` is a hex digit, upper or lower case.
fn is_hex_digit_char(c: char) -> (r: bool)
    ensures
        r == is_hex_digit(c),
{
    let u = c as u32;
    (48 <= u && u <= 57) || (97 <= u && u <= 102) || (65 <= u && u <= 70)
}

/// The numeric value of a hex digit character.
fn hex_digit_value(c: char) -> (r: u32)
    requires
        is_hex_digit(c),
    ensures
        r as int == hex_value(c),
        r < 16,
{
    let u = c as u32;
    if 48 <= u && u <= 57 {
        u - 48
    } else if 97 <= u && u <= 102 {
        u - 87
    } else {
        u - 55
    }
}

/// The character a short escape stands for, if the letter is one.
fn short_escape(e: char) -> (r: Option<char>)
    ensures
        r == esc_short(e),
{
    if e == '"' {
        Some('"')
    } else if e == '\\' {
        Some('\\')
    } else if e == '/' {
        Some('/')
    } else if e == 'b' {
        Some(8u8 as char)
    } else if e == 'f' {
        Some(12u8 as char)
    } else if e == 'n' {
        Some(10u8 as char)
    } else if e == 'r' {
        Some(13u8 as char)
    } else if e == 't' {
        Some(9u8 as char)
    } else {
        None
    }
}

/// Reads a quoted string's inside, starting just past the opening
/// quote.
fn parse_chars(s: &Vec<char>, i: usize) -> (r: Option<(String, usize)>)
    requires
        i <= s@.len(),
    ensures
        match sp_chars(s@, i as int) {
            Some((k, j)) => r is Some && (r->0).0@ == k && (r->0).1 == j,
            None => r is None,
        },
{
    let mut acc = String::new();
    let mut p = i;
    loop
        invariant
            i <= p <= s@.len(),
            match sp_chars(s@, p as int) {
                Some((t, j)) => sp_chars(s@, i as int) == Some::<(Seq<char>, int)>(
                    (acc@ + t, j),
                ),
                None => sp_chars(s@, i as int) is None,
            },
        decreases s@.len() - p,
    {
        if p >= s.len() {
            return None;
        }
        let c = s[p];
        if c == '"' {
            proof {
                assert(acc@ + Seq::<char>::empty() =~= acc@);
            }
            return Some((acc, p + 1));
        }
        if c == '\\' {
            if s.len() - p < 2 {
                return None;
            }
            let e = s[p + 1];
            let short = short_escape(e);
            if let Some(d) = short {
                let ghost accpre = acc@;
                push_char(&mut acc, d);
                proof {
                    if let Some((t, j)) = sp_chars(s@, p as int + 2) {
                        assert(sp_chars(s@, p as int) == Some::<(Seq<char>, int)>(
                            (seq![d] + t, j),
                        ));
                        assert(accpre + (seq![d] + t) =~= acc@ + t);
                    }
                }
                p = p + 2;
            } else if e == 'u' {
                if s.len() - p < 6 {
                    return None;
                }
                if !(s[p + 2] == '0' && s[p + 3] == '0') {
                    return None;
                }
                if !is_hex_digit_char(s[p + 4]) || !is_hex_digit_char(s[p + 5]) {
                    return None;
                }
                let v: u32 = hex_digit_value(s[p + 4]) * 16 + hex_digit_value(s[p + 5]);
                let d = (v as u8) as char;
                proof {
                    assert(v < 256);
                    assert(v as u8 == v);
                    assert(d as u32 == v);
                    vstd::utf8::char_u32_cast(d, v);
                    assert((v as char) == d);
                    assert(hex_value(s@[p as int + 4]) * 16 + hex_value(s@[p as int + 5]) == v);
                }
                let ghost accpre = acc@;
                push_char(&mut acc, d);
                proof {
                    if let Some((t, j)) = sp_chars(s@, p as int + 6) {
                        assert(sp_chars(s@, p as int) == Some::<(Seq<char>, int)>(
                            (seq![d] + t, j),
                        ));
                        assert(accpre + (seq![d] + t) =~= acc@ + t);
                    }
                }
                p = p + 6;
            } else {
                return None;
            }
        } else {
            let ghost accpre = acc@;
            push_char(&mut acc, c);
            proof {
                if let Some((t, j)) = sp_chars(s@, p as int + 1) {
                    assert(sp_chars(s@, p as int) == Some::<(Seq<char>, int)>((seq![c] + t, j)));
                    assert(accpre + (seq![c] + t) =~= acc@ + t);
                }
            }
            p = p + 1;
        }
    }
}

/// Reads an unsigned digit run, rejecting leading zeros and over-long
/// runs.
fn parse_udigits(s: &Vec<char>, i: usize) -> (r: Option<(u64, usize)>)
    requires
        i <= s@.len(),
    ensures
        match sp_int_digits(s@, i as int) {
            Some((v, j)) => r is Some && (r->0).0 as int == v && (r->0).1 == j,
            None => r is None,
        },
{
    if i >= s.len() || !is_digit_char(s[i]) {
        return None;
    }
    let mut end = i;
    while end < s.len() && is_digit_char(s[end])
        invariant
            i <= end <= s@.len(),
            forall|q: int| i <= q < end ==> is_digit(#[trigger] s@[q]),
        decreases s@.len() - end,
    {
        end += 1;
    }
    let ghost d = s@.subrange(i as int, end as int);
    proof {
        assert(matches_at(s@, i as int, d));
        assert(all_digits(d));
        lemma_sp_digits_match(s@, i as int, d, 0);
        assert(0 * pow10(d.len()) == 0) by (nonlinear_arith);
        assert(sp_digits(s@, i as int, 0) == (dec_value(d), end as int));
    }
    if s[i] == '0' && end > i + 1 {
        return None;
    }
    if end - i > 19 {
        return None;
    }
    let mut acc: u64 = 0;
    let mut p = i;
    proof {
        assert(d.take(0) =~= Seq::<char>::empty());
    }
    while p < end
        invariant
            i <= p <= end <= s@.len(),
            end - i <= 19,
            d == s@.subrange(i as int, end as int),
            forall|q: int| i <= q < end ==> is_digit(#[trigger] s@[q]),
            acc as int == dec_value(d.take(p - i)),
            (acc as int) < pow10((p - i) as nat),
        decreases end - p,
    {
        proof {
            lemma_pow10_mono((p - i + 1) as nat, 19);
            assert(pow10(19) == 10000000000000000000) by {
                reveal_with_fuel(pow10, 21);
            }
            assert(acc as int * 10 <= (pow10((p - i) as nat) - 1) * 10) by (nonlinear_arith)
                requires
                    acc as int <= pow10((p - i) as nat) - 1,
            ;
            assert(pow10((p - i + 1) as nat) == 10 * pow10((p - i) as nat));
        }
        let c = s[p];
        let dv = c as u32 - 48;
        proof {
            assert(is_digit(s@[p as int]));
            assert(dv == char_digit(c));
            assert(dv < 10);
            let t1 = d.take(p - i + 1);
            assert(t1.drop_last() =~= d.take(p - i));
            assert(t1.last() == d[p - i]);
            assert(d[p - i] == s@[p as int]);
            assert(dec_value(t1) == dec_value(d.take(p - i)) * 10 + char_digit(c));
        }
        acc = acc * 10 + (dv as u64);
        p += 1;
    }
    proof {
        assert(d.take(end - i) =~= d);
    }
    Some((acc, end))
}

/// Reads a signed decimal value.
fn parse_int(s: &Vec<char>, i: usize) -> (r: Option<(i64, usize)>)
    requires
        i <= s@.len(),
    ensures
        match sp_int(s@, i as int) {
            Some((v, j)) => r is Some && (r->0).0 as int == v && (r->0).1 == j,
            None => r is None,
        },
{
    if i < s.len() && s[i] == '-' {
        match parse_udigits(s, i + 1) {
            Some((m, j)) => {
                if m <= 9223372036854775808u64 {
                    let v: i64 = (-(m as i128)) as i64;
                    proof {
                        assert(v as int == -(m as int));
                    }
                    Some((v, j))
                } else {
                    None
                }
            },
            None => None,
        }
    } else {
        match parse_udigits(s, i) {
            Some((m, j)) => {
                if m <= i64::MAX as u64 {
                    Some((m as i64, j))
                } else {
                    None
                }
            },
            None => None,
        }
    }
}

/// Reads one `"name":value` entry.
fn parse_entry(s: &Vec<char>, i: usize) -> (r: Option<((String, i64), usize)>)
    requires
        i <= s@.len(),
    ensures
        match sp_entry(s@, i as int) {
            Some((e, j)) => r is Some && ((r->0).0).0@ == e.0 && ((r->0).0).1 as int == e.1 && (r->0).1
                == j,
            None => r is None,
        },
{
    if i >= s.len() || !(s[i] == '"') {
        return None;
    }
    match parse_chars(s, i + 1) {
        Some((k, j)) => {
            if j < s.len() && s[j] == ':' {
                match parse_int(s, j + 1) {
                    Some((v, l)) => Some(((k, v), l)),
                    None => None,
                }
            } else {
                None
            }
        },
        None => None,
    }
}

/// Reads one or more comma-separated entries.
fn parse_entries(s: &Vec<char>, i: usize) -> (r: Option<(Vec<(String, i64)>, usize)>)
    requires
        i <= s@.len(),
    ensures
        match sp_entries(s@, i as int) {
            Some((es, j)) => r is Some && entries_view((r->0).0@) == es && (r->0).1 == j,
            None => r is None,
        },
{
    let mut acc: Vec<(String, i64)> = Vec::new();
    let mut p = i;
    loop
        invariant
            i <= p <= s@.len(),
            match sp_entries(s@, p as int) {
                Some((es2, l)) => sp_entries(s@, i as int) == Some::<(Seq<(Seq<char>, int)>, int)>(
                    (entries_view(acc@) + es2, l),
                ),
                None => sp_entries(s@, i as int) is None,
            },
        decreases s@.len() - p,
    {
        let e = parse_entry(s, p);
        match e {
            None => {
                return None;
            },
            Some((pair, j)) => {
                if j <= p || j > s.len() {
                    return None;
                }
                let ghost accpre = acc@;
                let ghost ghost_e = (sp_entry(s@, p as int)->0).0;
                acc.push(pair);
                proof {
                    assert(entries_view(acc@) =~= entries_view(accpre).push(ghost_e));
                }
                if j < s.len() && s[j] == ',' {
                    proof {
                        if let Some((es2, l)) = sp_entries(s@, j as int + 1) {
                            assert(sp_entries(s@, p as int) == Some::<
                                (Seq<(Seq<char>, int)>, int),
                            >((seq![ghost_e] + es2, l)));
                            assert(entries_view(accpre) + (seq![ghost_e] + es2) =~= entries_view(
                                acc@,
                            ) + es2);
                        }
                    }
                    p = j + 1;
                } else {
                    proof {
                        assert(sp_entries(s@, p as int) == Some::<(Seq<(Seq<char>, int)>, int)>(
                            (seq![ghost_e], j as int),
                        ));
                        assert(entries_view(accpre) + seq![ghost_e] =~= entries_view(acc@));
                    }
                    return Some((acc, j));
                }
            },
        }
    }
}

/// Reads a whole mapping from its canonical text shape; `None` on
/// anything malformed.
pub fn parse_storage(s: &str) -> (r: Option<Vec<(String, i64)>>)
    ensures
        match sp_map(s@) {
            Some(m) => r is Some && entries_view(r->0@) == m,
            None => r is None,
        },
{
    let v = str_to_chars(s);
    let n = v.len();
    if n < 2 || !(v[0] == '{') {
        return None;
    }
    if n == 2 && v[1] == '}' {
        proof {
            assert(entries_view(Seq::<(String, i64)>::empty()) =~= Seq::<
                (Seq<char>, int),
            >::empty());
        }
        return Some(Vec::new());
    }
    match parse_entries(&v, 1) {
        Some((es, j)) => {
            if j == n - 1 && v[j] == '}' {
                Some(es)
            } else {
                None
            }
        },
        None => None,
    }
}

/// Writes the canonical text of the given entries.
pub fn render_storage(items: &Vec<(String, i64)>) -> (r: String)
    ensures
        r@ == map_text(entries_view(items@)),
{
    let ghost m = entries_view(items@);
    let mut out = char_to_string('{');
    let mut i: usize = 0;
    proof {
        assert(m.take(0) =~= Seq::<(Seq<char>, int)>::empty());
        assert(out@ =~= seq!['{'] + entries_text(m.take(0)));
    }
    while i < items.len()
        invariant
            m == entries_view(items@),
            0 <= i <= items@.len(),
            m.len() == items@.len(),
            out@ == seq!['{'] + entries_text(m.take(i as int)),
        decreases items@.len() - i,
    {
        if i > 0 {
            push_char(&mut out, ',');
        }
        push_char(&mut out, '"');
        push_enc_str(&mut out, items[i].0.as_str());
        push_char(&mut out, '"');
        push_char(&mut out, ':');
        let v = i64_to_string(items[i].1);
        out.append(v.as_str());
        proof {
            lemma_entries_text_push(m.take(i as int), m[i as int]);
            assert(m.take(i as int).push(m[i as int]) =~= m.take(i as int + 1));
            assert(m[i as int].0 == items@[i as int].0@);
            assert(m[i as int].1 == items@[i as int].1 as int);
            assert(entry_text(m[i as int]) == seq!['"'] + enc_str(items@[i as int].0@) + seq![
                '"',
                ':',
            ] + int_string(items@[i as int].1 as int));
            if i == 0 {
                assert(out@ =~= seq!['{'] + entries_text(m.take(i as int + 1)));
            } else {
                assert(out@ =~= seq!['{'] + entries_text(m.take(i as int + 1)));
            }
        }
        i += 1;
    }
    push_char(&mut out, '}');
    proof {
        assert(m.take(items@.len() as int) =~= m);
        assert(out@ =~= map_text(m));
    }
    out
}

} // verus!
