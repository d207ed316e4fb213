use vstd::prelude::*;

use std::num::ParseIntError;

verus! {

/// Collects the characters of a string slice, in order.
///
/// Trusted: `str::chars` followed by `Iterator::collect`; std documents that `chars` yields
/// the string's characters in order, which is what `s@` denotes.
#[verifier::external_body]
pub fn str_to_chars(s: &str) -> (r: Vec<char>)
    ensures
        r@ == s@,
{
    s.chars().collect()
}

/// Builds a `String` holding exactly the given characters.
///
/// Trusted: `FromIterator<char>` for `String` (through `collect`), which std documents as
/// appending every character in order.
#[verifier::external_body]
pub fn chars_to_string(v: &Vec<char>) -> (r: String)
    ensures
        r@ == v@,
{
    v.iter().collect()
}

pub open spec fn is_lowercase_spec(c: char) -> bool {
    'a' <= c && c <= 'z'
}

pub open spec fn is_digit_spec(c: char) -> bool {
    '0' <= c && c <= '9'
}

/// Value of a decimal digit character.
pub open spec fn digit_value(c: char) -> int {
    c as int - '0' as int
}

pub fn is_lowercase(c: char) -> (r: bool)
    ensures
        r == is_lowercase_spec(c),
{
    'a' <= c && c <= 'z'
}

pub fn is_digit(c: char) -> (r: bool)
    ensures
        r == is_digit_spec(c),
{
    '0' <= c && c <= '9'
}

/// The pieces of `s` between the separators `sep`, with `cur` already read into the current
/// piece.
pub open spec fn split_from(s: Seq<char>, sep: char, cur: Seq<char>) -> Seq<Seq<char>>
    decreases s.len(),
{
    if s.len() == 0 {
        seq![cur]
    } else if s[0] == sep {
        seq![cur] + split_from(s.drop_first(), sep, seq![])
    } else {
        split_from(s.drop_first(), sep, cur.push(s[0]))
    }
}

/// The pieces of `s` between the separators `sep` (empty pieces included): what `split`
/// yields.
pub open spec fn split_spec(s: Seq<char>, sep: char) -> Seq<Seq<char>> {
    split_from(s, sep, seq![])
}

/// The views of a list of character vectors.
pub open spec fn views(v: Seq<Vec<char>>) -> Seq<Seq<char>> {
    v.map_values(|x: Vec<char>| x@)
}

/// Splits `s` at every `sep`.
pub fn split_chars(s: &Vec<char>, sep: char) -> (r: Vec<Vec<char>>)
    ensures
        views(r@) == split_spec(s@, sep),
{
    let mut parts: Vec<Vec<char>> = Vec::new();
    let mut cur: Vec<char> = Vec::new();
    let mut i: usize = 0;
    proof {
        assert(s@.subrange(0, s@.len() as int) =~= s@);
        assert(views(parts@) =~= Seq::<Seq<char>>::empty());
        assert(views(parts@) + split_spec(s@, sep) =~= split_spec(s@, sep));
    }
    while i < s.len()
        invariant
            i <= s.len(),
            views(parts@) + split_from(s@.subrange(i as int, s@.len() as int), sep, cur@) == split_spec(s@, sep),
        decreases s.len() - i,
    {
        let ghost rest = s@.subrange(i as int, s@.len() as int);
        proof {
            assert(rest.drop_first() =~= s@.subrange(i + 1, s@.len() as int));
        }
        if s[i] == sep {
            let ghost old_parts = parts@;
            let piece = cur;
            parts.push(piece);
            cur = Vec::new();
            proof {
                assert(views(parts@) =~= views(old_parts) + seq![piece@]);
            }
        } else {
            cur.push(s[i]);
        }
        i = i + 1;
    }
    let ghost old_parts = parts@;
    let piece = cur;
    parts.push(piece);
    proof {
        assert(s@.subrange(i as int, s@.len() as int).len() == 0);
        assert(views(parts@) =~= views(old_parts) + seq![piece@]);
    }
    parts
}

#[verifier::external_type_specification]
#[verifier::external_body]
pub struct ExParseIntError(ParseIntError);

/// Numeric value of a string of decimal digits.
pub open spec fn digits_value(d: Seq<char>) -> nat
    decreases d.len(),
{
    if d.len() == 0 {
        0
    } else {
        digits_value(d.drop_last()) * 10 + digit_value(d.last()) as nat
    }
}

/// The digits of an unsigned number's text: the text without a leading `+`.
pub open spec fn unsigned_digits(t: Seq<char>) -> Seq<char> {
    if t.len() > 0 && t[0] == '+' {
        t.drop_first()
    } else {
        t
    }
}

/// Whether `t` is the text of an unsigned number of at most `max`: an optional `+` and then
/// one or more decimal digits, of value at most `max`.
pub open spec fn is_unsigned_text(t: Seq<char>, max: nat) -> bool {
    let d = unsigned_digits(t);
    &&& d.len() > 0
    &&& forall|i: int| 0 <= i < d.len() ==> is_digit_spec(#[trigger] d[i])
    &&& digits_value(d) <= max
}

/// Reads a `u16` written in decimal.
///
/// Trusted: `str::parse::<u16>`. Its documentation says the text must be an optional `+`
/// sign followed by decimal digits only, and that a value too large for the type is an error;
/// this is what `is_unsigned_text` states. The error value itself is not described.
#[verifier::external_body]
pub fn parse_u16(s: &str) -> (r: Result<u16, ParseIntError>)
    ensures
        r is Ok <==> is_unsigned_text(s@, u16::MAX as nat),
        r matches Ok(n) ==> n == digits_value(unsigned_digits(s@)),
{
    s.parse::<u16>()
}

/// Reads a `u8` written in decimal.
///
/// Trusted: `str::parse::<u8>`, documented as `parse_u16` is, with 255 as the largest value.
#[verifier::external_body]
pub fn parse_u8(s: &str) -> (r: Result<u8, ParseIntError>)
    ensures
        r is Ok <==> is_unsigned_text(s@, u8::MAX as nat),
        r matches Ok(n) ==> n == digits_value(unsigned_digits(s@)),
{
    s.parse::<u8>()
}

/// Reads a `usize` written in decimal.
///
/// Trusted: `str::parse::<usize>`, documented as `parse_u16` is, with `usize::MAX` as the
/// largest value.
#[verifier::external_body]
pub fn parse_usize(s: &str) -> (r: Result<usize, ParseIntError>)
    ensures
        r is Ok <==> is_unsigned_text(s@, usize::MAX as nat),
        r matches Ok(n) ==> n == digits_value(unsigned_digits(s@)),
{
    s.parse::<usize>()
}

/// The character of the decimal digit `d`.
pub open spec fn digit_char(d: nat) -> char {
    ((d + 48) as u8) as char
}

/// The decimal digits of `n`, most significant first.
pub open spec fn decimal(n: nat) -> Seq<char>
    decreases n,
{
    if n < 10 {
        seq![digit_char(n)]
    } else {
        decimal(n / 10).push(digit_char(n % 10))
    }
}

/// Appends the decimal digits of `n`.
pub fn push_decimal(out: &mut Vec<char>, n: u64)
    ensures
        final(out)@ == old(out)@ + decimal(n as nat),
    decreases n,
{
    if n >= 10 {
        push_decimal(out, n / 10);
    }
    let d = (n % 10) as u8;
    out.push((48u8 + d) as char);
    proof {
        if n < 10 {
            assert(decimal(n as nat) == seq![digit_char(n as nat)]);
        }
    }
}

/// Appends the characters of `s`.
pub fn push_str(out: &mut Vec<char>, s: &str)
    ensures
        final(out)@ == old(out)@ + s@,
{
    let cs = str_to_chars(s);
    let ghost start = out@;
    let mut i: usize = 0;
    while i < cs.len()
        invariant
            i <= cs.len(),
            cs@ == s@,
            out@ == start + cs@.subrange(0, i as int),
        decreases cs.len() - i,
    {
        out.push(cs[i]);
        i = i + 1;
        proof {
            assert(cs@.subrange(0, i as int) =~= cs@.subrange(0, i - 1).push(cs@[i - 1]));
        }
    }
    proof {
        assert(cs@.subrange(0, cs.len() as int) =~= cs@);
    }
}

/// Appends the characters of `s`.
pub fn push_chars(out: &mut Vec<char>, s: &Vec<char>)
    ensures
        final(out)@ == old(out)@ + s@,
{
    let ghost start = out@;
    let mut i: usize = 0;
    while i < s.len()
        invariant
            i <= s.len(),
            out@ == start + s@.subrange(0, i as int),
        decreases s.len() - i,
    {
        out.push(s[i]);
        i = i + 1;
        proof {
            assert(s@.subrange(0, i as int) =~= s@.subrange(0, i - 1).push(s@[i - 1]));
        }
    }
    proof {
        assert(s@.subrange(0, s.len() as int) =~= s@);
    }
}

/// Whether two character sequences are equal.
pub fn chars_eq(a: &Vec<char>, b: &Vec<char>) -> (r: bool)
    ensures
        r == (a@ == b@),
{
    if a.len() != b.len() {
        return false;
    }
    let mut i: usize = 0;
    while i < a.len()
        invariant
            i <= a.len(),
            a.len() == b.len(),
            forall|j: int| 0 <= j < i ==> a@[j] == b@[j],
        decreases a.len() - i,
    {
        if a[i] != b[i] {
            return false;
        }
        i = i + 1;
    }
    proof {
        assert(a@ =~= b@);
    }
    true
}

/// Whether the characters `a` spell the text `b`.
pub fn chars_are(a: &Vec<char>, b: &str) -> (r: bool)
    ensures
        r == (a@ == b@),
{
    let bc = str_to_chars(b);
    chars_eq(a, &bc)
}

/// Whether `c` is white space in the sense of Unicode's `White_Space` property, which is
/// what `char::is_whitespace` and `str::split_whitespace` go by.
pub open spec fn is_space_spec(c: char) -> bool {
    ||| '\u{9}' <= c <= '\u{d}'
    ||| c == ' '
    ||| c == '\u{85}'
    ||| c == '\u{a0}'
    ||| c == '\u{1680}'
    ||| '\u{2000}' <= c <= '\u{200a}'
    ||| c == '\u{2028}'
    ||| c == '\u{2029}'
    ||| c == '\u{202f}'
    ||| c == '\u{205f}'
    ||| c == '\u{3000}'
}

pub fn is_space(c: char) -> (r: bool)
    ensures
        r == is_space_spec(c),
{
    ('\u{9}' <= c && c <= '\u{d}') || c == ' ' || c == '\u{85}' || c == '\u{a0}'
        || c == '\u{1680}' || ('\u{2000}' <= c && c <= '\u{200a}') || c == '\u{2028}'
        || c == '\u{2029}' || c == '\u{202f}' || c == '\u{205f}' || c == '\u{3000}'
}

/// The word being read, as a list of no word or one.
pub open spec fn pending(cur: Seq<char>) -> Seq<Seq<char>> {
    if cur.len() == 0 {
        seq![]
    } else {
        seq![cur]
    }
}

/// The words of `s`, with `cur` already read into the current word: the maximal runs of
/// characters that are not white space.
pub open spec fn words_from(s: Seq<char>, cur: Seq<char>) -> Seq<Seq<char>>
    decreases s.len(),
{
    if s.len() == 0 {
        pending(cur)
    } else if is_space_spec(s[0]) {
        pending(cur) + words_from(s.drop_first(), seq![])
    } else {
        words_from(s.drop_first(), cur.push(s[0]))
    }
}

/// The words of `s`: what `split_whitespace` yields.
pub open spec fn words(s: Seq<char>) -> Seq<Seq<char>> {
    words_from(s, seq![])
}

/// Splits `s` into its words.
pub fn split_words(s: &Vec<char>) -> (r: Vec<Vec<char>>)
    ensures
        views(r@) == words(s@),
{
    let mut parts: Vec<Vec<char>> = Vec::new();
    let mut cur: Vec<char> = Vec::new();
    let mut i: usize = 0;
    proof {
        assert(s@.subrange(0, s@.len() as int) =~= s@);
        assert(views(parts@) + words(s@) =~= words(s@));
    }
    while i < s.len()
        invariant
            i <= s.len(),
            views(parts@) + words_from(s@.subrange(i as int, s@.len() as int), cur@) == words(s@),
        decreases s.len() - i,
    {
        let ghost rest = s@.subrange(i as int, s@.len() as int);
        proof {
            assert(rest.drop_first() =~= s@.subrange(i + 1, s@.len() as int));
        }
        if is_space(s[i]) {
            let ghost old_parts = parts@;
            let ghost old_cur = cur@;
            if cur.len() > 0 {
                let piece = cur;
                parts.push(piece);
                cur = Vec::new();
                proof {
                    assert(views(parts@) =~= views(old_parts) + pending(old_cur));
                }
            } else {
                proof {
                    assert(views(parts@) =~= views(old_parts) + pending(old_cur));
                }
                cur = Vec::new();
            }
            proof {
                assert(cur@ =~= Seq::<char>::empty());
                assert(views(parts@) + words_from(rest.drop_first(), cur@) =~= views(old_parts)
                    + (pending(old_cur) + words_from(rest.drop_first(), seq![])));
            }
        } else {
            cur.push(s[i]);
        }
        i = i + 1;
    }
    let ghost old_parts = parts@;
    proof {
        assert(s@.subrange(i as int, s@.len() as int).len() == 0);
    }
    if cur.len() > 0 {
        let piece = cur;
        parts.push(piece);
        proof {
            assert(views(parts@) =~= views(old_parts) + pending(piece@));
        }
    } else {
        proof {
            assert(views(parts@) =~= views(old_parts) + pending(cur@));
        }
    }
    parts
}

/// The views of a list of strings.
pub open spec fn string_views(v: Seq<String>) -> Seq<Seq<char>> {
    v.map_values(|x: String| x@)
}

/// The Rust debug text of a string: quoted, with special characters escaped.
pub uninterp spec fn debug_text(s: Seq<char>) -> Seq<char>;

/// Writes a string as Rust's `Debug` formatting of `str` does.
///
/// Trusted: `format!("{:?}", s)` on a `str`. The text depends on the string alone; it is
/// named, not spelled out (quotes around the string, with `char::escape_debug` applied).
#[verifier::external_body]
pub fn quote_debug(s: &str) -> (r: String)
    ensures
        r@ == debug_text(s@),
{
    format!("{:?}", s)
}

} // verus!
