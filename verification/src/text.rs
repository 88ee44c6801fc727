//! Characters and strings: classification of source characters, conversion
//! between strings and character vectors, and decimal rendering of numbers.
use vstd::prelude::*;
use vstd::string::StrSliceExecFns;
use vstd::string::StringExecFns;

verus! {

// ---------------------------------------------------------------------------
// Character classification
// ---------------------------------------------------------------------------
/// An ASCII decimal digit.
pub open spec fn is_digit_char(c: char) -> bool {
    48 <= c as u32 && c as u32 <= 57
}

/// The numeric value of an ASCII decimal digit.
pub open spec fn digit_value(c: char) -> int {
    c as u32 - 48
}

/// Whether a character outside the ASCII range counts as whitespace; only the
/// standard library can decide this.
pub uninterp spec fn nonascii_whitespace(c: char) -> bool;

/// Whether a character outside the ASCII range counts as alphabetic; only the
/// standard library can decide this.
pub uninterp spec fn nonascii_alphabetic(c: char) -> bool;

/// Whether a character outside the ASCII range counts as numeric; only the
/// standard library can decide this. An alphanumeric character is an
/// alphabetic or a numeric one.
pub uninterp spec fn nonascii_numeric(c: char) -> bool;

pub open spec fn is_whitespace_char(c: char) -> bool {
    if (c as u32) < 128 {
        c == ' ' || c == '\t' || c == '\n' || c == '\r' || c == '\u{b}' || c == '\u{c}'
    } else {
        nonascii_whitespace(c)
    }
}

pub open spec fn is_alphabetic_char(c: char) -> bool {
    if (c as u32) < 128 {
        (65 <= c as u32 && c as u32 <= 90) || (97 <= c as u32 && c as u32 <= 122)
    } else {
        nonascii_alphabetic(c)
    }
}

pub open spec fn is_alphanumeric_char(c: char) -> bool {
    if (c as u32) < 128 {
        (65 <= c as u32 && c as u32 <= 90) || (97 <= c as u32 && c as u32 <= 122)
            || is_digit_char(c)
    } else {
        nonascii_alphabetic(c) || nonascii_numeric(c)
    }
}

/// A character that may continue an identifier.
pub open spec fn is_symbol_char(c: char) -> bool {
    is_alphanumeric_char(c) || c == '_'
}

/// Relies on char::is_whitespace, a property of the character alone; on the
/// ASCII range it holds exactly for space, tab, line feed, vertical tab, form
/// feed and carriage return.
#[verifier::external_body]
pub(crate) fn char_is_whitespace(c: char) -> (r: bool)
    ensures
        r == is_whitespace_char(c),
        (c as u32) >= 128 ==> r == nonascii_whitespace(c),
{
    c.is_whitespace()
}

/// Relies on char::is_alphabetic, a property of the character alone; on the
/// ASCII range it holds exactly for the upper- and lower-case letters.
#[verifier::external_body]
pub(crate) fn char_is_alphabetic(c: char) -> (r: bool)
    ensures
        r == is_alphabetic_char(c),
        (c as u32) >= 128 ==> r == nonascii_alphabetic(c),
{
    c.is_alphabetic()
}

/// Relies on char::is_alphanumeric, a property of the character alone: it
/// holds of the alphabetic and the numeric characters, and on the ASCII range
/// exactly of the letters and the decimal digits.
#[verifier::external_body]
pub(crate) fn char_is_alphanumeric(c: char) -> (r: bool)
    ensures
        r == is_alphanumeric_char(c),
        (c as u32) >= 128 ==> r == (nonascii_alphabetic(c) || nonascii_numeric(c)),
{
    c.is_alphanumeric()
}

pub(crate) fn is_digit_exec(c: char) -> (r: bool)
    ensures
        r == is_digit_char(c),
{
    let n = c as u32;
    48 <= n && n <= 57
}

pub(crate) fn is_symbol_char_exec(c: char) -> (r: bool)
    ensures
        r == is_symbol_char(c),
{
    char_is_alphanumeric(c) || c == '_'
}

// ---------------------------------------------------------------------------
// Strings and character vectors
// ---------------------------------------------------------------------------
/// Relies on String::push: it appends exactly the given character.
#[verifier::external_body]
pub(crate) fn push_char(s: &mut String, c: char)
    ensures
        final(s)@ == old(s)@.push(c),
{
    s.push(c);
}

/// The characters of a string, as a vector.
pub(crate) fn chars_of(s: &str) -> (r: Vec<char>)
    ensures
        r@ == s@,
{
    let n = s.unicode_len();
    let mut r: Vec<char> = Vec::new();
    let mut i: usize = 0;
    while i < n
        invariant
            n == s@.len(),
            i <= n,
            r@ == s@.take(i as int),
        decreases n - i,
    {
        r.push(s.get_char(i));
        i = i + 1;
        assert(r@ =~= s@.take(i as int));
    }
    assert(r@ =~= s@);
    r
}

/// A string holding exactly the given characters.
pub(crate) fn string_from_chars(v: &Vec<char>) -> (s: String)
    ensures
        s@ == v@,
{
    let mut s = String::new();
    let mut i: usize = 0;
    while i < v.len()
        invariant
            i <= v.len(),
            s@ == v@.take(i as int),
        decreases v.len() - i,
    {
        push_char(&mut s, v[i]);
        i = i + 1;
        assert(s@ =~= v@.take(i as int));
    }
    assert(s@ =~= v@);
    s
}

/// Whether the characters of `v` in `[from, to)` are exactly the characters
/// of `s`.
pub(crate) fn range_eq_str(v: &Vec<char>, from: usize, to: usize, s: &str) -> (r: bool)
    requires
        from <= to <= v@.len(),
    ensures
        r == (v@.subrange(from as int, to as int) == s@),
{
    let n = s.unicode_len();
    if to - from != n {
        assert(v@.subrange(from as int, to as int).len() != s@.len());
        return false;
    }
    let mut i: usize = 0;
    while i < n
        invariant
            n == s@.len(),
            from <= to <= v@.len(),
            to - from == n,
            i <= n,
            forall|j: int| 0 <= j < i ==> v@[from + j] == s@[j],
        decreases n - i,
    {
        if v[from + i] != s.get_char(i) {
            assert(v@.subrange(from as int, to as int)[i as int] != s@[i as int]);
            return false;
        }
        i = i + 1;
    }
    assert(v@.subrange(from as int, to as int) =~= s@);
    true
}

/// A copy of the characters of `v` in `[from, to)`.
pub(crate) fn copy_range(v: &Vec<char>, from: usize, to: usize) -> (r: Vec<char>)
    requires
        from <= to <= v@.len(),
    ensures
        r@ == v@.subrange(from as int, to as int),
{
    let mut r: Vec<char> = Vec::new();
    let mut i: usize = from;
    while i < to
        invariant
            from <= i <= to <= v@.len(),
            r@ == v@.subrange(from as int, i as int),
        decreases to - i,
    {
        r.push(v[i]);
        i = i + 1;
        assert(r@ =~= v@.subrange(from as int, i as int));
    }
    r
}

// ---------------------------------------------------------------------------
// Decimal numerals
// ---------------------------------------------------------------------------
/// The digit character for a value in `[0, 9]`.
pub open spec fn digit_char(d: int) -> char {
    if d == 0 {
        '0'
    } else if d == 1 {
        '1'
    } else if d == 2 {
        '2'
    } else if d == 3 {
        '3'
    } else if d == 4 {
        '4'
    } else if d == 5 {
        '5'
    } else if d == 6 {
        '6'
    } else if d == 7 {
        '7'
    } else if d == 8 {
        '8'
    } else {
        '9'
    }
}

/// The canonical decimal numeral of a natural number.
pub open spec fn dec_chars(n: nat) -> Seq<char>
    decreases n,
{
    if n < 10 {
        seq![digit_char(n as int)]
    } else {
        dec_chars(n / 10).push(digit_char((n % 10) as int))
    }
}

/// The value of a sequence of decimal digit characters.
pub open spec fn digits_value(s: Seq<char>) -> int
    decreases s.len(),
{
    if s.len() == 0 {
        0
    } else {
        digits_value(s.drop_last()) * 10 + digit_value(s.last())
    }
}

pub open spec fn all_digits(s: Seq<char>) -> bool {
    forall|i: int| 0 <= i < s.len() ==> is_digit_char(#[trigger] s[i])
}

pub(crate) fn digit_char_exec(d: u64) -> (c: char)
    requires
        d <= 9,
    ensures
        c == digit_char(d as int),
{
    if d == 0 {
        '0'
    } else if d == 1 {
        '1'
    } else if d == 2 {
        '2'
    } else if d == 3 {
        '3'
    } else if d == 4 {
        '4'
    } else if d == 5 {
        '5'
    } else if d == 6 {
        '6'
    } else if d == 7 {
        '7'
    } else if d == 8 {
        '8'
    } else {
        '9'
    }
}

/// Appends the decimal numeral of `n` to `s`.
pub(crate) fn append_decimal(s: &mut String, n: u64)
    ensures
        final(s)@ == old(s)@ + dec_chars(n as nat),
    decreases n,
{
    if n < 10 {
        push_char(s, digit_char_exec(n));
        assert(old(s)@ + dec_chars(n as nat) =~= old(s)@.push(digit_char(n as int)));
    } else {
        append_decimal(s, n / 10);
        push_char(s, digit_char_exec(n % 10));
        assert(old(s)@ + dec_chars(n as nat) =~= (old(s)@ + dec_chars(n as nat / 10)).push(
            digit_char((n % 10) as int),
        ));
    }
}

/// The decimal numeral of `n`, as a string.
pub(crate) fn decimal_string(n: u64) -> (s: String)
    ensures
        s@ == dec_chars(n as nat),
{
    let mut s = String::new();
    append_decimal(&mut s, n);
    assert(s@ =~= dec_chars(n as nat));
    s
}

pub proof fn lemma_digits_value_nonneg(s: Seq<char>)
    requires
        all_digits(s),
    ensures
        digits_value(s) >= 0,
    decreases s.len(),
{
    if s.len() > 0 {
        assert(all_digits(s.drop_last())) by {
            assert(forall|i: int|
                0 <= i < s.drop_last().len() ==> #[trigger] s.drop_last()[i] == s[i]);
        }
        lemma_digits_value_nonneg(s.drop_last());
    }
}

/// The value of the digits of `v` in `[from, to)`, or `None` where it does
/// not fit 32 bits.
pub(crate) fn digits_to_u32(v: &Vec<char>, from: usize, to: usize) -> (r: Option<u32>)
    requires
        from <= to <= v@.len(),
        all_digits(v@.subrange(from as int, to as int)),
    ensures
        ({
            let dv = digits_value(v@.subrange(from as int, to as int));
            match r {
                Some(n) => dv <= u32::MAX && n == dv,
                None => dv > u32::MAX,
            }
        }),
{
    let mut acc: u64 = 0;
    let mut over: bool = false;
    let mut i: usize = from;
    while i < to
        invariant
            from <= i <= to <= v@.len(),
            all_digits(v@.subrange(from as int, to as int)),
            !over ==> acc == digits_value(v@.subrange(from as int, i as int)) && acc <= u32::MAX
                as u64,
            over ==> digits_value(v@.subrange(from as int, i as int)) > u32::MAX,
        decreases to - i,
    {
        proof {
            assert(is_digit_char(v@[i as int])) by {
                assert(v@.subrange(from as int, to as int)[i - from] == v@[i as int]);
            }
            assert(v@.subrange(from as int, i as int + 1).drop_last() =~= v@.subrange(
                from as int,
                i as int,
            ));
            assert(v@.subrange(from as int, i as int + 1).last() == v@[i as int]);
        }
        let ghost prev = digits_value(v@.subrange(from as int, i as int));
        let ghost cur = digits_value(v@.subrange(from as int, i as int + 1));
        proof {
            assert(cur == prev * 10 + digit_value(v@[i as int]));
        }
        let c32 = v[i] as u32;
        let d: u64 = (c32 - 48) as u64;
        if over {
            proof {
                assert(all_digits(v@.subrange(from as int, i as int))) by {
                    assert(forall|k: int|
                        0 <= k < i - from ==> #[trigger] v@.subrange(from as int, i as int)[k]
                            == v@.subrange(from as int, to as int)[k]);
                }
                lemma_digits_value_nonneg(v@.subrange(from as int, i as int));
                assert(prev * 10 >= prev) by (nonlinear_arith)
                    requires
                        prev >= 0,
                ;
            }
        } else {
            let next = acc * 10 + d;
            if next > u32::MAX as u64 {
                over = true;
            } else {
                acc = next;
            }
        }
        i = i + 1;
    }
    if over {
        None
    } else {
        Some(acc as u32)
    }
}

/// Every canonical numeral is made of digits and reads back as the number it
/// renders.
pub proof fn lemma_dec_chars_value(n: nat)
    ensures
        all_digits(dec_chars(n)),
        digits_value(dec_chars(n)) == n,
        dec_chars(n).len() >= 1,
    decreases n,
{
    if n < 10 {
        assert(dec_chars(n) =~= seq![digit_char(n as int)]);
        assert(dec_chars(n).drop_last() =~= Seq::<char>::empty());
        assert(digits_value(Seq::<char>::empty()) == 0);
        assert(digits_value(dec_chars(n)) == digits_value(dec_chars(n).drop_last()) * 10
            + digit_value(dec_chars(n).last()));
        assert(dec_chars(n).last() == digit_char(n as int));
        assert(digits_value(dec_chars(n)) == digit_value(digit_char(n as int)));
    } else {
        lemma_dec_chars_value(n / 10);
        let prefix = dec_chars(n / 10);
        let whole = dec_chars(n);
        assert(whole == prefix.push(digit_char((n % 10) as int)));
        assert(whole.drop_last() =~= prefix);
        assert(whole.last() == digit_char((n % 10) as int));
        assert(digits_value(whole) == digits_value(prefix) * 10 + digit_value(
            digit_char((n % 10) as int),
        ));
        assert(digit_value(digit_char((n % 10) as int)) == n % 10);
        vstd::arithmetic::div_mod::lemma_fundamental_div_mod(n as int, 10);
        assert(forall|i: int|
            0 <= i < whole.len() ==> is_digit_char(#[trigger] whole[i])) by {
            assert(forall|i: int|
                0 <= i < prefix.len() ==> is_digit_char(#[trigger] prefix[i]));
        }
    }
}

/// A name whose first two characters are underscores; such names are kept
/// for the built-in functions.
pub open spec fn reserved_name(s: Seq<char>) -> bool {
    s.len() >= 2 && s[0] == '_' && s[1] == '_'
}

pub(crate) fn is_reserved(name: &str) -> (r: bool)
    ensures
        r == reserved_name(name@),
{
    if name.unicode_len() < 2 {
        return false;
    }
    name.get_char(0) == '_' && name.get_char(1) == '_'
}

/// Whether two pieces of text hold the same characters.
pub(crate) fn str_eq_str(a: &str, b: &str) -> (r: bool)
    ensures
        r == (a@ == b@),
{
    let n = a.unicode_len();
    if b.unicode_len() != n {
        return false;
    }
    let mut i: usize = 0;
    while i < n
        invariant
            n == a@.len() == b@.len(),
            i <= n,
            forall|j: int| 0 <= j < i ==> a@[j] == b@[j],
        decreases n - i,
    {
        if a.get_char(i) != b.get_char(i) {
            return false;
        }
        i = i + 1;
    }
    assert(a@ =~= b@);
    true
}

// ---------------------------------------------------------------------------
// Splitting text into lines
// ---------------------------------------------------------------------------
/// The length of the maximal prefix of `s` without a line feed.
pub open spec fn line_run(s: Seq<char>) -> int
    decreases s.len(),
{
    if s.len() == 0 || s[0] == '\n' {
        0
    } else {
        1 + line_run(s.drop_first())
    }
}

pub proof fn lemma_line_run(s: Seq<char>)
    ensures
        0 <= line_run(s) <= s.len(),
        forall|i: int| 0 <= i < line_run(s) ==> #[trigger] s[i] != '\n',
        line_run(s) < s.len() ==> s[line_run(s)] == '\n',
    decreases s.len(),
{
    if s.len() == 0 || s[0] == '\n' {
    } else {
        lemma_line_run(s.drop_first());
        assert forall|i: int| 0 <= i < line_run(s) implies #[trigger] s[i] != '\n' by {
            if i > 0 {
                assert(s.drop_first()[i - 1] == s[i]);
            }
        }
        if line_run(s) < s.len() {
            assert(s.drop_first()[line_run(s) - 1] == s[line_run(s)]);
        }
    }
}

pub proof fn lemma_line_run_is(s: Seq<char>, m: int)
    requires
        0 <= m <= s.len(),
        forall|i: int| 0 <= i < m ==> #[trigger] s[i] != '\n',
        m < s.len() ==> s[m] == '\n',
    ensures
        line_run(s) == m,
    decreases s.len(),
{
    if m == 0 {
    } else {
        assert forall|i: int| 0 <= i < m - 1 implies #[trigger] s.drop_first()[i] != '\n' by {
            assert(s.drop_first()[i] == s[i + 1]);
        }
        if m - 1 < s.drop_first().len() {
            assert(s.drop_first()[m - 1] == s[m]);
        }
        lemma_line_run_is(s.drop_first(), m - 1);
    }
}

/// A line with a trailing carriage return loses it.
pub open spec fn strip_cr(t: Seq<char>) -> Seq<char> {
    if t.len() > 0 && t.last() == '\r' {
        t.drop_last()
    } else {
        t
    }
}

/// The lines of a text: the segments between line feeds, each with a
/// trailing carriage return removed; a final line feed opens no further
/// line.
pub open spec fn spec_split_lines(s: Seq<char>) -> Seq<Seq<char>>
    decreases s.len(),
    via spec_split_lines_decreases
{
    if s.len() == 0 {
        Seq::empty()
    } else {
        let k = line_run(s);
        if k == s.len() {
            seq![strip_cr(s)]
        } else {
            seq![strip_cr(s.take(k))] + spec_split_lines(s.skip(k + 1))
        }
    }
}

#[via_fn]
proof fn spec_split_lines_decreases(s: Seq<char>) {
    lemma_line_run(s);
}

/// The views of a sequence of strings, in order.
pub open spec fn strings_view(v: Seq<String>) -> Seq<Seq<char>> {
    Seq::new(v.len(), |i: int| v[i]@)
}

fn feed_at(v: &Vec<char>, i: usize) -> (r: bool)
    requires
        i <= v@.len(),
    ensures
        r == (i < v@.len() && v@[i as int] != '\n'),
{
    if i < v.len() {
        v[i] != '\n'
    } else {
        false
    }
}

/// The first position at or after `from` holding a line feed, or the end.
fn scan_line(v: &Vec<char>, from: usize) -> (j: usize)
    requires
        from <= v@.len(),
    ensures
        from <= j <= v@.len(),
        j - from == line_run(v@.skip(from as int)),
{
    let n = v.len();
    let mut j = from;
    loop
        invariant
            n == v@.len(),
            from <= j <= v@.len(),
            forall|k: int| from <= k < j ==> #[trigger] v@[k] != '\n',
        ensures
            from <= j <= v@.len(),
            forall|k: int| from <= k < j ==> #[trigger] v@[k] != '\n',
            !(j < v@.len() && v@[j as int] != '\n'),
        decreases v@.len() - j,
    {
        if !feed_at(v, j) {
            break;
        }
        j = j + 1;
    }
    proof {
        let s = v@.skip(from as int);
        assert forall|k: int| 0 <= k < j - from implies #[trigger] s[k] != '\n' by {
            assert(s[k] == v@[from + k]);
        }
        if j - from < s.len() {
            assert(s[j - from] == v@[j as int]);
        }
        lemma_line_run_is(s, j - from);
    }
    j
}

/// The lines of a text, exactly as `spec_split_lines` states them.
#[verifier::loop_isolation(false)]
pub fn split_lines(text: &str) -> (r: Vec<String>)
    ensures
        strings_view(r@) == spec_split_lines(text@),
{
    let chars = chars_of(text);
    let mut out: Vec<String> = Vec::new();
    let mut pos: usize = 0;
    proof {
        assert(chars@.skip(0) =~= text@);
        assert(strings_view(out@) + spec_split_lines(text@) =~= spec_split_lines(text@));
    }
    loop
        invariant
            pos <= chars@.len(),
            chars@ == text@,
            spec_split_lines(text@) == strings_view(out@) + spec_split_lines(
                text@.skip(pos as int),
            ),
        decreases chars@.len() - pos,
    {
        if pos == chars.len() {
            proof {
                assert(strings_view(out@) + spec_split_lines(text@.skip(pos as int)) =~= strings_view(
                    out@,
                ));
            }
            return out;
        }
        let ghost rest = text@.skip(pos as int);
        let end = scan_line(&chars, pos);
        proof {
            lemma_line_run(rest);
            assert(line_run(rest) == end - pos);
        }
        let seg_end = if end > pos && chars[end - 1] == '\r' {
            end - 1
        } else {
            end
        };
        let segment = copy_range(&chars, pos, seg_end);
        let line = string_from_chars(&segment);
        let ghost before = out@;
        out.push(line);
        proof {
            if end - pos == rest.len() {
                assert(rest.take(rest.len() as int) =~= rest);
                assert(line@ =~= strip_cr(rest)) by {
                    if end > pos && text@[end - 1] == '\r' {
                        assert(rest.last() == text@[end - 1]);
                        assert(line@ =~= rest.drop_last());
                    } else {
                        if rest.len() > 0 && rest.last() == '\r' {
                            assert(text@[end - 1] == rest.last());
                        }
                    }
                }
            } else {
                assert(line@ =~= strip_cr(rest.take(end - pos))) by {
                    let seg = rest.take(end - pos);
                    if end > pos && text@[end - 1] == '\r' {
                        assert(seg.last() == text@[end - 1]);
                        assert(line@ =~= seg.drop_last());
                    } else {
                        if seg.len() > 0 && seg.last() == '\r' {
                            assert(text@[end - 1] == seg.last());
                        }
                    }
                }
            }
            assert(strings_view(out@) =~= strings_view(before).push(line@));
        }
        if end == chars.len() {
            proof {
                assert(spec_split_lines(rest) =~= seq![strip_cr(rest)]);
                assert(strings_view(out@) =~= strings_view(before) + seq![line@]);
                assert(strings_view(out@) + spec_split_lines(text@.skip(chars@.len() as int))
                    =~= strings_view(out@));
                assert(spec_split_lines(text@) =~= strings_view(out@));
            }
            pos = end;
            return out;
        }
        proof {
            assert(spec_split_lines(rest) == seq![strip_cr(rest.take(end - pos))]
                + spec_split_lines(rest.skip(end - pos + 1)));
            assert(rest.skip(end - pos + 1) =~= text@.skip(end + 1));
            assert(strings_view(before) + (seq![line@] + spec_split_lines(text@.skip(end + 1)))
                =~= strings_view(out@) + spec_split_lines(text@.skip(end + 1)));
        }
        pos = end + 1;
    }
}

} // verus!
