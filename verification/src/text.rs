//! Character-level helpers shared by the parser and the generator:
//! decimal and hexadecimal digit rendering, unsigned-integer parsing,
//! line splitting and whitespace trimming, all specified over `Seq<char>`.

use vstd::prelude::*;
use vstd::string::*;

verus! {

// ---------------------------------------------------------------------------
// Characters
// ---------------------------------------------------------------------------

/// The Unicode `White_Space` code points: the set of characters that
/// trimming removes around a title.
pub open spec fn is_space(c: char) -> bool {
    ||| c == ' '
    ||| c == '\t'
    ||| c == '\n'
    ||| c == '\u{0B}'
    ||| c == '\u{0C}'
    ||| c == '\r'
    ||| c == '\u{85}'
    ||| c == '\u{A0}'
    ||| c == '\u{1680}'
    ||| (0x2000 <= c as u32 && c as u32 <= 0x200A)
    ||| c == '\u{2028}'
    ||| c == '\u{2029}'
    ||| c == '\u{202F}'
    ||| c == '\u{205F}'
    ||| c == '\u{3000}'
}

pub fn is_space_char(c: char) -> (r: bool)
    ensures
        r == is_space(c),
{
    let u = c as u32;
    u == 0x20 || u == 0x09 || u == 0x0A || u == 0x0B || u == 0x0C || u == 0x0D || u == 0x85
        || u == 0xA0 || u == 0x1680 || (0x2000 <= u && u <= 0x200A) || u == 0x2028 || u == 0x2029
        || u == 0x202F || u == 0x205F || u == 0x3000
}

pub open spec fn is_dec_digit(c: char) -> bool {
    48 <= c as int && c as int <= 57
}

// ---------------------------------------------------------------------------
// Decimal digits
// ---------------------------------------------------------------------------

/// The character for one decimal digit value.
pub open spec fn dec_digit_char(d: int) -> char
    recommends
        0 <= d < 10,
{
    ((48 + d) as u8) as char
}

/// The decimal rendering of a non-negative number, most significant
/// digit first, with no leading zeros (a single `'0'` for zero).
pub open spec fn dec_digits(n: int) -> Seq<char>
    recommends
        n >= 0,
    decreases n,
{
    if n < 10 {
        seq![dec_digit_char(n)]
    } else {
        dec_digits(n / 10).push(dec_digit_char(n % 10))
    }
}

/// The numeric value of a sequence of decimal digit characters.
pub open spec fn dec_value(s: Seq<char>) -> int
    decreases s.len(),
{
    if s.len() == 0 {
        0
    } else {
        dec_value(s.drop_last()) * 10 + (s.last() as int - 48)
    }
}

/// Appends the decimal rendering of `n` to `out`.
pub fn push_dec_digits(out: &mut Vec<char>, n: u16)
    ensures
        final(out)@ == old(out)@ + dec_digits(n as int),
    decreases n,
{
    if n >= 10 {
        push_dec_digits(out, n / 10);
    }
    let d: u8 = (n % 10) as u8;
    out.push((48 + d) as char);
    proof {
        assert(out@ =~= old(out)@ + dec_digits(n as int));
    }
}

/// The decimal rendering of a number is made of digits, denotes the
/// number, and has as many digits as the number needs.
pub proof fn lemma_dec_digits_props(n: int)
    requires
        n >= 0,
    ensures
        dec_digits(n).len() >= 1,
        forall|i: int| 0 <= i < dec_digits(n).len() ==> is_dec_digit(#[trigger] dec_digits(n)[i]),
        dec_value(dec_digits(n)) == n,
        n < 10 ==> dec_digits(n).len() == 1,
        10 <= n < 100 ==> dec_digits(n).len() == 2,
        100 <= n < 1000 ==> dec_digits(n).len() == 3,
        1000 <= n ==> dec_digits(n).len() >= 4,
    decreases n,
{
    if n < 10 {
        assert(dec_digits(n) == seq![dec_digit_char(n)]);
        assert(dec_digit_char(n) as int == 48 + n);
        assert(dec_digits(n).drop_last() =~= Seq::<char>::empty());
        assert(dec_digits(n).last() == dec_digit_char(n));
        assert(dec_value(Seq::<char>::empty()) == 0);
        assert(dec_value(dec_digits(n)) == n);
    } else {
        lemma_dec_digits_props(n / 10);
        assert(dec_digits(n) == dec_digits(n / 10).push(dec_digit_char(n % 10)));
        assert(dec_digits(n).drop_last() =~= dec_digits(n / 10));
        assert(dec_digits(n).last() == dec_digit_char(n % 10));
        assert(dec_digit_char(n % 10) as int == 48 + n % 10);
        vstd::arithmetic::div_mod::lemma_fundamental_div_mod(n, 10);
        assert(dec_value(dec_digits(n)) == (n / 10) * 10 + n % 10);
        assert(forall|i: int|
            0 <= i < dec_digits(n / 10).len() ==> dec_digits(n)[i] == dec_digits(n / 10)[i]);
    }
}

/// A leading zero does not change the value a digit run denotes.
pub proof fn lemma_dec_value_zero_prefix(s: Seq<char>)
    ensures
        dec_value(seq!['0'] + s) == dec_value(s),
    decreases s.len(),
{
    if s.len() == 0 {
        assert(seq!['0'] + s =~= seq!['0']);
        assert(seq!['0'].drop_last() =~= Seq::<char>::empty());
        assert(seq!['0'].last() == '0');
        assert(dec_value(Seq::<char>::empty()) == 0);
        assert(dec_value(seq!['0']) == '0' as int - 48);
    } else {
        assert((seq!['0'] + s).drop_last() =~= seq!['0'] + s.drop_last());
        assert((seq!['0'] + s).last() == s.last());
        lemma_dec_value_zero_prefix(s.drop_last());
    }
}

// ---------------------------------------------------------------------------
// Parsing an unsigned 16-bit number
// ---------------------------------------------------------------------------

/// The value of a run of decimal digits, if that is what `s` is and the
/// value fits in 16 bits.
pub open spec fn parse_u16_digits(s: Seq<char>) -> Option<u16> {
    if s.len() == 0 || !(forall|i: int| 0 <= i < s.len() ==> is_dec_digit(#[trigger] s[i])) {
        None
    } else if dec_value(s) > 65535 {
        None
    } else {
        Some(dec_value(s) as u16)
    }
}

/// What `str::parse::<u16>` accepts: an optional leading `'+'`, then at
/// least one decimal digit, with a value of at most 65535.
pub open spec fn parse_u16_chars(s: Seq<char>) -> Option<u16> {
    if s.len() > 0 && s[0] == '+' {
        parse_u16_digits(s.drop_first())
    } else {
        parse_u16_digits(s)
    }
}

/// A digit appended on the right can only grow the value of a digit run.
proof fn lemma_dec_value_grows(s: Seq<char>, k: int)
    requires
        0 <= k <= s.len(),
        forall|i: int| 0 <= i < s.len() ==> is_dec_digit(#[trigger] s[i]),
    ensures
        dec_value(s) >= dec_value(s.take(k)),
        dec_value(s.take(k)) >= 0,
    decreases s.len() - k,
{
    if k == s.len() {
        assert(s.take(k) =~= s);
        lemma_dec_value_nonneg(s);
    } else {
        lemma_dec_value_grows(s, k + 1);
        assert(s.take(k + 1).drop_last() =~= s.take(k));
        assert(s.take(k + 1).last() == s[k]);
        assert(forall|i: int| 0 <= i < k ==> s.take(k)[i] == s[i]);
        lemma_dec_value_nonneg(s.take(k));
        assert(dec_value(s.take(k + 1)) == dec_value(s.take(k)) * 10 + (s[k] as int - 48));
        assert(is_dec_digit(s[k]));
    }
}

proof fn lemma_dec_value_nonneg(s: Seq<char>)
    requires
        forall|i: int| 0 <= i < s.len() ==> is_dec_digit(#[trigger] s[i]),
    ensures
        dec_value(s) >= 0,
    decreases s.len(),
{
    if s.len() > 0 {
        assert(forall|i: int|
            0 <= i < s.drop_last().len() ==> is_dec_digit(#[trigger] s.drop_last()[i]));
        lemma_dec_value_nonneg(s.drop_last());
        assert(is_dec_digit(s[s.len() - 1]));
        assert(s.last() == s[s.len() - 1]);
    }
}

/// Parses a string the way `str::parse::<u16>` does.
pub fn parse_u16(s: &str) -> (r: Option<u16>)
    ensures
        r == parse_u16_chars(s@),
{
    let len = s.unicode_len();
    let start: usize = if len > 0 && s.get_char(0) == '+' {
        1
    } else {
        0
    };
    let ghost digits: Seq<char> = if start == 1 {
        s@.drop_first()
    } else {
        s@
    };
    proof {
        assert(s@.subrange(start as int, len as int) =~= digits);
        assert(parse_u16_chars(s@) == parse_u16_digits(digits));
    }
    if start == len {
        return None;
    }
    let mut val: u32 = 0;
    let mut i: usize = start;
    while i < len
        invariant
            start <= i <= len == s@.len(),
            start == 0 || start == 1,
            parse_u16_chars(s@) == parse_u16_digits(digits),
            digits == s@.subrange(start as int, len as int),
            forall|j: int| start <= j < i ==> is_dec_digit(#[trigger] s@[j]),
            val == dec_value(s@.subrange(start as int, i as int)),
            val <= 65535,
        decreases len - i,
    {
        let c = s.get_char(i);
        let u = c as u32;
        if u < 48 || u > 57 {
            proof {
                assert(digits[i - start] == s@[i as int]);
                assert(!is_dec_digit(digits[i - start]));
            }
            return None;
        }
        proof {
            assert(s@.subrange(start as int, i + 1).drop_last() =~= s@.subrange(
                start as int,
                i as int,
            ));
            assert(s@.subrange(start as int, i + 1).last() == s@[i as int]);
        }
        val = val * 10 + (u - 48);
        i += 1;
        if val > 65535 {
            proof {
                if forall|j: int| 0 <= j < digits.len() ==> is_dec_digit(#[trigger] digits[j]) {
                    assert(forall|j: int|
                        start <= j < len ==> is_dec_digit(#[trigger] s@[j])) by {
                        assert(forall|j: int|
                            start <= j < len ==> s@[j] == digits[j - start]);
                    }
                    lemma_dec_value_grows(digits, i - start);
                    assert(digits.take(i - start) =~= s@.subrange(start as int, i as int));
                }
            }
            return None;
        }
    }
    proof {
        assert(s@.subrange(start as int, len as int) =~= digits);
        assert(forall|j: int| 0 <= j < digits.len() ==> is_dec_digit(#[trigger] digits[j])) by {
            assert(forall|j: int| 0 <= j < digits.len() ==> digits[j] == s@[j + start]);
        }
    }
    Some(val as u16)
}

// ---------------------------------------------------------------------------
// Hexadecimal rendering
// ---------------------------------------------------------------------------

/// The lowercase character for one hexadecimal digit value.
pub open spec fn hex_digit_char(d: int) -> char
    recommends
        0 <= d < 16,
{
    if d < 10 {
        ((48 + d) as u8) as char
    } else {
        ((87 + d) as u8) as char
    }
}

/// The 16-digit, zero-padded, lowercase hexadecimal rendering of a
/// 64-bit value, most significant digit first.
pub open spec fn hex16(h: u64) -> Seq<char> {
    Seq::new(16, |i: int| hex_digit_char(((h >> (((15 - i) * 4) as u64)) & 0xf) as int))
}

pub fn u64_to_hex16(h: u64) -> (r: Vec<char>)
    ensures
        r@ == hex16(h),
{
    let mut out: Vec<char> = Vec::new();
    let mut i: usize = 0;
    while i < 16
        invariant
            i <= 16,
            out@ == hex16(h).take(i as int),
        decreases 16 - i,
    {
        let shift: u64 = ((15 - i) * 4) as u64;
        let nib: u64 = (h >> shift) & 0xf;
        proof {
            assert((h >> shift) & 0xf < 16) by (bit_vector);
        }
        let d: u8 = nib as u8;
        let c: char = if d < 10 {
            (48 + d) as char
        } else {
            (87 + d) as char
        };
        out.push(c);
        proof {
            assert(c == hex16(h)[i as int]);
            assert(out@ =~= hex16(h).take(i + 1));
        }
        i += 1;
    }
    proof {
        assert(out@ =~= hex16(h));
    }
    out
}

// ---------------------------------------------------------------------------
// Strings and characters
// ---------------------------------------------------------------------------

/// The characters of a string slice, as a vector.
pub fn str_chars(s: &str) -> (r: Vec<char>)
    ensures
        r@ == s@,
{
    let len = s.unicode_len();
    let mut out: Vec<char> = Vec::new();
    let mut i: usize = 0;
    while i < len
        invariant
            i <= len == s@.len(),
            out@ == s@.take(i as int),
        decreases len - i,
    {
        out.push(s.get_char(i));
        proof {
            assert(out@ =~= s@.take(i + 1));
        }
        i += 1;
    }
    proof {
        assert(out@ =~= s@);
    }
    out
}

/// Relies on `String`'s `FromIterator<char>` implementation: collecting
/// characters yields the string made of exactly those characters.
#[verifier::external_body]
pub(crate) fn chars_to_string(v: &Vec<char>) -> (r: String)
    ensures
        r@ == v@,
{
    v.iter().collect()
}

/// The characters `chars[lo..hi]`, as a fresh vector.
pub fn copy_range(chars: &Vec<char>, lo: usize, hi: usize) -> (r: Vec<char>)
    requires
        lo <= hi <= chars@.len(),
    ensures
        r@ == chars@.subrange(lo as int, hi as int),
{
    let mut out: Vec<char> = Vec::new();
    let mut i: usize = lo;
    while i < hi
        invariant
            lo <= i <= hi <= chars@.len(),
            out@ == chars@.subrange(lo as int, i as int),
        decreases hi - i,
    {
        out.push(chars[i]);
        proof {
            assert(out@ =~= chars@.subrange(lo as int, i + 1));
        }
        i += 1;
    }
    out
}

// ---------------------------------------------------------------------------
// Line splitting
// ---------------------------------------------------------------------------

/// Position of the first newline in `s`, or `s.len()` if there is none.
pub open spec fn first_nl(s: Seq<char>) -> int
    decreases s.len(),
{
    if s.len() == 0 {
        0
    } else if s[0] == '\n' {
        0
    } else {
        1 + first_nl(s.drop_first())
    }
}

pub proof fn lemma_first_nl(s: Seq<char>)
    ensures
        0 <= first_nl(s) <= s.len(),
        first_nl(s) < s.len() ==> s[first_nl(s)] == '\n',
        forall|j: int| 0 <= j < first_nl(s) ==> s[j] != '\n',
    decreases s.len(),
{
    if s.len() == 0 {
    } else if s[0] == '\n' {
    } else {
        lemma_first_nl(s.drop_first());
        assert forall|j: int| 0 < j < first_nl(s) implies s[j] != '\n' by {
            assert(s.drop_first()[j - 1] == s[j]);
        }
    }
}

/// A carriage return at the very end of a line is part of the line
/// terminator and is removed.
pub open spec fn strip_cr(line: Seq<char>) -> Seq<char> {
    if line.len() > 0 && line.last() == '\r' {
        line.drop_last()
    } else {
        line
    }
}

/// The lines of a text, split the way `str::lines` splits them: at each
/// `'\n'`, removing a `'\r'` just before it, with no empty final line
/// for a trailing newline.
pub open spec fn split_lines(s: Seq<char>) -> Seq<Seq<char>>
    decreases s.len(),
{
    if s.len() == 0 {
        Seq::empty()
    } else {
        let k = first_nl(s);
        if 0 <= k < s.len() {
            seq![strip_cr(s.take(k))] + split_lines(s.skip(k + 1))
        } else {
            seq![s]
        }
    }
}

/// Unfolds `split_lines` at a known first newline.
pub proof fn lemma_split_lines_at(s: Seq<char>, k: int)
    requires
        0 <= k < s.len(),
        s[k] == '\n',
        forall|j: int| 0 <= j < k ==> s[j] != '\n',
    ensures
        split_lines(s) == seq![strip_cr(s.take(k))] + split_lines(s.skip(k + 1)),
{
    lemma_first_nl(s);
    if first_nl(s) < k {
        assert(s[first_nl(s)] == '\n');
        assert(false);
    }
    if first_nl(s) > k {
        assert(s[k] != '\n');
        assert(false);
    }
}

/// Unfolds `split_lines` on a text with no newline at all.
pub proof fn lemma_split_lines_tail(s: Seq<char>)
    requires
        forall|j: int| 0 <= j < s.len() ==> s[j] != '\n',
    ensures
        split_lines(s) == if s.len() == 0 {
            Seq::<Seq<char>>::empty()
        } else {
            seq![s]
        },
{
    lemma_first_nl(s);
    if s.len() > 0 {
        if first_nl(s) < s.len() {
            assert(s[first_nl(s)] == '\n');
            assert(false);
        }
    }
}

/// The views of a sequence of character vectors.
pub open spec fn vec_views(v: Seq<Vec<char>>) -> Seq<Seq<char>> {
    v.map_values(|x: Vec<char>| x@)
}

/// Splits a text into its lines, as `str::lines` would.
pub fn split_lines_exec(chars: &Vec<char>) -> (r: Vec<Vec<char>>)
    ensures
        vec_views(r@) == split_lines(chars@),
{
    let n = chars.len();
    let mut out: Vec<Vec<char>> = Vec::new();
    let mut start: usize = 0;
    let mut i: usize = 0;
    proof {
        assert(chars@.skip(0) =~= chars@);
        assert(vec_views(out@) =~= Seq::<Seq<char>>::empty());
        assert(vec_views(out@) + split_lines(chars@) =~= split_lines(chars@));
    }
    while i < n
        invariant
            0 <= start <= i <= n == chars@.len(),
            forall|j: int| start <= j < i ==> chars@[j] != '\n',
            split_lines(chars@) == vec_views(out@) + split_lines(chars@.skip(start as int)),
        decreases n - i,
    {
        if chars[i] == '\n' {
            let line: Vec<char> = if i > start && chars[i - 1] == '\r' {
                copy_range(chars, start, i - 1)
            } else {
                copy_range(chars, start, i)
            };
            proof {
                let t = chars@.skip(start as int);
                assert(forall|j: int| 0 <= j < i - start ==> t[j] == chars@[j + start]);
                lemma_split_lines_at(t, i - start);
                assert(t.take(i - start) =~= chars@.subrange(start as int, i as int));
                if i > start && chars@[i - 1] == '\r' {
                    assert(strip_cr(t.take(i - start)) =~= chars@.subrange(start as int, i - 1));
                } else {
                    assert(strip_cr(t.take(i - start)) =~= chars@.subrange(start as int, i as int));
                }
                assert(line@ == strip_cr(t.take(i - start)));
                assert(t.skip(i - start + 1) =~= chars@.skip(i + 1));
                assert(vec_views(out@.push(line)) =~= vec_views(out@).push(line@));
                assert(vec_views(out@) + split_lines(t) =~= vec_views(out@.push(line))
                    + split_lines(chars@.skip(i + 1)));
            }
            out.push(line);
            start = i + 1;
        }
        i += 1;
    }
    if start < n {
        let line = copy_range(chars, start, n);
        proof {
            let t = chars@.skip(start as int);
            assert(forall|j: int| 0 <= j < t.len() ==> t[j] == chars@[j + start]);
            lemma_split_lines_tail(t);
            assert(line@ =~= t);
            assert(vec_views(out@.push(line)) =~= vec_views(out@).push(line@));
            assert(vec_views(out@) + split_lines(t) =~= vec_views(out@.push(line)));
        }
        out.push(line);
    } else {
        proof {
            let t = chars@.skip(start as int);
            assert(t.len() == 0);
            lemma_split_lines_tail(t);
            assert(vec_views(out@) + split_lines(t) =~= vec_views(out@));
        }
    }
    out
}

// ---------------------------------------------------------------------------
// Title cleanup
// ---------------------------------------------------------------------------

/// Removes the leading run of `'#'` characters.
pub open spec fn strip_hashes(s: Seq<char>) -> Seq<char>
    decreases s.len(),
{
    if s.len() > 0 && s[0] == '#' {
        strip_hashes(s.drop_first())
    } else {
        s
    }
}

/// Removes leading whitespace.
pub open spec fn trim_start_spaces(s: Seq<char>) -> Seq<char>
    decreases s.len(),
{
    if s.len() > 0 && is_space(s[0]) {
        trim_start_spaces(s.drop_first())
    } else {
        s
    }
}

/// Removes trailing whitespace.
pub open spec fn trim_end_spaces(s: Seq<char>) -> Seq<char>
    decreases s.len(),
{
    if s.len() > 0 && is_space(s.last()) {
        trim_end_spaces(s.drop_last())
    } else {
        s
    }
}

/// A title line, cleaned: the leading run of `'#'` characters removed,
/// then whitespace stripped from both ends.
pub open spec fn title_of(line: Seq<char>) -> Seq<char> {
    trim_end_spaces(trim_start_spaces(strip_hashes(line)))
}

proof fn lemma_strip_hashes_skip(s: Seq<char>, k: int)
    requires
        0 <= k <= s.len(),
        forall|j: int| 0 <= j < k ==> s[j] == '#',
        k == s.len() || s[k] != '#',
    ensures
        strip_hashes(s) == s.skip(k),
    decreases k,
{
    if k == 0 {
        assert(s.skip(0) =~= s);
    } else {
        let t = s.drop_first();
        assert(forall|j: int| 0 <= j < t.len() ==> t[j] == s[j + 1]);
        lemma_strip_hashes_skip(t, k - 1);
        assert(t.skip(k - 1) =~= s.skip(k));
    }
}

proof fn lemma_trim_start_skip(s: Seq<char>, k: int)
    requires
        0 <= k <= s.len(),
        forall|j: int| 0 <= j < k ==> is_space(#[trigger] s[j]),
        k == s.len() || !is_space(s[k]),
    ensures
        trim_start_spaces(s) == s.skip(k),
    decreases k,
{
    if k == 0 {
        assert(s.skip(0) =~= s);
    } else {
        let t = s.drop_first();
        assert(forall|j: int| 0 <= j < t.len() ==> t[j] == s[j + 1]);
        lemma_trim_start_skip(t, k - 1);
        assert(t.skip(k - 1) =~= s.skip(k));
    }
}

proof fn lemma_trim_end_take(s: Seq<char>, k: int)
    requires
        0 <= k <= s.len(),
        forall|j: int| k <= j < s.len() ==> is_space(#[trigger] s[j]),
        k == 0 || !is_space(s[k - 1]),
    ensures
        trim_end_spaces(s) == s.take(k),
    decreases s.len() - k,
{
    if k == s.len() {
        assert(s.take(k) =~= s);
    } else {
        let t = s.drop_last();
        assert(forall|j: int| 0 <= j < t.len() ==> t[j] == s[j]);
        lemma_trim_end_take(t, k);
        assert(t.take(k) =~= s.take(k));
    }
}

/// Cleans a title line the way the generator's label expects it.
pub fn strip_title(line: &Vec<char>) -> (r: Vec<char>)
    ensures
        r@ == title_of(line@),
{
    let n = line.len();
    let mut lo: usize = 0;
    while lo < n && line[lo] == '#'
        invariant
            lo <= n == line@.len(),
            forall|j: int| 0 <= j < lo ==> line@[j] == '#',
        decreases n - lo,
    {
        lo += 1;
    }
    let ghost hashes_end: int = lo as int;
    while lo < n && is_space_char(line[lo])
        invariant
            hashes_end <= lo <= n == line@.len(),
            forall|j: int| 0 <= j < hashes_end ==> line@[j] == '#',
            hashes_end == line@.len() || line@[hashes_end] != '#',
            forall|j: int| hashes_end <= j < lo ==> is_space(#[trigger] line@[j]),
        decreases n - lo,
    {
        lo += 1;
    }
    let mut hi: usize = n;
    while hi > lo && is_space_char(line[hi - 1])
        invariant
            lo <= hi <= n == line@.len(),
            forall|j: int| hi <= j < n ==> is_space(#[trigger] line@[j]),
        decreases hi,
    {
        hi -= 1;
    }
    let r = copy_range(line, lo, hi);
    proof {
        lemma_strip_hashes_skip(line@, hashes_end);
        let t1 = line@.skip(hashes_end);
        assert(forall|j: int| 0 <= j < t1.len() ==> t1[j] == line@[j + hashes_end]);
        lemma_trim_start_skip(t1, lo - hashes_end);
        assert(t1.skip(lo - hashes_end) =~= line@.skip(lo as int));
        let t2 = line@.skip(lo as int);
        assert(forall|j: int| 0 <= j < t2.len() ==> t2[j] == line@[j + lo]);
        lemma_trim_end_take(t2, hi - lo);
        assert(t2.take(hi - lo) =~= line@.subrange(lo as int, hi as int));
    }
    r
}

} // verus!
