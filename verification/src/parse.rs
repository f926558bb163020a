//! Verified text handling: splitting on a delimiter, stripping bracket
//! markers, and parsing decimal integers and fixed-point ratings.

use vstd::prelude::*;

verus! {

/// Index of the first occurrence of `d` in `s`, or `s.len()` if absent.
pub open spec fn find_char(s: Seq<char>, d: char) -> nat
    decreases s.len(),
{
    if s.len() == 0 {
        0
    } else if s[0] == d {
        0
    } else {
        1 + find_char(s.skip(1), d)
    }
}

/// `find_char` is determined by where the delimiter first stands.
pub proof fn lemma_find_char_at(s: Seq<char>, d: char, j: int)
    requires
        0 <= j <= s.len(),
        forall|m: int| 0 <= m < j ==> s[m] != d,
        j == s.len() || s[j] == d,
    ensures
        find_char(s, d) == j,
    decreases j,
{
    if j == 0 {
    } else {
        assert(s[0] != d);
        let t = s.skip(1);
        assert forall|m: int| 0 <= m < j - 1 implies t[m] != d by {
            assert(t[m] == s[m + 1]);
        }
        if j < s.len() {
            assert(t[j - 1] == s[j]);
        }
        lemma_find_char_at(t, d, j - 1);
    }
}

/// The tokens of `s` between occurrences of `d`: always one more token than
/// there are delimiters, matching how the delimiter-split of a text behaves.
pub open spec fn split_seq(s: Seq<char>, d: char) -> Seq<Seq<char>>
    decreases s.len(),
{
    let i = find_char(s, d);
    if i >= s.len() {
        seq![s]
    } else {
        seq![s.take(i as int)] + split_seq(s.skip(i + 1 as int), d)
    }
}

/// Split `s` on the character `d`, preserving std's convention that `n`
/// delimiters yield `n + 1` tokens (empty tokens included).
pub fn split_str(s: &str, d: char) -> (v: Vec<String>)
    ensures
        v@.len() == split_seq(s@, d).len(),
        forall|j: int| 0 <= j < v@.len() ==> #[trigger] v@[j]@ == split_seq(s@, d)[j],
{
    let n = s.unicode_len();
    let mut v: Vec<String> = Vec::new();
    let mut start: usize = 0;
    let mut i: usize = 0;
    proof {
        assert(s@.skip(0) =~= s@);
    }
    while i < n
        invariant
            n == s@.len(),
            start <= i <= n,
            forall|m: int| start <= m < i ==> s@[m] != d,
            split_seq(s@, d) =~= v@.map_values(|t: String| t@) + split_seq(
                s@.skip(start as int),
                d,
            ),
            forall|j: int| 0 <= j < v@.len() ==> #[trigger] v@[j]@ == split_seq(s@, d)[j],
        decreases n - i,
    {
        let c = s.get_char(i);
        if c == d {
            let tok: String = s.substring_char(start, i).to_owned();
            proof {
                let suf = s@.skip(start as int);
                assert forall|m: int| 0 <= m < i - start implies suf[m] != d by {
                    assert(suf[m] == s@[m + start]);
                }
                assert(suf[i - start] == s@[i as int]);
                lemma_find_char_at(suf, d, i - start);
                assert(suf.take(i - start) =~= s@.subrange(start as int, i as int));
                assert(suf.skip(i - start + 1) =~= s@.skip(i + 1));
                assert(split_seq(suf, d) == seq![s@.subrange(start as int, i as int)]
                    + split_seq(s@.skip(i + 1), d));
            }
            let ghost old_v = v@;
            v.push(tok);
            proof {
                assert(v@.map_values(|t: String| t@) =~= old_v.map_values(|t: String| t@).push(
                    tok@,
                ));
                assert(split_seq(s@, d) =~= v@.map_values(|t: String| t@) + split_seq(
                    s@.skip(i + 1),
                    d,
                ));
            }
            start = i + 1;
        }
        i += 1;
    }
    let tok: String = s.substring_char(start, n).to_owned();
    proof {
        let suf = s@.skip(start as int);
        assert forall|m: int| 0 <= m < suf.len() implies suf[m] != d by {
            assert(suf[m] == s@[m + start]);
        }
        lemma_find_char_at(suf, d, suf.len() as int);
        assert(split_seq(suf, d) == seq![suf]);
        assert(suf =~= s@.subrange(start as int, n as int));
    }
    let ghost old_v = v@;
    v.push(tok);
    proof {
        assert(v@.map_values(|t: String| t@) =~= old_v.map_values(|t: String| t@).push(tok@));
        assert(split_seq(s@, d) =~= v@.map_values(|t: String| t@));
    }
    v
}

/// Largest integer part accepted for a rating; keeps the fixed-point value
/// (millionths) well inside the `i64` range.
pub const MAX_RATING_INT: u64 = 1_000_000_000_000;

/// Number of fixed-point fraction digits a rating is stored with.
pub const RATING_FRAC_DIGITS: u64 = 6;

pub open spec fn is_digit(c: char) -> bool {
    '0' <= c && c <= '9'
}

pub open spec fn digit_val(c: char) -> int {
    (c as u32) - ('0' as u32)
}

pub open spec fn all_digits(s: Seq<char>) -> bool {
    forall|i: int| 0 <= i < s.len() ==> is_digit(#[trigger] s[i])
}

/// Value of a digit string, most significant digit first.
pub open spec fn digits_val(s: Seq<char>) -> int
    decreases s.len(),
{
    if s.len() == 0 {
        0
    } else {
        digits_val(s.drop_last()) * 10 + digit_val(s.last())
    }
}

pub open spec fn pow10(k: nat) -> int
    decreases k,
{
    if k == 0 {
        1
    } else {
        10 * pow10((k - 1) as nat)
    }
}

pub proof fn lemma_digits_val_bound(s: Seq<char>)
    requires
        all_digits(s),
    ensures
        0 <= digits_val(s) < pow10(s.len()),
    decreases s.len(),
{
    if s.len() > 0 {
        let p = s.drop_last();
        assert(all_digits(p));
        lemma_digits_val_bound(p);
        assert(is_digit(s.last()));
        assert(0 <= digit_val(s.last()) <= 9);
        assert(digits_val(p) * 10 + 9 < pow10(p.len()) * 10) by {
            assert(digits_val(p) + 1 <= pow10(p.len()));
            assert((digits_val(p) + 1) * 10 <= pow10(p.len()) * 10) by (nonlinear_arith)
                requires
                    digits_val(p) + 1 <= pow10(p.len()),
            ;
        }
        assert(pow10(s.len()) == 10 * pow10(p.len()));
    }
}

/// A digit string's value grows (weakly) with each further digit.
pub proof fn lemma_digits_prefix_le(s: Seq<char>, j: int)
    requires
        all_digits(s),
        0 <= j <= s.len(),
    ensures
        digits_val(s.take(j)) <= digits_val(s),
    decreases s.len() - j,
{
    if j < s.len() {
        let t = s.take(j + 1);
        assert(t.drop_last() =~= s.take(j));
        assert(t.last() == s[j]);
        assert(all_digits(s.take(j)));
        lemma_digits_val_bound(s.take(j));
        assert(digits_val(s.take(j)) * 10 >= digits_val(s.take(j))) by (nonlinear_arith)
            requires
                digits_val(s.take(j)) >= 0,
        ;
        assert(digits_val(t) >= digits_val(s.take(j)));
        lemma_digits_prefix_le(s, j + 1);
    } else {
        assert(s.take(j) =~= s);
    }
}

/// Read the characters of `s` in `[from, to)` as a digit string.
/// `None` means they are not all digits, or their value is over `cap`.
fn scan_digits(s: &str, from: usize, to: usize, cap: u64) -> (r: Option<u64>)
    requires
        from <= to <= s@.len(),
        cap <= 1_000_000_000_000_000_000,
    ensures
        ({
            let sub = s@.subrange(from as int, to as int);
            &&& r matches Some(v) ==> all_digits(sub) && v == digits_val(sub) && v <= cap
            &&& r is None ==> !all_digits(sub) || digits_val(sub) > cap
        }),
{
    let ghost sub = s@.subrange(from as int, to as int);
    let mut acc: u64 = 0;
    let mut i: usize = from;
    while i < to
        invariant
            from <= i <= to <= s@.len(),
            cap <= 1_000_000_000_000_000_000,
            sub == s@.subrange(from as int, to as int),
            all_digits(sub.take(i - from)),
            acc == digits_val(sub.take(i - from)),
            acc <= cap,
        decreases to - i,
    {
        let c = s.get_char(i);
        let cu = c as u32;
        proof {
            assert(sub[i - from] == s@[i as int]);
        }
        if cu < '0' as u32 || cu > '9' as u32 {
            proof {
                assert(!is_digit(sub[i - from]));
            }
            return None;
        }
        let d = (cu - '0' as u32) as u64;
        let next = acc * 10 + d;
        proof {
            let t = sub.take(i - from + 1);
            assert(t.drop_last() =~= sub.take(i - from));
            assert(t.last() == sub[i - from]);
            assert(digits_val(t) == acc * 10 + d);
        }
        if next > cap {
            proof {
                lemma_digits_prefix_le_or_not(sub, i - from + 1, cap as int);
            }
            return None;
        }
        acc = next;
        i += 1;
    }
    proof {
        assert(sub.take(to - from) =~= sub);
    }
    Some(acc)
}

/// If some prefix of the digit string is already over `cap`, the whole
/// string is either not all digits or also over `cap`.
proof fn lemma_digits_prefix_le_or_not(s: Seq<char>, j: int, cap: int)
    requires
        0 <= j <= s.len(),
        digits_val(s.take(j)) > cap,
    ensures
        !all_digits(s) || digits_val(s) > cap,
{
    if all_digits(s) {
        lemma_digits_prefix_le(s, j);
    }
}

/// The digit part of a signed number: everything after an optional sign.
pub open spec fn num_body(s: Seq<char>) -> Seq<char> {
    if s.len() > 0 && (s[0] == '+' || s[0] == '-') {
        s.skip(1)
    } else {
        s
    }
}

pub open spec fn is_neg(s: Seq<char>) -> bool {
    s.len() > 0 && s[0] == '-'
}

/// A decimal integer: optional sign, then one or more digits.
pub open spec fn valid_int_str(s: Seq<char>) -> bool {
    num_body(s).len() > 0 && all_digits(num_body(s))
}

pub open spec fn int_str_val(s: Seq<char>) -> int {
    if is_neg(s) {
        -digits_val(num_body(s))
    } else {
        digits_val(num_body(s))
    }
}

pub open spec fn valid_i32_str(s: Seq<char>) -> bool {
    valid_int_str(s) && i32::MIN <= int_str_val(s) <= i32::MAX
}

/// Parse a 32-bit integer: optional `+`/`-` sign, one or more decimal
/// digits, value within the `i32` range; `None` exactly otherwise.
pub fn parse_i32(s: &str) -> (r: Option<i32>)
    ensures
        r is Some <==> valid_i32_str(s@),
        r matches Some(v) ==> v as int == int_str_val(s@),
{
    let n = s.unicode_len();
    let mut pos: usize = 0;
    let mut neg = false;
    if n > 0 {
        let c = s.get_char(0);
        if c == '+' {
            pos = 1;
        } else if c == '-' {
            neg = true;
            pos = 1;
        }
    }
    proof {
        assert(num_body(s@) =~= s@.skip(pos as int));
        assert(neg == is_neg(s@));
    }
    if pos >= n {
        return None;
    }
    let scanned = scan_digits(s, pos, n, 2_147_483_648);
    proof {
        assert(s@.subrange(pos as int, n as int) =~= num_body(s@));
    }
    match scanned {
        None => None,
        Some(v) => {
            if neg {
                proof {
                    if v < 2_147_483_648 {
                        assert(int_str_val(s@) == -(v as int));
                    }
                }
                Some((-(v as i64)) as i32)
            } else {
                if v > 2_147_483_647 {
                    None
                } else {
                    Some(v as i32)
                }
            }
        },
    }
}

/// A rating: optional sign, one or more integer digits whose value is at
/// most `MAX_RATING_INT`, then optionally a dot and up to six fraction
/// digits.
pub open spec fn valid_rating_str(s: Seq<char>) -> bool {
    let b = num_body(s);
    let dot = find_char(b, '.') as int;
    if dot >= b.len() {
        b.len() > 0 && all_digits(b) && digits_val(b) <= MAX_RATING_INT
    } else {
        let ip = b.take(dot);
        let fp = b.skip(dot + 1);
        &&& ip.len() > 0
        &&& all_digits(ip)
        &&& all_digits(fp)
        &&& fp.len() <= RATING_FRAC_DIGITS
        &&& digits_val(ip) <= MAX_RATING_INT
    }
}

/// The fixed-point value (in millionths) a rating text denotes.
pub open spec fn rating_str_val(s: Seq<char>) -> int {
    let b = num_body(s);
    let dot = find_char(b, '.') as int;
    let mag = if dot >= b.len() {
        digits_val(b) * 1_000_000
    } else {
        let fp = b.skip(dot + 1);
        digits_val(b.take(dot)) * 1_000_000 + digits_val(fp) * pow10(
            (RATING_FRAC_DIGITS - fp.len()) as nat,
        )
    };
    if is_neg(s) {
        -mag
    } else {
        mag
    }
}

/// Parse a rating into fixed-point millionths; `None` exactly on texts that
/// `valid_rating_str` rejects.
pub fn parse_rating(s: &str) -> (r: Option<i64>)
    ensures
        r is Some <==> valid_rating_str(s@),
        r matches Some(v) ==> v as int == rating_str_val(s@),
{
    let n = s.unicode_len();
    let mut pos: usize = 0;
    let mut neg = false;
    if n > 0 {
        let c = s.get_char(0);
        if c == '+' {
            pos = 1;
        } else if c == '-' {
            neg = true;
            pos = 1;
        }
    }
    let ghost b = num_body(s@);
    proof {
        assert(b =~= s@.skip(pos as int));
        assert(neg == is_neg(s@));
    }
    // Find the first dot in the body.
    let mut dot: usize = pos;
    while dot < n && s.get_char(dot) != '.'
        invariant
            pos <= dot <= n,
            n == s@.len(),
            forall|m: int| pos <= m < dot ==> s@[m] != '.',
        decreases n - dot,
    {
        dot += 1;
    }
    proof {
        assert forall|m: int| 0 <= m < dot - pos implies b[m] != '.' by {
            assert(b[m] == s@[m + pos]);
        }
        if dot < n {
            assert(b[dot - pos] == s@[dot as int]);
        }
        lemma_find_char_at(b, '.', dot - pos);
    }
    if dot == pos {
        // Empty integer part (or empty body altogether).
        return None;
    }
    let ip_val = match scan_digits(s, pos, dot, 1_000_000_000_000) {
        None => {
            proof {
                assert(s@.subrange(pos as int, dot as int) =~= b.take(dot - pos));
                if dot == n {
                    assert(b.take(dot - pos) =~= b);
                }
            }
            return None;
        },
        Some(v) => v,
    };
    proof {
        assert(s@.subrange(pos as int, dot as int) =~= b.take(dot - pos));
        if dot == n {
            assert(b.take(dot - pos) =~= b);
        }
    }
    if dot == n {
        let mag = ip_val * 1_000_000;
        let v: i64 = if neg {
            -(mag as i64)
        } else {
            mag as i64
        };
        return Some(v);
    }
    // Fraction part after the dot.
    let fp_len = n - dot - 1;
    if fp_len > 6 {
        return None;
    }
    let ghost fp = b.skip(dot - pos + 1);
    proof {
        assert(fp =~= s@.subrange(dot + 1 as int, n as int));
        assert(fp.len() == fp_len);
    }
    let fp_val = match scan_digits(s, dot + 1, n, 1_000_000_000_000) {
        None => {
            proof {
                lemma_digits_val_small(fp);
            }
            return None;
        },
        Some(v) => v,
    };
    proof {
        lemma_digits_val_bound(fp);
        lemma_pow10_values();
    }
    let scaled: u64 = if fp_len == 0 {
        proof {
            assert(fp =~= Seq::<char>::empty());
        }
        0
    } else if fp_len == 1 {
        fp_val * 100_000
    } else if fp_len == 2 {
        fp_val * 10_000
    } else if fp_len == 3 {
        fp_val * 1_000
    } else if fp_len == 4 {
        fp_val * 100
    } else if fp_len == 5 {
        fp_val * 10
    } else {
        fp_val
    };
    let mag = ip_val * 1_000_000 + scaled;
    let v: i64 = if neg {
        -(mag as i64)
    } else {
        mag as i64
    };
    Some(v)
}

/// A digit string of at most six digits stays under the rating cap.
proof fn lemma_digits_val_small(s: Seq<char>)
    requires
        s.len() <= 6,
    ensures
        !all_digits(s) || digits_val(s) <= 1_000_000_000_000,
{
    if all_digits(s) {
        lemma_digits_val_bound(s);
        lemma_pow10_values();
    }
}

/// `s` without its maximal run of leading `c` characters.
pub open spec fn strip_leading(s: Seq<char>, c: char) -> Seq<char>
    decreases s.len(),
{
    if s.len() > 0 && s[0] == c {
        strip_leading(s.skip(1), c)
    } else {
        s
    }
}

/// `s` without its maximal run of trailing `c` characters.
pub open spec fn strip_trailing(s: Seq<char>, c: char) -> Seq<char>
    decreases s.len(),
{
    if s.len() > 0 && s.last() == c {
        strip_trailing(s.drop_last(), c)
    } else {
        s
    }
}

/// A language token with bracket markers removed: leading `[` runs and
/// trailing `]` runs are both stripped, wherever the token stood.
pub open spec fn strip_brackets_spec(s: Seq<char>) -> Seq<char> {
    strip_trailing(strip_leading(s, '['), ']')
}

proof fn lemma_strip_leading_at(s: Seq<char>, c: char, a: int)
    requires
        0 <= a <= s.len(),
        forall|m: int| 0 <= m < a ==> s[m] == c,
        a == s.len() || s[a] != c,
    ensures
        strip_leading(s, c) == s.skip(a),
    decreases a,
{
    if a == 0 {
        assert(s.skip(0) =~= s);
    } else {
        let t = s.skip(1);
        assert forall|m: int| 0 <= m < a - 1 implies t[m] == c by {
            assert(t[m] == s[m + 1]);
        }
        if a < s.len() {
            assert(t[a - 1] == s[a]);
        }
        lemma_strip_leading_at(t, c, a - 1);
        assert(t.skip(a - 1) =~= s.skip(a));
    }
}

proof fn lemma_strip_trailing_at(s: Seq<char>, c: char, b: int)
    requires
        0 <= b <= s.len(),
        forall|m: int| s.len() - b <= m < s.len() ==> s[m] == c,
        b == s.len() || s[s.len() - b - 1] != c,
    ensures
        strip_trailing(s, c) == s.take(s.len() - b),
    decreases b,
{
    if b == 0 {
        assert(s.take(s.len() as int) =~= s);
    } else {
        let t = s.drop_last();
        assert(s.last() == c);
        assert forall|m: int| t.len() - (b - 1) <= m < t.len() implies t[m] == c by {
            assert(t[m] == s[m]);
        }
        lemma_strip_trailing_at(t, c, b - 1);
        assert(t.take(t.len() - (b - 1)) =~= s.take(s.len() - b));
    }
}

/// Strip bracket markers from one language token.
pub fn strip_brackets(tok: &str) -> (r: String)
    ensures
        r@ == strip_brackets_spec(tok@),
{
    let n = tok.unicode_len();
    let mut a: usize = 0;
    while a < n && tok.get_char(a) == '['
        invariant
            a <= n,
            n == tok@.len(),
            forall|m: int| 0 <= m < a ==> tok@[m] == '[',
        decreases n - a,
    {
        a += 1;
    }
    proof {
        lemma_strip_leading_at(tok@, '[', a as int);
    }
    let ghost mid = tok@.skip(a as int);
    let mut e: usize = n;
    while e > a && tok.get_char(e - 1) == ']'
        invariant
            a <= e <= n,
            n == tok@.len(),
            forall|m: int| e <= m < n ==> tok@[m] == ']',
        decreases e,
    {
        e -= 1;
    }
    proof {
        assert forall|m: int| mid.len() - (n - e) <= m < mid.len() implies mid[m] == ']' by {
            assert(mid[m] == tok@[m + a]);
        }
        if e > a {
            assert(mid[mid.len() - (n - e) - 1] == tok@[e - 1]);
        }
        lemma_strip_trailing_at(mid, ']', n - e);
        assert(mid.take(mid.len() - (n - e)) =~= tok@.subrange(a as int, e as int));
    }
    tok.substring_char(a, e).to_owned()
}

/// Concrete values of the small powers of ten the rating scale uses.
pub proof fn lemma_pow10_values()
    ensures
        pow10(0) == 1,
        pow10(1) == 10,
        pow10(2) == 100,
        pow10(3) == 1_000,
        pow10(4) == 10_000,
        pow10(5) == 100_000,
        pow10(6) == 1_000_000,
{
    assert(pow10(0) == 1);
    assert(pow10(1) == 10);
    assert(pow10(2) == 100);
    assert(pow10(3) == 1_000);
    assert(pow10(4) == 10_000);
    assert(pow10(5) == 100_000);
    assert(pow10(6) == 1_000_000);
}

} // verus!
