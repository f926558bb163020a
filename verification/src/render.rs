//! Verified textual rendering of a record: `"<year> <rating> <title>"` with
//! a trailing line break, the one format every query's output uses.

use vstd::prelude::*;
use crate::movies::Movie;
use crate::parse::strip_trailing;

verus! {

pub open spec fn digit_char(d: nat) -> char {
    if d == 0 {
        '0'
    } else if d == 1 {
        '1'
    } else if d == 2 {
        '2'
    } else if d == 3 {
        '3'
    } else if d == 4 {
        '4'
    } else if d == 5 {
        '5'
    } else if d == 6 {
        '6'
    } else if d == 7 {
        '7'
    } else if d == 8 {
        '8'
    } else {
        '9'
    }
}

/// The decimal digits of `n`, most significant first, no leading zeros
/// (a single `'0'` for zero).
pub open spec fn dec_seq(n: nat) -> Seq<char>
    decreases n,
{
    if n < 10 {
        seq![digit_char(n)]
    } else {
        dec_seq(n / 10).push(digit_char(n % 10))
    }
}

/// `k` copies of `'0'`.
pub open spec fn zeros(k: nat) -> Seq<char>
    decreases k,
{
    if k == 0 {
        Seq::empty()
    } else {
        zeros((k - 1) as nat).push('0')
    }
}

/// A signed decimal integer, `-` before the digits when negative.
pub open spec fn render_int_spec(v: int) -> Seq<char> {
    if v < 0 {
        seq!['-'] + dec_seq((-v) as nat)
    } else {
        dec_seq(v as nat)
    }
}

/// A fixed-point rating in millionths, written the way a decimal number
/// prints: integer part, then a dot and the fraction digits only when the
/// fraction is not zero, trailing fraction zeros dropped.
pub open spec fn render_rating_spec(r: int) -> Seq<char> {
    let a = if r < 0 {
        -r
    } else {
        r
    };
    let ip = (a / 1_000_000) as nat;
    let fp = (a % 1_000_000) as nat;
    let sign: Seq<char> = if r < 0 {
        seq!['-']
    } else {
        Seq::empty()
    };
    if fp == 0 {
        sign + dec_seq(ip)
    } else {
        sign + dec_seq(ip) + seq!['.'] + strip_trailing(
            zeros((6 - dec_seq(fp).len()) as nat) + dec_seq(fp),
            '0',
        )
    }
}

/// The one record rendering every query uses.
pub open spec fn render_movie_spec(m: Movie) -> Seq<char> {
    render_int_spec(m.year as int) + seq![' '] + render_rating_spec(m.rating as int) + seq![' ']
        + m.title@ + seq!['\n']
}

fn digit_str(d: u64) -> (r: &'static str)
    requires
        d < 10,
    ensures
        r@ == seq![digit_char(d as nat)],
{
    if d == 0 {
        let s = "0";
        proof {
            reveal_strlit("0");
            assert(s@ =~= seq![digit_char(0)]);
        }
        s
    } else if d == 1 {
        let s = "1";
        proof {
            reveal_strlit("1");
            assert(s@ =~= seq![digit_char(1)]);
        }
        s
    } else if d == 2 {
        let s = "2";
        proof {
            reveal_strlit("2");
            assert(s@ =~= seq![digit_char(2)]);
        }
        s
    } else if d == 3 {
        let s = "3";
        proof {
            reveal_strlit("3");
            assert(s@ =~= seq![digit_char(3)]);
        }
        s
    } else if d == 4 {
        let s = "4";
        proof {
            reveal_strlit("4");
            assert(s@ =~= seq![digit_char(4)]);
        }
        s
    } else if d == 5 {
        let s = "5";
        proof {
            reveal_strlit("5");
            assert(s@ =~= seq![digit_char(5)]);
        }
        s
    } else if d == 6 {
        let s = "6";
        proof {
            reveal_strlit("6");
            assert(s@ =~= seq![digit_char(6)]);
        }
        s
    } else if d == 7 {
        let s = "7";
        proof {
            reveal_strlit("7");
            assert(s@ =~= seq![digit_char(7)]);
        }
        s
    } else if d == 8 {
        let s = "8";
        proof {
            reveal_strlit("8");
            assert(s@ =~= seq![digit_char(8)]);
        }
        s
    } else {
        let s = "9";
        proof {
            reveal_strlit("9");
            assert(s@ =~= seq![digit_char(9)]);
        }
        s
    }
}

/// Append the decimal digits of `n` to `out`.
fn push_dec(n: u64, out: &mut String)
    ensures
        final(out)@ == old(out)@ + dec_seq(n as nat),
    decreases n,
{
    if n >= 10 {
        push_dec(n / 10, out);
    }
    let ghost mid = out@;
    out.append(digit_str(n % 10));
    proof {
        if n < 10 {
            assert(old(out)@ + dec_seq(n as nat) =~= mid + seq![digit_char(n as nat)]);
        } else {
            assert(old(out)@ + dec_seq(n as nat) =~= mid + seq![digit_char((n % 10) as nat)]);
        }
    }
}

/// How many decimal digits `dec_seq` writes for `n`.
proof fn lemma_dec_seq_len_le(n: nat, k: nat)
    requires
        k >= 1,
        n < crate::parse::pow10(k),
    ensures
        dec_seq(n).len() <= k,
    decreases k,
{
    if n >= 10 {
        assert(crate::parse::pow10(k) == 10 * crate::parse::pow10((k - 1) as nat));
        lemma_dec_seq_len_le(n / 10, (k - 1) as nat);
    }
}

/// Multiplying by ten appends a zero digit.
proof fn lemma_dec_seq_mul10(m: nat)
    requires
        m > 0,
    ensures
        dec_seq(m * 10) == dec_seq(m).push('0'),
{
    assert(m * 10 >= 10);
    assert((m * 10) / 10 == m);
    assert((m * 10) % 10 == 0);
}

/// Stripping trailing zeros from the digits of `n` leaves the digits of `n`
/// with its trailing zero digits divided away.
proof fn lemma_strip_dec(n: nat)
    requires
        n > 0,
        n % 10 != 0,
    ensures
        strip_trailing(dec_seq(n), '0') == dec_seq(n),
        dec_seq(n).last() != '0',
{
    if n < 10 {
        assert(dec_seq(n) == seq![digit_char(n)]);
        assert(dec_seq(n).last() == digit_char(n));
        assert(digit_char(n % 10) != '0');
    } else {
        assert(dec_seq(n).last() == digit_char(n % 10));
        assert(digit_char(n % 10) != '0');
    }
}

proof fn lemma_strip_push_zero(s: Seq<char>)
    ensures
        strip_trailing(s.push('0'), '0') == strip_trailing(s, '0'),
{
    assert(s.push('0').last() == '0');
    assert(s.push('0').drop_last() =~= s);
}

/// Stripping a char from the tail of a concatenation stays inside the right
/// part while the right part still holds some other character.
proof fn lemma_strip_concat(a: Seq<char>, b: Seq<char>, c: char)
    requires
        exists|i: int| 0 <= i < b.len() && b[i] != c,
    ensures
        strip_trailing(a + b, c) == a + strip_trailing(b, c),
    decreases b.len(),
{
    let w = choose|i: int| 0 <= i < b.len() && b[i] != c;
    if (a + b).last() == c {
        assert(b.len() > 0);
        assert((a + b).last() == b.last());
        assert(b.last() == c);
        assert(w < b.len() - 1);
        let b2 = b.drop_last();
        assert(b2[w] == b[w]);
        assert((a + b).drop_last() =~= a + b2);
        lemma_strip_concat(a, b2, c);
    } else {
        assert(b.len() > 0 && b.last() != c) by {
            if b.len() == 0 {
                assert(b[w] != c);
            } else {
                assert((a + b).last() == b.last());
            }
        }
        assert(strip_trailing(b, c) == b);
    }
}

/// Render a record as `"<year> <rating> <title>"` and a line break.
pub fn render_movie(m: &Movie) -> (r: String)
    ensures
        r@ == render_movie_spec(*m),
{
    let mut out = String::new();
    // Year.
    let y: i64 = m.year as i64;
    if y < 0 {
        let s = "-";
        proof {
            reveal_strlit("-");
            assert(s@ =~= seq!['-']);
        }
        out.append(s);
        push_dec((-y) as u64, &mut out);
    } else {
        push_dec(y as u64, &mut out);
    }
    proof {
        assert(out@ =~= render_int_spec(m.year as int)) by {
            assert(Seq::<char>::empty() + seq!['-'] =~= seq!['-']);
        }
    }
    let sp = " ";
    proof {
        reveal_strlit(" ");
        assert(sp@ =~= seq![' ']);
    }
    out.append(sp);
    // Rating.
    let ghost before_rating = out@;
    let rv: i64 = m.rating;
    let a: u64 = if rv < 0 {
        (-(rv as i128)) as u64
    } else {
        rv as u64
    };
    if rv < 0 {
        let s = "-";
        proof {
            reveal_strlit("-");
            assert(s@ =~= seq!['-']);
        }
        out.append(s);
    }
    let ip: u64 = a / 1_000_000;
    let fp: u64 = a % 1_000_000;
    push_dec(ip, &mut out);
    if fp > 0 {
        let dot = ".";
        proof {
            reveal_strlit(".");
            assert(dot@ =~= seq!['.']);
        }
        out.append(dot);
        // Count the digits of the fraction to know how much zero padding
        // the six fixed fraction places need.
        proof {
            crate::parse::lemma_pow10_values();
            lemma_dec_seq_len_le(fp as nat, 6);
        }
        let mut t: u64 = fp;
        let mut digs: u64 = 1;
        while t >= 10
            invariant
                t >= 1,
                digs >= 1,
                dec_seq(fp as nat).len() <= 6,
                dec_seq(fp as nat).len() == digs - 1 + dec_seq(t as nat).len(),
            decreases t,
        {
            t = t / 10;
            digs = digs + 1;
        }
        proof {
            assert(dec_seq(t as nat).len() == 1);
            assert(dec_seq(fp as nat).len() == digs);
        }
        let mut z: u64 = 0;
        let zc: u64 = 6 - digs;
        let zero = "0";
        proof {
            reveal_strlit("0");
            assert(zero@ =~= seq!['0']);
        }
        let ghost before_frac = out@;
        proof {
            assert(before_frac + zeros(0) =~= before_frac);
        }
        while z < zc
            invariant
                z <= zc,
                zero@ == seq!['0'],
                out@ == before_frac + zeros(z as nat),
            decreases zc - z,
        {
            out.append(zero);
            proof {
                assert(before_frac + zeros((z + 1) as nat) =~= (before_frac + zeros(z as nat))
                    + seq!['0']);
            }
            z = z + 1;
        }
        // Drop the trailing zero digits of the fraction itself.
        let mut f2: u64 = fp;
        while f2 % 10 == 0
            invariant
                f2 >= 1,
                fp >= 1,
                strip_trailing(dec_seq(fp as nat), '0') == strip_trailing(dec_seq(f2 as nat), '0'),
            decreases f2,
        {
            proof {
                lemma_dec_seq_mul10((f2 / 10) as nat);
                assert((f2 / 10) * 10 == f2);
                lemma_strip_push_zero(dec_seq((f2 / 10) as nat));
            }
            f2 = f2 / 10;
        }
        proof {
            lemma_strip_dec(f2 as nat);
        }
        push_dec(f2, &mut out);
        proof {
            let fseq = dec_seq(fp as nat);
            // The fraction digits contain a nonzero digit, so stripping the
            // padded form strips only inside the digit part.
            assert(exists|i: int| 0 <= i < fseq.len() && fseq[i] != '0') by {
                let stripped = strip_trailing(fseq, '0');
                assert(stripped == dec_seq(f2 as nat));
                assert(stripped.len() >= 1);
                assert(stripped.last() != '0');
                lemma_strip_trailing_sub(fseq, '0');
                assert(fseq[stripped.len() - 1] == stripped[stripped.len() - 1]);
            }
            lemma_strip_concat(zeros((6 - fseq.len()) as nat), fseq, '0');
            assert(out@ == before_frac + zeros(zc as nat) + dec_seq(f2 as nat));
            assert(zeros(zc as nat) + dec_seq(f2 as nat) =~= zeros(zc as nat) + strip_trailing(
                fseq,
                '0',
            ));
            assert(out@ =~= before_rating + render_rating_spec(m.rating as int));
        }
    } else {
        proof {
            assert(out@ =~= before_rating + render_rating_spec(m.rating as int)) by {
                assert(Seq::<char>::empty() + seq!['-'] =~= seq!['-']);
            }
        }
    }
    out.append(sp);
    out.append(m.title.as_str());
    let nl = "\n";
    proof {
        reveal_strlit("\n");
        assert(nl@ =~= seq!['\n']);
    }
    out.append(nl);
    proof {
        assert(out@ =~= render_movie_spec(*m));
    }
    out
}

/// Render the record at catalog position `i` by walking the chain to it.
pub fn render_at(movies: &crate::list::List<Movie>, i: usize) -> (r: String)
    requires
        movies.wf(),
        i < movies@.len(),
    ensures
        r@ == render_movie_spec(movies@[i as int]),
{
    let mut it = movies.traverse();
    let mut k: usize = 0;
    while k < i
        invariant
            k <= i,
            i < movies@.len(),
            it.remaining() =~= movies@.skip(k as int),
        decreases i - k,
    {
        let _ = it.next();
        k += 1;
    }
    let m = it.next().unwrap();
    proof {
        assert(*m == movies@.skip(i as int)[0]);
        assert(movies@[i as int] == movies@.skip(i as int)[0]);
    }
    render_movie(m)
}

/// A stripped digit string is a prefix of the unstripped one.
proof fn lemma_strip_trailing_sub(s: Seq<char>, c: char)
    ensures
        strip_trailing(s, c).len() <= s.len(),
        forall|i: int|
            0 <= i < strip_trailing(s, c).len() ==> #[trigger] strip_trailing(s, c)[i] == s[i],
    decreases s.len(),
{
    if s.len() > 0 && s.last() == c {
        lemma_strip_trailing_sub(s.drop_last(), c);
    }
}

} // verus!
