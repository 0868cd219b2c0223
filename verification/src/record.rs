//! The backlog is a line-oriented byte format: one record per line, three
//! whitespace-separated tokens — the literal tag `t1`, the Unix timestamp in
//! whole seconds, and the temperature as a decimal literal. This module
//! defines the format, a writer and a parser, proves them mutually inverse,
//! and gives the store its backlog replay.

use vstd::prelude::*;

use vstd::arithmetic::div_mod::{
    lemma_div_denominator, lemma_div_is_ordered, lemma_div_pos_is_pos, lemma_fundamental_div_mod,
};

use crate::storage::{
    init_model, run_model, lemma_run_unbounded, sorted_by_time, step, Sample, Storage, StoreModel,
};

verus! {

/// ASCII whitespace separating the record's tokens.
pub open spec fn is_ws(b: u8) -> bool {
    b == 32 || b == 9 || b == 10 || b == 13
}

/// The ASCII digit with value `d`.
pub open spec fn digit_byte(d: int) -> u8 {
    (48 + d) as u8
}

/// Decimal digits of `n`, most significant first, without leading zeros.
pub open spec fn dec_digits(n: nat) -> Seq<u8>
    decreases n,
{
    if n < 10 {
        seq![digit_byte(n as int)]
    } else {
        dec_digits(n / 10).push(digit_byte((n % 10) as int))
    }
}

/// Whether every byte of `t` is an ASCII digit.
pub open spec fn all_digits(t: Seq<u8>) -> bool {
    forall|i: int| 0 <= i < t.len() ==> 48 <= #[trigger] t[i] <= 57
}

/// Numeric value of a digit string, most significant first.
pub open spec fn digits_val(t: Seq<u8>) -> int
    decreases t.len(),
{
    if t.len() == 0 {
        0
    } else {
        digits_val(t.drop_last()) * 10 + (t.last() - 48)
    }
}

/// The three fixed fractional digits of a value `f` in `[0, 1000)`.
pub open spec fn frac3(f: int) -> Seq<u8> {
    seq![digit_byte(f / 100), digit_byte((f / 10) % 10), digit_byte(f % 10)]
}

/// The temperature field: an optional minus sign, the whole degrees, a dot,
/// and exactly three fractional digits (thousandths of a degree).
pub open spec fn temp_bytes(m: int) -> Seq<u8> {
    let a = if m < 0 {
        -m
    } else {
        m
    };
    let sign: Seq<u8> = if m < 0 {
        seq![45u8]
    } else {
        Seq::empty()
    };
    sign + dec_digits((a / 1000) as nat) + seq![46u8] + frac3(a % 1000)
}

/// The one-line backlog record of a sample: tag, timestamp and temperature,
/// separated by single spaces.
pub open spec fn record_bytes(s: Sample) -> Seq<u8> {
    seq![116u8, 49u8, 32u8] + dec_digits(s.timestamp as nat) + seq![32u8] + temp_bytes(
        s.temperature as int,
    )
}

/// The decimal digits of `n` are a non-empty digit string whose value is `n`,
/// and its first digit is never a whitespace byte or a sign.
proof fn lemma_dec_digits_val(n: nat)
    ensures
        dec_digits(n).len() >= 1,
        all_digits(dec_digits(n)),
        digits_val(dec_digits(n)) == n,
    decreases n,
{
    if n < 10 {
        assert(digits_val(dec_digits(n)) == n) by {
            reveal_with_fuel(digits_val, 2);
        }
    } else {
        lemma_dec_digits_val(n / 10);
        let d = dec_digits(n / 10);
        let w = d.push(digit_byte((n % 10) as int));
        assert(w.drop_last() =~= d);
        assert(digits_val(w) == digits_val(d) * 10 + (n % 10));
        lemma_fundamental_div_mod(n as int, 10);
    }
}

/// The value of a digit string never drops as the scanned prefix grows.
proof fn lemma_digits_val_take_monotone(t: Seq<u8>, i: int, j: int)
    requires
        all_digits(t),
        0 <= i <= j <= t.len(),
    ensures
        0 <= digits_val(t.take(i)) <= digits_val(t.take(j)),
    decreases j - i,
{
    if i == j {
        lemma_digits_val_nonneg(t.take(i));
    } else {
        lemma_digits_val_take_monotone(t, i, j - 1);
        assert(t.take(j).drop_last() =~= t.take(j - 1));
        assert(48 <= t[j - 1] <= 57);
        assert(digits_val(t.take(j)) == digits_val(t.take(j - 1)) * 10 + (t[j - 1] - 48));
    }
}

/// A digit string's value is never negative.
proof fn lemma_digits_val_nonneg(t: Seq<u8>)
    requires
        all_digits(t),
    ensures
        digits_val(t) >= 0,
    decreases t.len(),
{
    if t.len() > 0 {
        assert(all_digits(t.drop_last())) by {
            assert(forall|i: int| 0 <= i < t.len() - 1 ==> t.drop_last()[i] == t[i]);
        }
        lemma_digits_val_nonneg(t.drop_last());
    }
}

/// Appends the decimal digits of `n`, most significant first.
fn push_decimal(out: &mut Vec<u8>, n: u64)
    ensures
        final(out)@ == old(out)@ + dec_digits(n as nat),
    decreases n,
{
    if n < 10 {
        out.push(48 + n as u8);
        proof {
            assert(out@ =~= old(out)@ + dec_digits(n as nat));
        }
    } else {
        push_decimal(out, n / 10);
        out.push(48 + (n % 10) as u8);
        proof {
            assert(out@ =~= old(out)@ + dec_digits(n as nat));
        }
    }
}

impl Sample {
    /// Writes the sample's one-line backlog record, without the terminating
    /// newline.
    pub fn serialize(&self) -> (r: Vec<u8>)
        requires
            self.valid(),
        ensures
            r@ == record_bytes(*self),
    {
        let mut out: Vec<u8> = Vec::new();
        out.push(116);
        out.push(49);
        out.push(32);
        push_decimal(&mut out, self.timestamp);
        out.push(32);
        let m = self.temperature;
        let a: i64 = if m < 0 {
            out.push(45);
            -m
        } else {
            m
        };
        push_decimal(&mut out, (a / 1000) as u64);
        out.push(46);
        let f: u64 = (a % 1000) as u64;
        out.push(48 + (f / 100) as u8);
        out.push(48 + ((f / 10) % 10) as u8);
        out.push(48 + (f % 10) as u8);
        proof {
            assert(out@ =~= record_bytes(*self));
        }
        out
    }
}

/// First position at or after `i` holding a byte that is not whitespace.
pub open spec fn skip_ws(s: Seq<u8>, i: int) -> int
    decreases s.len() - i,
{
    if i < 0 || i >= s.len() {
        i
    } else if is_ws(s[i]) {
        skip_ws(s, i + 1)
    } else {
        i
    }
}

/// First position at or after `i` holding a whitespace byte: the end of the
/// token starting at `i`.
pub open spec fn tok_end(s: Seq<u8>, i: int) -> int
    decreases s.len() - i,
{
    if i < 0 || i >= s.len() {
        i
    } else if !is_ws(s[i]) {
        tok_end(s, i + 1)
    } else {
        i
    }
}

/// First position at or after `i` holding a dot.
pub open spec fn find_dot(s: Seq<u8>, i: int) -> int
    decreases s.len() - i,
{
    if i < 0 || i >= s.len() {
        i
    } else if s[i] == 46 {
        i
    } else {
        find_dot(s, i + 1)
    }
}

/// Where the whitespace scan stops: at the first non-whitespace byte.
proof fn lemma_skip_ws_bounds(s: Seq<u8>, i: int)
    requires
        0 <= i <= s.len(),
    ensures
        i <= skip_ws(s, i) <= s.len(),
        forall|t: int| i <= t < skip_ws(s, i) ==> is_ws(#[trigger] s[t]),
        skip_ws(s, i) < s.len() ==> !is_ws(s[skip_ws(s, i)]),
    decreases s.len() - i,
{
    if i < s.len() && is_ws(s[i]) {
        lemma_skip_ws_bounds(s, i + 1);
    }
}

/// Where the token scan stops: at the first whitespace byte.
proof fn lemma_tok_end_bounds(s: Seq<u8>, i: int)
    requires
        0 <= i <= s.len(),
    ensures
        i <= tok_end(s, i) <= s.len(),
        forall|t: int| i <= t < tok_end(s, i) ==> !is_ws(#[trigger] s[t]),
        tok_end(s, i) < s.len() ==> is_ws(s[tok_end(s, i)]),
    decreases s.len() - i,
{
    if i < s.len() && !is_ws(s[i]) {
        lemma_tok_end_bounds(s, i + 1);
    }
}

/// The whitespace scan is determined by what the bytes are: it stops exactly
/// at the end of the whitespace run.
proof fn lemma_skip_ws_determined(s: Seq<u8>, i: int, j: int)
    requires
        0 <= i <= j <= s.len(),
        forall|t: int| i <= t < j ==> is_ws(#[trigger] s[t]),
        j == s.len() || !is_ws(s[j]),
    ensures
        skip_ws(s, i) == j,
    decreases j - i,
{
    if i < j {
        lemma_skip_ws_determined(s, i + 1, j);
    }
}

/// The token scan is determined by what the bytes are: it stops exactly at
/// the end of the non-whitespace run.
proof fn lemma_tok_end_determined(s: Seq<u8>, i: int, j: int)
    requires
        0 <= i <= j <= s.len(),
        forall|t: int| i <= t < j ==> !is_ws(#[trigger] s[t]),
        j == s.len() || is_ws(s[j]),
    ensures
        tok_end(s, i) == j,
    decreases j - i,
{
    if i < j {
        lemma_tok_end_determined(s, i + 1, j);
    }
}

/// The dot scan is determined by what the bytes are: it stops exactly at the
/// first dot.
proof fn lemma_find_dot_determined(s: Seq<u8>, i: int, j: int)
    requires
        0 <= i <= j <= s.len(),
        forall|t: int| i <= t < j ==> #[trigger] s[t] != 46,
        j == s.len() || s[j] == 46,
    ensures
        find_dot(s, i) == j,
    decreases j - i,
{
    if i < j {
        lemma_find_dot_determined(s, i + 1, j);
    }
}

/// The fractional digits of the temperature field, read back in thousandths:
/// one, two or three digits stand for hundredths-of-a-degree steps down to
/// thousandths.
pub open spec fn frac_milli(fp: Seq<u8>) -> int {
    if fp.len() == 1 {
        digits_val(fp) * 100
    } else if fp.len() == 2 {
        digits_val(fp) * 10
    } else {
        digits_val(fp)
    }
}

/// Value of the temperature field, in thousandths of a degree: an optional
/// minus sign, a non-empty run of digits, and optionally a dot followed by
/// one to three digits; the magnitude must not exceed a thousand degrees.
pub open spec fn parse_temp(t: Seq<u8>) -> Option<int> {
    let neg = t.len() > 0 && t[0] == 45;
    let body = if neg {
        t.drop_first()
    } else {
        t
    };
    let d = find_dot(body, 0);
    if d == body.len() {
        if body.len() >= 1 && all_digits(body) && digits_val(body) * 1000 <= 1_000_000 {
            Some(
                if neg {
                    -(digits_val(body) * 1000)
                } else {
                    digits_val(body) * 1000
                },
            )
        } else {
            None
        }
    } else {
        let ip = body.take(d);
        let fp = body.skip(d + 1);
        if ip.len() >= 1 && all_digits(ip) && 1 <= fp.len() <= 3 && all_digits(fp) && digits_val(
            ip,
        ) * 1000 + frac_milli(fp) <= 1_000_000 {
            Some(
                if neg {
                    -(digits_val(ip) * 1000 + frac_milli(fp))
                } else {
                    digits_val(ip) * 1000 + frac_milli(fp)
                },
            )
        } else {
            None
        }
    }
}

/// What a backlog line means: it is valid exactly when it consists of three
/// whitespace-separated tokens — the tag `t1`, a digit run that fits a 64-bit
/// timestamp, and a well-formed temperature field — and nothing else.
pub open spec fn parse_record_spec(line: Seq<u8>) -> Option<Sample> {
    let a0 = skip_ws(line, 0);
    let e0 = tok_end(line, a0);
    let a1 = skip_ws(line, e0);
    let e1 = tok_end(line, a1);
    let a2 = skip_ws(line, e1);
    let e2 = tok_end(line, a2);
    let a3 = skip_ws(line, e2);
    if a0 < e0 && a1 < e1 && a2 < e2 && a3 == line.len() {
        let tok0 = line.subrange(a0, e0);
        let tok1 = line.subrange(a1, e1);
        let tok2 = line.subrange(a2, e2);
        if tok0 == seq![116u8, 49u8] && all_digits(tok1) && digits_val(tok1) <= u64::MAX {
            match parse_temp(tok2) {
                Some(v) => Some(Sample { timestamp: digits_val(tok1) as u64, temperature: v as i64 }),
                None => None,
            }
        } else {
            None
        }
    } else {
        None
    }
}

/// A digit string of at most three digits values at most 999.
proof fn lemma_digits_val_small(t: Seq<u8>)
    requires
        all_digits(t),
        t.len() <= 3,
    ensures
        digits_val(t) <= 999,
{
    reveal_with_fuel(digits_val, 4);
    if t.len() == 1 {
        assert(t.drop_last().len() == 0);
    } else if t.len() == 2 {
        assert(t.drop_last().drop_last().len() == 0);
        assert(48 <= t.drop_last()[0] <= 57);
    } else if t.len() == 3 {
        assert(t.drop_last().drop_last().drop_last().len() == 0);
        assert(48 <= t.drop_last()[0] <= 57);
        assert(48 <= t.drop_last()[1] <= 57);
        assert(t.drop_last()[0] == t[0]);
        assert(t.drop_last()[1] == t[1]);
        assert(t.drop_last().drop_last()[0] == t[0]);
    }
}

/// Scans past whitespace, exactly as [`skip_ws`] describes.
fn skip_ws_exec(line: &Vec<u8>, start: usize) -> (r: usize)
    requires
        start <= line@.len(),
    ensures
        r as int == skip_ws(line@, start as int),
        start <= r <= line@.len(),
{
    let n = line.len();
    let mut j = start;
    while j < n && (line[j] == 32 || line[j] == 9 || line[j] == 10 || line[j] == 13)
        invariant
            start <= j <= n,
            n == line@.len(),
            skip_ws(line@, start as int) == skip_ws(line@, j as int),
        decreases n - j,
    {
        j += 1;
    }
    proof {
        lemma_skip_ws_bounds(line@, j as int);
    }
    j
}

/// Scans to the end of the token starting at `start`, exactly as [`tok_end`]
/// describes.
fn tok_end_exec(line: &Vec<u8>, start: usize) -> (r: usize)
    requires
        start <= line@.len(),
    ensures
        r as int == tok_end(line@, start as int),
        start <= r <= line@.len(),
{
    let n = line.len();
    let mut j = start;
    while j < n && !(line[j] == 32 || line[j] == 9 || line[j] == 10 || line[j] == 13)
        invariant
            start <= j <= n,
            n == line@.len(),
            tok_end(line@, start as int) == tok_end(line@, j as int),
        decreases n - j,
    {
        j += 1;
    }
    proof {
        lemma_tok_end_bounds(line@, j as int);
    }
    j
}

/// Reads the digit run in `[start, end)` as a number of at most `bound`;
/// anything else — a non-digit byte, or a value past the bound — is rejected.
fn parse_bounded_digits(line: &Vec<u8>, start: usize, end: usize, bound: u64) -> (r: Option<u64>)
    requires
        start <= end <= line@.len(),
    ensures
        ({
            let tok = line@.subrange(start as int, end as int);
            r == if all_digits(tok) && digits_val(tok) <= bound {
                Some(digits_val(tok) as u64)
            } else {
                None::<u64>
            }
        }),
{
    let ghost tok = line@.subrange(start as int, end as int);
    let mut acc: u128 = 0;
    let mut j = start;
    proof {
        assert(tok.take(0int) =~= Seq::<u8>::empty());
    }
    while j < end
        invariant
            start <= j <= end,
            end <= line@.len(),
            tok == line@.subrange(start as int, end as int),
            all_digits(tok.take(j - start)),
            acc as int == digits_val(tok.take(j - start)),
            acc <= bound,
        decreases end - j,
    {
        let b = line[j];
        proof {
            assert(tok[j - start] == line@[j as int]);
        }
        if b < 48 || b > 57 {
            proof {
                assert(!all_digits(tok));
            }
            return None;
        }
        proof {
            let x = j - start;
            assert(tok.take(x + 1).drop_last() =~= tok.take(x));
            assert(tok.take(x + 1).last() == tok[x]);
            assert(digits_val(tok.take(x + 1)) == digits_val(tok.take(x)) * 10 + (b - 48));
            assert forall|y: int| 0 <= y < x + 1 implies 48 <= #[trigger] tok.take(x + 1)[y]
                <= 57 by {
                assert(tok.take(x + 1)[y] == tok[y]);
            }
        }
        acc = acc * 10 + ((b - 48) as u128);
        if acc > bound as u128 {
            proof {
                if all_digits(tok) && digits_val(tok) <= bound {
                    lemma_digits_val_take_monotone(tok, j + 1 - start, tok.len() as int);
                    assert(tok.take(tok.len() as int) =~= tok);
                }
            }
            return None;
        }
        j += 1;
    }
    proof {
        assert(tok.take(end - start) =~= tok);
    }
    Some(acc as u64)
}

/// Reads the temperature field in `[start, end)`, exactly as [`parse_temp`]
/// describes, in thousandths of a degree.
fn parse_temp_exec(line: &Vec<u8>, start: usize, end: usize) -> (r: Option<i64>)
    requires
        start < end <= line@.len(),
    ensures
        ({
            let p = parse_temp(line@.subrange(start as int, end as int));
            &&& (p is Some ==> r == Some(p->Some_0 as i64))
            &&& (p is None ==> r is None)
        }),
{
    let ghost t = line@.subrange(start as int, end as int);
    let neg = line[start] == 45;
    let b0 = if neg {
        start + 1
    } else {
        start
    };
    let ghost body = if neg {
        t.drop_first()
    } else {
        t
    };
    proof {
        assert(body =~= line@.subrange(b0 as int, end as int));
    }
    let mut dp = b0;
    while dp < end && line[dp] != 46
        invariant
            b0 <= dp <= end,
            end <= line@.len(),
            forall|x: int| b0 <= x < dp ==> line@[x] != 46,
        decreases end - dp,
    {
        dp += 1;
    }
    proof {
        assert forall|x: int| 0 <= x < dp - b0 implies #[trigger] body[x] != 46 by {
            assert(body[x] == line@[b0 + x]);
        }
        if dp < end {
            assert(body[dp - b0] == line@[dp as int]);
        }
        lemma_find_dot_determined(body, 0, dp - b0);
    }
    if dp == end {
        if b0 == end {
            return None;
        }
        proof {
            assert(body =~= line@.subrange(b0 as int, end as int));
        }
        match parse_bounded_digits(line, b0, end, 1000) {
            Some(v) => {
                proof {
                    lemma_digits_val_nonneg(body);
                }
                let v1000: u64 = v * 1000;
                if neg {
                    Some(-(v1000 as i64))
                } else {
                    Some(v1000 as i64)
                }
            },
            None => None,
        }
    } else {
        if dp == b0 {
            return None;
        }
        let fplen = end - (dp + 1);
        if fplen < 1 || fplen > 3 {
            proof {
                assert(body.skip(dp - b0 + 1) =~= line@.subrange(dp + 1, end as int));
            }
            return None;
        }
        let ghost ip = body.take(dp - b0);
        let ghost fp = body.skip(dp - b0 + 1);
        proof {
            assert(ip =~= line@.subrange(b0 as int, dp as int));
            assert(fp =~= line@.subrange(dp + 1, end as int));
        }
        let iv = match parse_bounded_digits(line, b0, dp, 1000) {
            Some(v) => {
                proof {
                    lemma_digits_val_nonneg(ip);
                }
                v
            },
            None => {
                proof {
                    if all_digits(fp) {
                        lemma_digits_val_nonneg(fp);
                    }
                }
                return None;
            },
        };
        let fv = match parse_bounded_digits(line, dp + 1, end, 999) {
            Some(v) => {
                proof {
                    lemma_digits_val_nonneg(fp);
                }
                v
            },
            None => {
                proof {
                    if all_digits(fp) {
                        lemma_digits_val_small(fp);
                        lemma_digits_val_nonneg(fp);
                    }
                }
                return None;
            },
        };
        let fm: u64 = if fplen == 1 {
            fv * 100
        } else if fplen == 2 {
            fv * 10
        } else {
            fv
        };
        proof {
            lemma_digits_val_nonneg(fp);
            lemma_digits_val_nonneg(ip);
        }
        let v: u64 = iv * 1000 + fm;
        if v > 1_000_000 {
            return None;
        }
        if neg {
            Some(-(v as i64))
        } else {
            Some(v as i64)
        }
    }
}

/// A parsed temperature always lies within a thousand degrees of zero.
proof fn lemma_parse_temp_range(t: Seq<u8>)
    ensures
        parse_temp(t) matches Some(v) ==> -1_000_000 <= v <= 1_000_000,
{
    let neg = t.len() > 0 && t[0] == 45;
    let body = if neg {
        t.drop_first()
    } else {
        t
    };
    let d = find_dot(body, 0);
    if d == body.len() {
        if body.len() >= 1 && all_digits(body) {
            lemma_digits_val_nonneg(body);
        }
    } else {
        let ip = body.take(d);
        let fp = body.skip(d + 1);
        if ip.len() >= 1 && all_digits(ip) && 1 <= fp.len() <= 3 && all_digits(fp) {
            lemma_digits_val_nonneg(ip);
            lemma_digits_val_nonneg(fp);
        }
    }
}

impl Sample {
    /// Reads one backlog line back into a sample, accepting exactly what
    /// [`parse_record_spec`] deems valid: three whitespace-separated tokens —
    /// the tag, a timestamp in whole seconds that fits 64 bits, and a
    /// temperature within a thousand degrees of zero.
    pub fn deserialize(line: &Vec<u8>) -> (r: Option<Sample>)
        ensures
            r == parse_record_spec(line@),
            r matches Some(s) ==> s.valid(),
    {
        let n = line.len();
        let a0 = skip_ws_exec(line, 0);
        let e0 = tok_end_exec(line, a0);
        let a1 = skip_ws_exec(line, e0);
        let e1 = tok_end_exec(line, a1);
        let a2 = skip_ws_exec(line, e1);
        let e2 = tok_end_exec(line, a2);
        let a3 = skip_ws_exec(line, e2);
        if !(a0 < e0 && a1 < e1 && a2 < e2 && a3 == n) {
            return None;
        }
        let ghost tok0 = line@.subrange(a0 as int, e0 as int);
        let ghost tok1 = line@.subrange(a1 as int, e1 as int);
        let ghost tok2 = line@.subrange(a2 as int, e2 as int);
        if !(e0 - a0 == 2 && line[a0] == 116 && line[a0 + 1] == 49) {
            proof {
                if tok0 == seq![116u8, 49u8] {
                    assert(tok0.len() == 2);
                    assert(tok0[0] == 116);
                    assert(tok0[1] == 49);
                    assert(tok0[0] == line@.subrange(a0 as int, e0 as int)[0]);
                    assert(tok0[1] == line@.subrange(a0 as int, e0 as int)[1]);
                    assert(tok0[0] == line@[a0 as int]);
                    assert(tok0[1] == line@[a0 as int + 1]);
                }
            }
            return None;
        }
        proof {
            assert(tok0 =~= seq![116u8, 49u8]);
        }
        let ts = match parse_bounded_digits(line, a1, e1, u64::MAX) {
            Some(v) => v,
            None => {
                return None;
            },
        };
        proof {
            lemma_parse_temp_range(tok2);
        }
        let temp = match parse_temp_exec(line, a2, e2) {
            Some(v) => v,
            None => {
                return None;
            },
        };
        Some(Sample { timestamp: ts, temperature: temp })
    }
}

/// The three fixed fractional digits read back to their value.
proof fn lemma_frac3_val(f: int)
    requires
        0 <= f < 1000,
    ensures
        frac3(f).len() == 3,
        all_digits(frac3(f)),
        digits_val(frac3(f)) == f,
        forall|x: int| 0 <= x < 3 ==> !is_ws(#[trigger] frac3(f)[x]) && frac3(f)[x] != 46,
{
    reveal_with_fuel(digits_val, 4);
    let q = frac3(f);
    lemma_div_is_ordered(f, 999, 100);
    lemma_div_pos_is_pos(f, 100);
    lemma_div_pos_is_pos(f, 10);
    assert(q.drop_last() =~= seq![digit_byte(f / 100), digit_byte((f / 10) % 10)]);
    assert(q.drop_last().drop_last() =~= seq![digit_byte(f / 100)]);
    assert(q.drop_last().drop_last().drop_last() =~= Seq::<u8>::empty());
    assert(digits_val(q) == ((f / 100) * 10 + (f / 10) % 10) * 10 + f % 10);
    lemma_div_denominator(f, 10, 10);
    lemma_fundamental_div_mod(f, 10);
    lemma_fundamental_div_mod(f / 10, 10);
}

/// The temperature field written for `m` is one whitespace-free token that
/// reads back to exactly `m`.
proof fn lemma_temp_bytes_parse(m: int)
    requires
        -1_000_000 <= m <= 1_000_000,
    ensures
        parse_temp(temp_bytes(m)) == Some(m),
        temp_bytes(m).len() >= 1,
        forall|x: int| 0 <= x < temp_bytes(m).len() ==> !is_ws(#[trigger] temp_bytes(m)[x]),
{
    let a = if m < 0 {
        -m
    } else {
        m
    };
    let di = dec_digits((a / 1000) as nat);
    lemma_dec_digits_val((a / 1000) as nat);
    let f = a % 1000;
    lemma_frac3_val(f);
    let fs = frac3(f);
    let t = temp_bytes(m);
    let body = di + seq![46u8] + fs;
    let ld = di.len() as int;
    assert(body.len() == ld + 4);
    assert forall|x: int| 0 <= x < ld implies body[x] == di[x] by {}
    assert(body[ld] == 46);
    assert forall|x: int| 0 <= x < 3 implies body[ld + 1 + x] == fs[x] by {}
    if m < 0 {
        assert(t =~= seq![45u8] + body);
        assert(t[0] == 45);
        assert(t.drop_first() =~= body);
    } else {
        assert(t =~= body);
        assert(48 <= t[0] <= 57);
    }
    let neg = t.len() > 0 && t[0] == 45;
    assert(neg == (m < 0));
    assert forall|x: int| 0 <= x < ld implies #[trigger] body[x] != 46 by {
        assert(48 <= di[x] <= 57);
    }
    lemma_find_dot_determined(body, 0, ld);
    let ip = body.take(ld as int);
    let fp = body.skip(ld + 1);
    assert(ip =~= di);
    assert(fp =~= fs);
    assert(digits_val(ip) == a / 1000);
    assert(frac_milli(fp) == f);
    lemma_fundamental_div_mod(a, 1000);
    assert(digits_val(ip) * 1000 + frac_milli(fp) == a);
    assert(parse_temp(t) == Some(m));
    assert forall|x: int| 0 <= x < t.len() implies !is_ws(#[trigger] t[x]) by {
        let b = if m < 0 {
            if x == 0 {
                45u8
            } else {
                body[x - 1]
            }
        } else {
            body[x]
        };
        assert(t[x] == b);
        if m < 0 && x > 0 {
            body_byte_not_ws(di, fs, x - 1);
        } else if m >= 0 {
            body_byte_not_ws(di, fs, x);
        }
    }
}

/// A byte of the temperature field's body — digits, one dot, digits — is
/// never whitespace.
proof fn body_byte_not_ws(di: Seq<u8>, fs: Seq<u8>, x: int)
    requires
        all_digits(di),
        all_digits(fs),
        fs.len() == 3,
        0 <= x < (di + seq![46u8] + fs).len(),
    ensures
        !is_ws((di + seq![46u8] + fs)[x]),
{
    let body = di + seq![46u8] + fs;
    if x < di.len() {
        assert(body[x] == di[x]);
        assert(48 <= di[x] <= 57);
    } else if x == di.len() {
        assert(body[x] == 46);
    } else {
        assert(body[x] == fs[x - di.len() - 1]);
        assert(48 <= fs[x - di.len() - 1] <= 57);
    }
}

/// LAW (record round trip): a valid sample's one-line record parses back to
/// exactly that sample.
pub proof fn lemma_record_round_trip(s: Sample)
    requires
        s.valid(),
    ensures
        parse_record_spec(record_bytes(s)) == Some(s),
{
    let line = record_bytes(s);
    let dd = dec_digits(s.timestamp as nat);
    let tb = temp_bytes(s.temperature as int);
    lemma_dec_digits_val(s.timestamp as nat);
    lemma_temp_bytes_parse(s.temperature as int);
    let ld = dd.len() as int;
    let lt = tb.len() as int;
    let n = line.len() as int;
    assert(n == 4 + ld + lt);
    assert(line[0] == 116);
    assert(line[1] == 49);
    assert(line[2] == 32);
    assert forall|x: int| 0 <= x < ld implies line[3 + x] == dd[x] by {}
    assert(line[3 + ld] == 32);
    assert forall|x: int| 0 <= x < lt implies line[4 + ld + x] == tb[x] by {}
    assert forall|x: int| 3 <= x < 3 + ld implies !is_ws(#[trigger] line[x]) by {
        assert(line[x] == dd[x - 3]);
        assert(48 <= dd[x - 3] <= 57);
    }
    assert forall|x: int| 4 + ld <= x < n implies !is_ws(#[trigger] line[x]) by {
        assert(line[x] == tb[x - 4 - ld]);
        assert(!is_ws(tb[x - 4 - ld]));
    }
    lemma_skip_ws_determined(line, 0, 0);
    lemma_tok_end_determined(line, 0, 2);
    lemma_skip_ws_determined(line, 2, 3);
    lemma_tok_end_determined(line, 3, 3 + ld);
    lemma_skip_ws_determined(line, 3 + ld, 4 + ld);
    lemma_tok_end_determined(line, 4 + ld, n);
    assert(skip_ws(line, n) == n);
    assert(line.subrange(0, 2) =~= seq![116u8, 49u8]);
    assert(line.subrange(3, 3 + ld) =~= dd);
    assert(line.subrange(4 + ld, n) =~= tb);
    assert(digits_val(dd) == s.timestamp);
}

/// Effect of replaying one backlog line: a line that parses feeds the sample
/// through the same acceptance logic as live ingestion; a malformed line
/// changes nothing.
pub open spec fn replay_step(m: StoreModel, line: Seq<u8>) -> StoreModel {
    match parse_record_spec(line) {
        Some(s) => step(m, s),
        None => m,
    }
}

/// Effect of replaying backlog lines in file order.
pub open spec fn replay_model(m: StoreModel, lines: Seq<Seq<u8>>) -> StoreModel
    decreases lines.len(),
{
    if lines.len() == 0 {
        m
    } else {
        replay_model(replay_step(m, lines[0]), lines.subrange(1, lines.len() as int))
    }
}

/// How many of the lines are malformed.
pub open spec fn malformed_count(lines: Seq<Seq<u8>>) -> int
    decreases lines.len(),
{
    if lines.len() == 0 {
        0
    } else {
        malformed_count(lines.drop_last()) + if parse_record_spec(lines.last()) is None {
            1int
        } else {
            0
        }
    }
}

/// Replaying one more line continues from the state the earlier lines left.
proof fn lemma_replay_model_snoc(m: StoreModel, lines: Seq<Seq<u8>>, l: Seq<u8>)
    ensures
        replay_model(m, lines.push(l)) == replay_step(replay_model(m, lines), l),
    decreases lines.len(),
{
    reveal_with_fuel(replay_model, 2);
    if lines.len() == 0 {
        assert(lines.push(l)[0] == l);
        assert(lines.push(l).subrange(1, lines.push(l).len() as int) =~= Seq::<Seq<u8>>::empty());
    } else {
        assert(lines.push(l)[0] == lines[0]);
        assert(lines.push(l).subrange(1, lines.push(l).len() as int) =~= lines.subrange(
            1,
            lines.len() as int,
        ).push(l));
        lemma_replay_model_snoc(
            replay_step(m, lines[0]),
            lines.subrange(1, lines.len() as int),
            l,
        );
    }
}

/// Lines that all parse replay exactly like the run of their samples.
proof fn lemma_replay_of_records(m: StoreModel, samples: Seq<Sample>, lines: Seq<Seq<u8>>)
    requires
        lines.len() == samples.len(),
        forall|i: int|
            0 <= i < lines.len() ==> parse_record_spec(#[trigger] lines[i]) == Some(samples[i]),
    ensures
        replay_model(m, lines) == run_model(m, samples),
    decreases lines.len(),
{
    if lines.len() > 0 {
        let lrest = lines.subrange(1, lines.len() as int);
        let srest = samples.subrange(1, samples.len() as int);
        assert forall|i: int|
            0 <= i < lrest.len() implies parse_record_spec(#[trigger] lrest[i]) == Some(
            srest[i],
        ) by {
            assert(lrest[i] == lines[i + 1]);
            assert(srest[i] == samples[i + 1]);
        }
        lemma_replay_of_records(step(m, samples[0]), srest, lrest);
    }
}

/// Lines that all parse count no malformed records.
proof fn lemma_all_parse_no_malformed(lines: Seq<Seq<u8>>)
    requires
        forall|i: int| 0 <= i < lines.len() ==> (parse_record_spec(#[trigger] lines[i]) is Some),
    ensures
        malformed_count(lines) == 0,
    decreases lines.len(),
{
    if lines.len() > 0 {
        assert forall|i: int|
            0 <= i < lines.drop_last().len() implies (parse_record_spec(
            #[trigger] lines.drop_last()[i],
        ) is Some) by {
            assert(lines.drop_last()[i] == lines[i]);
        }
        lemma_all_parse_no_malformed(lines.drop_last());
        assert(parse_record_spec(lines.last()) is Some);
    }
}

/// LAW (backlog round trip): writing a time-ordered run of valid samples as
/// backlog records and replaying those lines into a fresh unbounded store
/// yields a store holding exactly that run, with no line counted malformed.
pub proof fn lemma_backlog_round_trip(interval: u32, samples: Seq<Sample>, lines: Seq<Seq<u8>>)
    requires
        forall|i: int| 0 <= i < samples.len() ==> (#[trigger] samples[i]).valid(),
        sorted_by_time(samples),
        lines.len() == samples.len(),
        forall|i: int| 0 <= i < lines.len() ==> #[trigger] lines[i] == record_bytes(samples[i]),
    ensures
        malformed_count(lines) == 0,
        replay_model(init_model(None, interval), lines).samples == samples,
{
    assert forall|i: int|
        0 <= i < lines.len() implies parse_record_spec(#[trigger] lines[i]) == Some(
        samples[i],
    ) by {
        lemma_record_round_trip(samples[i]);
    }
    lemma_replay_of_records(init_model(None, interval), samples, lines);
    lemma_all_parse_no_malformed(lines);
    lemma_run_unbounded(init_model(None, interval), samples);
    assert(Seq::<Sample>::empty() + samples =~= samples);
}

impl Storage {
    /// Replays backlog lines in file order, feeding each parsed record
    /// through the same ordering/capacity/acceptance logic as live ingestion.
    /// A malformed line is skipped and counted, never fatal.
    pub fn replay_backlog(&mut self, lines: &Vec<Vec<u8>>) -> (malformed: usize)
        requires
            old(self).wf(),
        ensures
            final(self).wf(),
            final(self)@ == replay_model(old(self)@, lines.deep_view()),
            malformed as int == malformed_count(lines.deep_view()),
    {
        let ghost dv = lines.deep_view();
        let mut malformed: usize = 0;
        let n = lines.len();
        let mut i: usize = 0;
        proof {
            assert(dv.take(0int) =~= Seq::<Seq<u8>>::empty());
        }
        while i < n
            invariant
                i <= n,
                n == lines@.len(),
                dv == lines.deep_view(),
                dv.len() == n,
                self.wf(),
                self@ == replay_model(old(self)@, dv.take(i as int)),
                malformed <= i,
                malformed as int == malformed_count(dv.take(i as int)),
            decreases n - i,
        {
            let line = &lines[i];
            proof {
                assert(dv[i as int] == lines@[i as int]@);
                lemma_replay_model_snoc(old(self)@, dv.take(i as int), dv[i as int]);
                assert(dv.take(i as int + 1) =~= dv.take(i as int).push(dv[i as int]));
                assert(dv.take(i as int + 1).drop_last() =~= dv.take(i as int));
            }
            match Sample::deserialize(line) {
                Some(sample) => {
                    self.push_raw_sample(sample);
                },
                None => {
                    malformed = malformed + 1;
                },
            }
            i += 1;
        }
        proof {
            assert(dv.take(n as int) =~= dv);
        }
        malformed
    }
}

} // verus!
