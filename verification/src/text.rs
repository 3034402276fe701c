//! Byte-level text machinery shared by the asset, morph-target and obj
//! parsers: line splitting, whitespace tokenization, and unsigned and
//! fixed-point decimal numbers.

use vstd::prelude::*;
use crate::fixed::SCALE;

verus! {

/// Byte position of the first line feed, or the length when there is
/// none.
pub open spec fn first_nl(s: Seq<u8>) -> int
    decreases s.len(),
{
    if s.len() == 0 {
        0
    } else if s[0] == 10 {
        0
    } else {
        1 + first_nl(s.skip(1))
    }
}

pub proof fn lemma_first_nl(s: Seq<u8>)
    ensures
        0 <= first_nl(s) <= s.len(),
        forall|i: int| 0 <= i < first_nl(s) ==> s[i] != 10,
        first_nl(s) < s.len() ==> s[first_nl(s)] == 10,
    decreases s.len(),
{
    if s.len() > 0 && s[0] != 10 {
        lemma_first_nl(s.skip(1));
        assert(forall|i: int| 0 <= i < s.skip(1).len() ==> #[trigger] s.skip(1)[i] == s[i + 1]);
        assert forall|i: int| 0 <= i < first_nl(s) implies s[i] != 10 by {
            if i > 0 {
                assert(s.skip(1)[i - 1] == s[i]);
            }
        }
    }
}

/// A line with a trailing carriage return loses it.
pub open spec fn strip_cr(line: Seq<u8>) -> Seq<u8> {
    if line.len() > 0 && line.last() == 13 {
        line.drop_last()
    } else {
        line
    }
}

/// The lines of a text: split at every line feed, each line stripped of
/// a trailing carriage return; a final line feed ends the last line
/// rather than opening an empty one.
pub open spec fn split_lines(s: Seq<u8>) -> Seq<Seq<u8>>
    decreases s.len(),
    via split_lines_decreases
{
    if s.len() == 0 {
        Seq::empty()
    } else {
        let nl = first_nl(s);
        if nl >= s.len() {
            seq![strip_cr(s)]
        } else {
            seq![strip_cr(s.take(nl))] + split_lines(s.skip(nl + 1))
        }
    }
}

#[via_fn]
proof fn split_lines_decreases(s: Seq<u8>) {
    if s.len() > 0 {
        lemma_first_nl(s);
    }
}

/// Space, tab and carriage return separate tokens.
pub open spec fn is_ws(b: u8) -> bool {
    b == 32 || b == 9 || b == 13
}

/// Number of leading whitespace bytes.
pub open spec fn ws_run(s: Seq<u8>) -> int
    decreases s.len(),
{
    if s.len() == 0 {
        0
    } else if is_ws(s[0]) {
        1 + ws_run(s.skip(1))
    } else {
        0
    }
}

pub proof fn lemma_ws_run(s: Seq<u8>)
    ensures
        0 <= ws_run(s) <= s.len(),
        forall|i: int| 0 <= i < ws_run(s) ==> is_ws(s[i]),
        ws_run(s) < s.len() ==> !is_ws(s[ws_run(s)]),
    decreases s.len(),
{
    if s.len() > 0 && is_ws(s[0]) {
        lemma_ws_run(s.skip(1));
        assert(forall|i: int| 0 <= i < s.skip(1).len() ==> #[trigger] s.skip(1)[i] == s[i + 1]);
        assert forall|i: int| 0 <= i < ws_run(s) implies is_ws(s[i]) by {
            if i > 0 {
                assert(s.skip(1)[i - 1] == s[i]);
            }
        }
    }
}

/// Number of leading non-whitespace bytes.
pub open spec fn token_run(s: Seq<u8>) -> int
    decreases s.len(),
{
    if s.len() == 0 {
        0
    } else if !is_ws(s[0]) {
        1 + token_run(s.skip(1))
    } else {
        0
    }
}

pub proof fn lemma_token_run(s: Seq<u8>)
    ensures
        0 <= token_run(s) <= s.len(),
        forall|i: int| 0 <= i < token_run(s) ==> !is_ws(s[i]),
        token_run(s) < s.len() ==> is_ws(s[token_run(s)]),
    decreases s.len(),
{
    if s.len() > 0 && !is_ws(s[0]) {
        lemma_token_run(s.skip(1));
        assert(forall|i: int| 0 <= i < s.skip(1).len() ==> #[trigger] s.skip(1)[i] == s[i + 1]);
        assert forall|i: int| 0 <= i < token_run(s) implies !is_ws(s[i]) by {
            if i > 0 {
                assert(s.skip(1)[i - 1] == s[i]);
            }
        }
    }
}

/// The whitespace-separated tokens of a line, in order.
pub open spec fn tokens(s: Seq<u8>) -> Seq<Seq<u8>>
    decreases s.len(),
    via tokens_decreases
{
    if s.len() == 0 {
        Seq::empty()
    } else if is_ws(s[0]) {
        tokens(s.skip(ws_run(s)))
    } else {
        seq![s.take(token_run(s))] + tokens(s.skip(token_run(s)))
    }
}

#[via_fn]
proof fn tokens_decreases(s: Seq<u8>) {
    if s.len() > 0 {
        if is_ws(s[0]) {
            lemma_ws_run(s);
            assert(ws_run(s) >= 1);
        } else {
            lemma_token_run(s);
            assert(token_run(s) >= 1);
        }
    }
}

/// A decimal digit.
pub open spec fn is_digit(b: u8) -> bool {
    48 <= b <= 57
}

/// All bytes are digits.
pub open spec fn all_digits(s: Seq<u8>) -> bool {
    forall|i: int| 0 <= i < s.len() ==> is_digit(#[trigger] s[i])
}

/// Value of a digit string read left to right.
pub open spec fn digits_val(s: Seq<u8>) -> int
    decreases s.len(),
{
    if s.len() == 0 {
        0
    } else {
        digits_val(s.drop_last()) * 10 + (s.last() - 48)
    }
}

/// The unsigned decimal number a token denotes: all digits, at least
/// one, value within `u16`.
pub open spec fn u16_of_token(t: Seq<u8>) -> Option<u16> {
    if t.len() > 0 && all_digits(t) && digits_val(t) <= 0xffff {
        Some(digits_val(t) as u16)
    } else {
        None
    }
}

/// Value of the fractional digits in micro-units: the first six digits
/// count, further digits are beyond the precision and are ignored.
pub open spec fn frac_val(s: Seq<u8>) -> int {
    frac_rest(s, 5)
}

/// Remaining fractional digits at descending place values.
pub open spec fn frac_rest(s: Seq<u8>, place: int) -> int
    decreases s.len(),
{
    if s.len() == 0 || place < 0 {
        0
    } else {
        (s[0] - 48) * pow10(place) + frac_rest(s.skip(1), place - 1)
    }
}

/// Powers of ten up to a million.
pub open spec fn pow10(e: int) -> int {
    if e <= 0 {
        1
    } else if e == 1 {
        10
    } else if e == 2 {
        100
    } else if e == 3 {
        1000
    } else if e == 4 {
        10000
    } else if e == 5 {
        100000
    } else {
        1000000
    }
}

/// The fixed-point decimal a token denotes, in micro-units: an optional
/// sign, an integer part, and an optional fractional part after one
/// dot, truncated toward zero beyond six fractional digits.  The
/// magnitude must stay within the library's range.
/// The token without its sign, if it carries one.
pub open spec fn number_body(t: Seq<u8>) -> Seq<u8> {
    if t.len() > 0 && (t[0] == 45 || t[0] == 43) {
        t.skip(1)
    } else {
        t
    }
}

pub open spec fn fixed_of_token(t: Seq<u8>) -> Option<i64> {
    let negative = t.len() > 0 && t[0] == 45;
    let body = number_body(t);
    let dot = first_dot(body);
    let int_part = body.take(dot);
    let frac_part = if dot < body.len() {
        body.skip(dot + 1)
    } else {
        Seq::empty()
    };
    if body.len() > 0 && int_part.len() + frac_part.len() > 0 && all_digits(int_part)
        && all_digits(frac_part) && no_more_dots(frac_part) && digits_val(int_part) * SCALE
        + frac_val(frac_part) <= crate::fixed::MAG_LIMIT {
        let mag = digits_val(int_part) * SCALE + frac_val(frac_part);
        if negative {
            Some((-mag) as i64)
        } else {
            Some(mag as i64)
        }
    } else {
        None
    }
}

/// Byte position of the first dot, or the length when there is none.
pub open spec fn first_dot(s: Seq<u8>) -> int
    decreases s.len(),
{
    if s.len() == 0 {
        0
    } else if s[0] == 46 {
        0
    } else {
        1 + first_dot(s.skip(1))
    }
}

pub proof fn lemma_first_dot(s: Seq<u8>)
    ensures
        0 <= first_dot(s) <= s.len(),
        forall|i: int| 0 <= i < first_dot(s) ==> s[i] != 46,
        first_dot(s) < s.len() ==> s[first_dot(s)] == 46,
    decreases s.len(),
{
    if s.len() > 0 && s[0] != 46 {
        lemma_first_dot(s.skip(1));
        assert(forall|i: int| 0 <= i < s.skip(1).len() ==> #[trigger] s.skip(1)[i] == s[i + 1]);
        assert forall|i: int| 0 <= i < first_dot(s) implies s[i] != 46 by {
            if i > 0 {
                assert(s.skip(1)[i - 1] == s[i]);
            }
        }
    }
}

/// No dot among the fractional digits.
pub open spec fn no_more_dots(s: Seq<u8>) -> bool {
    forall|i: int| 0 <= i < s.len() ==> #[trigger] s[i] != 46
}

/// `first_nl` is the one position whose prefix holds no line feed and
/// which is the end or a line feed itself.
pub proof fn lemma_first_nl_is(u: Seq<u8>, k: int)
    requires
        0 <= k <= u.len(),
        forall|i: int| 0 <= i < k ==> u[i] != 10,
        k < u.len() ==> u[k] == 10,
    ensures
        first_nl(u) == k,
    decreases u.len(),
{
    if u.len() > 0 && u[0] != 10 {
        assert(k >= 1);
        assert(forall|i: int| 0 <= i < u.skip(1).len() ==> #[trigger] u.skip(1)[i] == u[i + 1]);
        lemma_first_nl_is(u.skip(1), k - 1);
    }
}

/// Splits a text into its lines.
pub fn split_lines_exec(text: &Vec<u8>) -> (r: Vec<Vec<u8>>)
    ensures
        r@.len() == split_lines(text@).len(),
        forall|i: int| 0 <= i < r@.len() ==> #[trigger] r@[i]@ == split_lines(text@)[i],
{
    let ghost s = text@;
    let n: usize = text.len();
    let mut out: Vec<Vec<u8>> = Vec::new();
    let ghost mut done: Seq<Seq<u8>> = Seq::empty();
    let mut cur: Vec<u8> = Vec::new();
    let mut start: usize = 0;
    let mut i: usize = 0;
    proof {
        assert(s.skip(0) =~= s);
    }
    while i < n
        invariant
            s == text@,
            n == s.len(),
            start <= i <= n,
            cur@ == s.subrange(start as int, i as int),
            forall|k: int| start <= k < i ==> s[k] != 10,
            out@.len() == done.len(),
            forall|k: int| 0 <= k < out@.len() ==> #[trigger] out@[k]@ == done[k],
            split_lines(s) == done + split_lines(s.skip(start as int)),
        decreases n - i,
    {
        let b: u8 = text[i];
        if b == 10 {
            let line = finish_line(cur);
            cur = Vec::new();
            proof {
                let u = s.skip(start as int);
                assert(forall|k: int| 0 <= k < u.len() ==> #[trigger] u[k] == s[k + start]);
                lemma_first_nl_is(u, i as int - start);
                assert(u.take(i as int - start) =~= s.subrange(start as int, i as int));
                assert(u.skip(i as int - start + 1) =~= s.skip(i as int + 1));
                assert(split_lines(u) == seq![strip_cr(s.subrange(start as int, i as int))]
                    + split_lines(s.skip(i as int + 1)));
                assert(done + split_lines(u) =~= done.push(line@) + split_lines(
                    s.skip(i as int + 1),
                ));
                done = done.push(line@);
            }
            out.push(line);
            start = i + 1;
            proof {
                assert(cur@ =~= s.subrange(start as int, start as int));
            }
        } else {
            cur.push(b);
            proof {
                assert(cur@ =~= s.subrange(start as int, i as int + 1));
            }
        }
        i += 1;
    }
    if cur.len() > 0 {
        let line = finish_line(cur);
        proof {
            let u = s.skip(start as int);
            assert(forall|k: int| 0 <= k < u.len() ==> #[trigger] u[k] == s[k + start]);
            lemma_first_nl_is(u, u.len() as int);
            assert(u =~= s.subrange(start as int, n as int));
            assert(split_lines(u) == seq![strip_cr(u)]);
            assert(line@ == strip_cr(u));
            assert(split_lines(s) =~= done.push(line@));
            done = done.push(line@);
        }
        out.push(line);
    } else {
        proof {
            assert(s.skip(start as int) =~= Seq::<u8>::empty());
            assert(split_lines(Seq::<u8>::empty()) == Seq::<Seq<u8>>::empty());
            assert(split_lines(s) =~= done);
        }
    }
    out
}

/// Strips a trailing carriage return from a finished line.
fn finish_line(line: Vec<u8>) -> (r: Vec<u8>)
    ensures
        r@ == strip_cr(line@),
{
    let n: usize = line.len();
    if n > 0 && line[n - 1] == 13 {
        let mut l = line;
        let ghost before = l@;
        l.pop();
        proof {
            assert(l@ =~= strip_cr(before));
        }
        l
    } else {
        line
    }
}

/// `first_dot` is the one position whose prefix holds no dot and which
/// is the end or a dot itself.
pub proof fn lemma_first_dot_is(u: Seq<u8>, k: int)
    requires
        0 <= k <= u.len(),
        forall|i: int| 0 <= i < k ==> u[i] != 46,
        k < u.len() ==> u[k] == 46,
    ensures
        first_dot(u) == k,
    decreases u.len(),
{
    if u.len() > 0 && u[0] != 46 {
        assert(k >= 1);
        assert(forall|i: int| 0 <= i < u.skip(1).len() ==> #[trigger] u.skip(1)[i] == u[i + 1]);
        lemma_first_dot_is(u.skip(1), k - 1);
    }
}

/// Digit strings denote non-negative values.
pub proof fn lemma_digits_val_nonneg(s: Seq<u8>)
    requires
        all_digits(s),
    ensures
        digits_val(s) >= 0,
    decreases s.len(),
{
    if s.len() > 0 {
        assert(forall|i: int|
            0 <= i < s.drop_last().len() ==> #[trigger] s.drop_last()[i] == s[i]);
        lemma_digits_val_nonneg(s.drop_last());
    }
}

/// A digit string is worth at least any of its prefixes.
pub proof fn lemma_digits_val_grow(s: Seq<u8>, k: int)
    requires
        all_digits(s),
        0 <= k <= s.len(),
    ensures
        digits_val(s.take(k)) <= digits_val(s),
    decreases s.len() - k,
{
    if k < s.len() {
        lemma_digits_val_grow(s, k + 1);
        assert(s.take(k + 1).drop_last() =~= s.take(k));
        assert(s.take(k + 1).last() == s[k]);
        assert(forall|i: int| 0 <= i < k ==> #[trigger] s.take(k)[i] == s[i]);
        lemma_digits_val_nonneg(s.take(k));
        assert(digits_val(s.take(k + 1)) == digits_val(s.take(k)) * 10 + (s[k] - 48));
        assert(digits_val(s.take(k)) * 10 >= digits_val(s.take(k))) by (nonlinear_arith)
            requires digits_val(s.take(k)) >= 0,
        ;
    } else {
        assert(s.take(k) =~= s);
    }
}

/// Fractional digits are worth less than one unit.
pub proof fn lemma_frac_rest_bounds(s: Seq<u8>, place: int)
    requires
        all_digits(s),
        place <= 5,
    ensures
        0 <= frac_rest(s, place) < pow10(place + 1),
    decreases s.len(),
{
    if s.len() > 0 && place >= 0 {
        assert(forall|i: int| 0 <= i < s.skip(1).len() ==> #[trigger] s.skip(1)[i] == s[i + 1]);
        lemma_frac_rest_bounds(s.skip(1), place - 1);
        assert(48 <= s[0] <= 57);
        assert((s[0] - 48) * pow10(place) <= 9 * pow10(place)) by (nonlinear_arith)
            requires 0 <= s[0] - 48 <= 9, pow10(place) >= 0,
        ;
        assert((s[0] - 48) * pow10(place) >= 0) by (nonlinear_arith)
            requires s[0] - 48 >= 0, pow10(place) >= 0,
        ;
    }
}

/// Splits a line into its whitespace-separated tokens.
pub fn tokenize(line: &Vec<u8>) -> (r: Vec<Vec<u8>>)
    ensures
        r@.len() == tokens(line@).len(),
        forall|i: int| 0 <= i < r@.len() ==> #[trigger] r@[i]@ == tokens(line@)[i],
{
    let ghost s = line@;
    let n: usize = line.len();
    let mut out: Vec<Vec<u8>> = Vec::new();
    let ghost mut done: Seq<Seq<u8>> = Seq::empty();
    let mut pos: usize = 0;
    proof {
        assert(s.skip(0) =~= s);
    }
    while pos < n
        invariant
            s == line@,
            n == s.len(),
            pos <= n,
            out@.len() == done.len(),
            forall|k: int| 0 <= k < out@.len() ==> #[trigger] out@[k]@ == done[k],
            tokens(s) == done + tokens(s.skip(pos as int)),
        decreases n - pos,
    {
        let b: u8 = line[pos];
        if b == 32 || b == 9 || b == 13 {
            proof {
                let u = s.skip(pos as int);
                assert(forall|k: int| 0 <= k < u.len() ==> #[trigger] u[k] == s[k + pos]);
                lemma_tokens_ws_step(u);
                assert(u.skip(1) =~= s.skip(pos as int + 1));
            }
            pos += 1;
        } else {
            // Collect the token run.
            let start: usize = pos;
            let mut tok: Vec<u8> = Vec::new();
            while pos < n && !(line[pos] == 32 || line[pos] == 9 || line[pos] == 13)
                invariant
                    s == line@,
                    n == s.len(),
                    start <= pos <= n,
                    tok@ == s.subrange(start as int, pos as int),
                    forall|k: int| start <= k < pos ==> !is_ws(s[k]),
                    !is_ws(s[start as int]),
                decreases n - pos,
            {
                tok.push(line[pos]);
                proof {
                    assert(tok@ =~= s.subrange(start as int, pos as int + 1));
                }
                pos += 1;
            }
            proof {
                let u = s.skip(start as int);
                assert(forall|k: int| 0 <= k < u.len() ==> #[trigger] u[k] == s[k + start]);
                lemma_token_run_is(u, pos as int - start);
                assert(u.take(pos as int - start) =~= s.subrange(start as int, pos as int));
                assert(tokens(u) == seq![tok@] + tokens(u.skip(pos as int - start)));
                assert(u.skip(pos as int - start) =~= s.skip(pos as int));
                assert(done + tokens(u) =~= done.push(tok@) + tokens(s.skip(pos as int)));
                done = done.push(tok@);
            }
            out.push(tok);
        }
    }
    proof {
        assert(s.skip(n as int) =~= Seq::<u8>::empty());
        assert(tokens(s) =~= done);
    }
    out
}

/// Skipping one leading whitespace byte does not change the tokens.
proof fn lemma_tokens_ws_step(u: Seq<u8>)
    requires
        u.len() > 0,
        is_ws(u[0]),
    ensures
        tokens(u) == tokens(u.skip(1)),
{
    let v = u.skip(1);
    assert(forall|k: int| 0 <= k < v.len() ==> #[trigger] v[k] == u[k + 1]);
    assert(ws_run(u) == 1 + ws_run(v));
    if v.len() == 0 {
        assert(ws_run(v) == 0);
        assert(u.skip(ws_run(u)) =~= v);
    } else if is_ws(v[0]) {
        lemma_ws_run(v);
        assert(u.skip(ws_run(u)) =~= v.skip(ws_run(v)));
    } else {
        assert(ws_run(v) == 0);
        assert(u.skip(ws_run(u)) =~= v);
    }
}

/// `token_run` is the one position whose prefix holds no whitespace and
/// which is the end or whitespace itself.
proof fn lemma_token_run_is(u: Seq<u8>, k: int)
    requires
        0 <= k <= u.len(),
        forall|i: int| 0 <= i < k ==> !is_ws(u[i]),
        k < u.len() ==> is_ws(u[k]),
    ensures
        token_run(u) == k,
    decreases u.len(),
{
    if u.len() > 0 && !is_ws(u[0]) {
        assert(k >= 1);
        assert(forall|i: int| 0 <= i < u.skip(1).len() ==> #[trigger] u.skip(1)[i] == u[i + 1]);
        lemma_token_run_is(u.skip(1), k - 1);
    }
}

/// Parses an unsigned decimal token into a `u16`.
pub fn parse_u16(t: &Vec<u8>) -> (r: Option<u16>)
    ensures
        r == u16_of_token(t@),
{
    let ghost ts = t@;
    let n: usize = t.len();
    if n == 0 {
        return None;
    }
    let mut val: u32 = 0;
    let mut k: usize = 0;
    while k < n
        invariant
            ts == t@,
            n == ts.len(),
            k <= n,
            all_digits(ts.take(k as int)),
            val == digits_val(ts.take(k as int)),
            val <= 0xffff,
        decreases n - k,
    {
        let b: u8 = t[k];
        proof {
            assert(ts.take(k as int + 1).drop_last() =~= ts.take(k as int));
            assert(ts.take(k as int + 1).last() == ts[k as int]);
        }
        if b < 48 || b > 57 {
            return None;
        }
        val = val * 10 + (b - 48) as u32;
        proof {
            assert(forall|i: int|
                0 <= i < k + 1 ==> is_digit(#[trigger] ts.take(k as int + 1)[i]));
        }
        if val > 0xffff {
            proof {
                if all_digits(ts) {
                    lemma_digits_val_grow(ts, k as int + 1);
                    assert(forall|i: int|
                        0 <= i < k + 1 ==> #[trigger] ts.take(k as int + 1)[i] == ts[i]);
                    assert(digits_val(ts.take(k as int + 1)) == val);
                    assert(digits_val(ts) > 0xffff);
                }
            }
            return None;
        }
        k += 1;
    }
    proof {
        assert(ts.take(n as int) =~= ts);
    }
    Some(val as u16)
}

/// Parses a signed fixed-point decimal token into micro-units.
#[verifier::rlimit(100)]
pub fn parse_fixed(t: &Vec<u8>) -> (r: Option<i64>)
    ensures
        r == fixed_of_token(t@),
        (r matches Some(v) ==> -crate::fixed::MAG_LIMIT <= v <= crate::fixed::MAG_LIMIT),
{
    let ghost ts = t@;
    let n: usize = t.len();
    if n == 0 {
        return None;
    }
    let first: u8 = t[0];
    let negative: bool = first == 45;
    let start: usize = if first == 45 || first == 43 {
        1
    } else {
        0
    };
    let ghost body = number_body(ts);
    proof {
        assert(forall|k: int| 0 <= k < body.len() ==> #[trigger] body[k] == ts[k + start]);
    }
    if start == n {
        return None;
    }

    // Integer part, up to the dot or the end.
    let mut intval: i64 = 0;
    let mut k: usize = start;
    let mut saw_dot: bool = false;
    while k < n && !saw_dot
        invariant
            ts == t@,
            n == ts.len(),
            start <= k <= n,
            start <= 1,
            start < n,
            body == number_body(ts),
            body == ts.subrange(start as int, n as int),
            forall|k2: int| 0 <= k2 < body.len() ==> #[trigger] body[k2] == ts[k2 + start],
            !saw_dot ==> {
                &&& all_digits(body.take(k as int - start))
                &&& forall|i: int| 0 <= i < k - start ==> #[trigger] body[i] != 46
                &&& intval == digits_val(body.take(k as int - start))
                &&& 0 <= intval <= 3000
            },
            saw_dot ==> {
                &&& k > start
                &&& body[k as int - 1 - start] == 46
                &&& all_digits(body.take(k as int - 1 - start))
                &&& forall|i: int| 0 <= i < k - 1 - start ==> #[trigger] body[i] != 46
                &&& intval == digits_val(body.take(k as int - 1 - start))
                &&& 0 <= intval <= 3000
            },
        decreases n - k,
    {
        let b: u8 = t[k];
        proof {
            assert(body[k as int - start] == ts[k as int]);
            assert(body.take(k as int + 1 - start).drop_last() =~= body.take(k as int - start));
            assert(body.take(k as int + 1 - start).last() == body[k as int - start]);
        }
        if b == 46 {
            saw_dot = true;
        } else {
            if b < 48 || b > 57 {
                proof {
                    lemma_first_dot(body);
                    if first_dot(body) > k as int - start {
                        assert(!is_digit(body[k as int - start]));
                        assert(body.take(first_dot(body))[k as int - start] == body[k as int
                            - start]);
                        assert(!all_digits(body.take(first_dot(body))));
                    } else {
                        assert(first_dot(body) < body.len());
                        assert(body[first_dot(body)] == 46);
                        assert(false);
                    }
                }
                return None;
            }
            intval = intval * 10 + (b - 48) as i64;
            proof {
                assert(forall|i: int|
                    0 <= i < k + 1 - start
                        ==> is_digit(#[trigger] body.take(k as int + 1 - start)[i]));
            }
            if intval > 3000 {
                proof {
                    lemma_none_when_int_large(body, k as int + 1 - start, intval as int);
                }
                return None;
            }
        }
        k += 1;
    }
    let ghost dot = first_dot(body);
    proof {
        if saw_dot {
            lemma_first_dot_is(body, k as int - 1 - start);
        } else {
            lemma_first_dot_is(body, body.len() as int);
        }
    }

    // Fractional part: every byte must be a digit; only the first six
    // carry value.
    let mut fval: i64 = 0;
    let mut f: usize = 0;
    let frac_start: usize = k;
    let ghost frac = if dot < body.len() {
        body.skip(dot + 1)
    } else {
        Seq::<u8>::empty()
    };
    proof {
        if saw_dot {
            assert(forall|i: int|
                0 <= i < frac.len() ==> #[trigger] frac[i] == ts[i + frac_start]);
        } else {
            assert(frac.len() == 0);
            assert(frac_start == n);
        }
        assert(frac.take(0) =~= Seq::<u8>::empty());
    }
    while f + frac_start < n
        invariant
            ts == t@,
            n == ts.len(),
            frac_start <= n,
            f + frac_start <= n,
            body == number_body(ts),
            dot == first_dot(body),
            frac == (if dot < body.len() {
                body.skip(dot + 1)
            } else {
                Seq::<u8>::empty()
            }),
            frac.len() == n - frac_start,
            forall|i: int| 0 <= i < frac.len() ==> #[trigger] frac[i] == ts[i + frac_start],
            all_digits(frac.take(f as int)),
            forall|i: int| 0 <= i < f ==> #[trigger] frac[i] != 46,
            fval == frac_rest(frac.take(f as int), 5),
            0 <= fval < 1000000,
        decreases n - f - frac_start,
    {
        let b: u8 = t[f + frac_start];
        proof {
            assert(frac[f as int] == ts[f as int + frac_start]);
        }
        if b < 48 || b > 57 {
            proof {
                if b == 46 {
                    assert(!no_more_dots(frac));
                } else {
                    assert(!is_digit(frac[f as int]));
                    assert(!all_digits(frac));
                }
            }
            return None;
        }
        let place: i64 = if f == 0 {
            100000
        } else if f == 1 {
            10000
        } else if f == 2 {
            1000
        } else if f == 3 {
            100
        } else if f == 4 {
            10
        } else if f == 5 {
            1
        } else {
            0
        };
        proof {
            assert(frac.take(f as int + 1) =~= frac.take(f as int).push(frac[f as int]));
            lemma_frac_rest_snoc(frac.take(f as int), frac[f as int], 5);
            assert(forall|i: int|
                0 <= i < f + 1 ==> is_digit(#[trigger] frac.take(f as int + 1)[i]));
            lemma_frac_rest_bounds(frac.take(f as int + 1), 5);
            if f <= 5 {
                assert(place as int == pow10(5 - f as int));
            } else {
                assert(place == 0);
            }
            assert(0 <= (frac[f as int] - 48) * (place as int) <= 900000) by (nonlinear_arith)
                requires 0 <= frac[f as int] - 48 <= 9, 0 <= place <= 100000,
            ;
        }
        fval = fval + (b - 48) as i64 * place;
        f += 1;
    }
    proof {
        assert(frac.take(frac.len() as int) =~= frac);
        assert(all_digits(frac));
        assert(no_more_dots(frac));
        assert(fval == frac_val(frac));
    }

    // An empty integer part with an empty fractional part denotes
    // nothing.
    let int_len: usize = if saw_dot {
        k - 1 - start
    } else {
        n - start
    };
    if int_len == 0 && frac_start == n && saw_dot {
        proof {
            assert(body.take(dot).len() == 0);
            assert(frac.len() == 0);
        }
        return None;
    }

    let mag: i64 = intval * SCALE + fval;
    proof {
        if saw_dot {
            assert(intval == digits_val(body.take(dot)));
        } else {
            assert(body.take(dot) =~= body);
            assert(intval == digits_val(body.take(dot)));
        }
        assert(0 <= intval * (SCALE as int) <= 3000 * 1000000) by (nonlinear_arith)
            requires 0 <= intval <= 3000, SCALE == 1000000,
        ;
        assert(mag as int == digits_val(body.take(dot)) * SCALE + frac_val(frac));
    }
    if mag > crate::fixed::MAG_LIMIT {
        return None;
    }
    if negative {
        Some(-mag)
    } else {
        Some(mag)
    }
}

/// Appending one digit adds its value at the next place.
proof fn lemma_frac_rest_snoc(s: Seq<u8>, b: u8, place: int)
    ensures
        frac_rest(s.push(b), place) == frac_rest(s, place) + if place - s.len() >= 0 {
            (b - 48) * pow10(place - s.len())
        } else {
            0int
        },
    decreases s.len(),
{
    if place < 0 {
        assert(frac_rest(s.push(b), place) == 0);
        assert(frac_rest(s, place) == 0);
    } else if s.len() == 0 {
        assert(s.push(b)[0] == b);
        assert(s.push(b).skip(1) =~= Seq::<u8>::empty());
        assert(frac_rest(Seq::<u8>::empty(), place - 1) == 0);
        assert(frac_rest(s.push(b), place) == (b - 48) * pow10(place));
    } else {
        assert(s.push(b)[0] == s[0]);
        assert(s.push(b).skip(1) =~= s.skip(1).push(b));
        lemma_frac_rest_snoc(s.skip(1), b, place - 1);
    }
}

/// When the integer digits already exceed the range, no value is
/// denoted.
proof fn lemma_none_when_int_large(body: Seq<u8>, k: int, val: int)
    requires
        0 <= k <= body.len(),
        all_digits(body.take(k)),
        digits_val(body.take(k)) == val,
        val > 3000,
        forall|i: int| 0 <= i < k ==> #[trigger] body[i] != 46,
    ensures
        fixed_of_token_body_none(body),
{
    let dot = first_dot(body);
    lemma_first_dot(body);
    let int_part = body.take(dot);
    if all_digits(int_part) {
        if dot >= k {
            assert(forall|i: int| 0 <= i < k ==> #[trigger] int_part.take(k)[i] == body[i]);
            assert(int_part.take(k) =~= body.take(k));
            lemma_digits_val_grow(int_part, k);
            assert(digits_val(int_part) >= val);
            assert(digits_val(int_part) * SCALE >= 3000 * SCALE) by (nonlinear_arith)
                requires digits_val(int_part) > 3000, SCALE > 0,
            ;
            let frac_part = if dot < body.len() {
                body.skip(dot + 1)
            } else {
                Seq::<u8>::empty()
            };
            if all_digits(frac_part) {
                lemma_frac_rest_bounds(frac_part, 5);
            }
        } else {
            assert(body[dot] == 46);
            assert(false);
        }
    }
}

/// The magnitude condition of `fixed_of_token` fails for this body.
pub open spec fn fixed_of_token_body_none(body: Seq<u8>) -> bool {
    {
        let dot = first_dot(body);
        let int_part = body.take(dot);
        let frac_part = if dot < body.len() {
            body.skip(dot + 1)
        } else {
            Seq::<u8>::empty()
        };
        !(body.len() > 0 && int_part.len() + frac_part.len() > 0 && all_digits(int_part)
            && all_digits(frac_part) && no_more_dots(frac_part) && digits_val(int_part) * SCALE
            + frac_val(frac_part) <= crate::fixed::MAG_LIMIT)
    }
}

/// The signed byte-sized decimal a token denotes: an optional sign and
/// digits.
pub open spec fn i8_of_token(t: Seq<u8>) -> Option<i8> {
    let neg = t.len() > 0 && t[0] == 45;
    let body = number_body(t);
    if body.len() > 0 && all_digits(body) && (if neg {
        digits_val(body) <= 128
    } else {
        digits_val(body) <= 127
    }) {
        if neg {
            Some((-digits_val(body)) as i8)
        } else {
            Some(digits_val(body) as i8)
        }
    } else {
        None
    }
}

/// Parses a signed decimal token into an `i8`.
pub fn parse_i8(t: &Vec<u8>) -> (r: Option<i8>)
    ensures
        r == i8_of_token(t@),
{
    let ghost ts = t@;
    let n: usize = t.len();
    if n == 0 {
        return None;
    }
    let first: u8 = t[0];
    let negative: bool = first == 45;
    let start: usize = if first == 45 || first == 43 {
        1
    } else {
        0
    };
    let ghost body = number_body(ts);
    proof {
        assert(forall|k: int| 0 <= k < body.len() ==> #[trigger] body[k] == ts[k + start]);
    }
    if start == n {
        return None;
    }
    let mut val: u32 = 0;
    let mut k: usize = start;
    while k < n
        invariant
            ts == t@,
            n == ts.len(),
            start <= k <= n,
            start <= 1,
            body == number_body(ts),
            body == ts.subrange(start as int, n as int),
            forall|k2: int| 0 <= k2 < body.len() ==> #[trigger] body[k2] == ts[k2 + start],
            all_digits(body.take(k as int - start)),
            val == digits_val(body.take(k as int - start)),
            val <= 128,
        decreases n - k,
    {
        let b: u8 = t[k];
        proof {
            assert(body[k as int - start] == ts[k as int]);
            assert(body.take(k as int + 1 - start).drop_last() =~= body.take(k as int - start));
            assert(body.take(k as int + 1 - start).last() == body[k as int - start]);
        }
        if b < 48 || b > 57 {
            proof {
                assert(!is_digit(body[k as int - start]));
                assert(!all_digits(body));
            }
            return None;
        }
        val = val * 10 + (b - 48) as u32;
        proof {
            assert(forall|i: int|
                0 <= i < k + 1 - start
                    ==> is_digit(#[trigger] body.take(k as int + 1 - start)[i]));
        }
        if val > 128 {
            proof {
                if all_digits(body) {
                    lemma_digits_val_grow(body, k as int + 1 - start);
                    assert(forall|i: int|
                        0 <= i < k + 1 - start
                            ==> #[trigger] body.take(k as int + 1 - start)[i] == body[i]);
                    assert(digits_val(body) > 128);
                }
            }
            return None;
        }
        k += 1;
    }
    proof {
        assert(body.take(n as int - start) =~= body);
    }
    if negative {
        Some((val as i32 * -1) as i8)
    } else {
        if val > 127 {
            return None;
        }
        Some(val as i8)
    }
}

} // verus!
