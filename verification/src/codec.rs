//! Byte-level pieces of the wire format: whitespace, decimal numbers and
//! fixed tokens, each with a specification-level reading of the bytes and
//! an executable reader or writer proved against it.

use vstd::prelude::*;

verus! {

pub const BYTE_TAB: u8 = 9;
pub const BYTE_LF: u8 = 10;
pub const BYTE_CR: u8 = 13;
pub const BYTE_SPACE: u8 = 32;
pub const BYTE_QUOTE: u8 = 34;
pub const BYTE_COMMA: u8 = 44;
pub const BYTE_MINUS: u8 = 45;
pub const BYTE_ZERO: u8 = 48;
pub const BYTE_NINE: u8 = 57;
pub const BYTE_COLON: u8 = 58;
pub const BYTE_LBRACKET: u8 = 91;
pub const BYTE_RBRACKET: u8 = 93;
pub const BYTE_LBRACE: u8 = 123;
pub const BYTE_RBRACE: u8 = 125;

/// The four whitespace bytes the wire format skips between tokens.
pub open spec fn is_ws(b: u8) -> bool {
    b == BYTE_SPACE || b == BYTE_TAB || b == BYTE_LF || b == BYTE_CR
}

/// A decimal digit byte.
pub open spec fn is_digit(b: u8) -> bool {
    BYTE_ZERO <= b <= BYTE_NINE
}

/// The first index at or after `i` that does not hold whitespace.
pub open spec fn ws_end(s: Seq<u8>, i: int) -> int
    decreases s.len() - i when 0 <= i <= s.len()
{
    if i < s.len() && is_ws(s[i]) {
        ws_end(s, i + 1)
    } else {
        i
    }
}

/// The first index at or after `i` that does not hold a digit.
pub open spec fn digits_end(s: Seq<u8>, i: int) -> int
    decreases s.len() - i when 0 <= i <= s.len()
{
    if i < s.len() && is_digit(s[i]) {
        digits_end(s, i + 1)
    } else {
        i
    }
}

/// What `ws_end` finds: a run of whitespace, then a non-whitespace byte or
/// the end.
pub proof fn lemma_ws_end(s: Seq<u8>, i: int)
    requires
        0 <= i <= s.len(),
    ensures
        i <= ws_end(s, i) <= s.len(),
        forall|j: int| i <= j < ws_end(s, i) ==> is_ws(s[j]),
        ws_end(s, i) < s.len() ==> !is_ws(s[ws_end(s, i)]),
    decreases s.len() - i,
{
    if i < s.len() && is_ws(s[i]) {
        lemma_ws_end(s, i + 1);
    }
}

/// What `digits_end` finds: a run of digits, then a non-digit byte or the
/// end.
pub proof fn lemma_digits_end(s: Seq<u8>, i: int)
    requires
        0 <= i <= s.len(),
    ensures
        i <= digits_end(s, i) <= s.len(),
        forall|j: int| i <= j < digits_end(s, i) ==> is_digit(s[j]),
        digits_end(s, i) < s.len() ==> !is_digit(s[digits_end(s, i)]),
    decreases s.len() - i,
{
    if i < s.len() && is_digit(s[i]) {
        lemma_digits_end(s, i + 1);
    }
}

/// A run of digits ending where a non-digit stands (or the sequence ends)
/// is exactly what `digits_end` finds.
pub proof fn lemma_digits_end_is(s: Seq<u8>, i: int, e: int)
    requires
        0 <= i <= e <= s.len(),
        forall|j: int| i <= j < e ==> is_digit(s[j]),
        e < s.len() ==> !is_digit(s[e]),
    ensures
        digits_end(s, i) == e,
    decreases e - i,
{
    if i < e {
        lemma_digits_end_is(s, i + 1, e);
    }
}

/// A position holding no whitespace is its own whitespace end.
pub proof fn lemma_ws_end_here(s: Seq<u8>, i: int)
    requires
        0 <= i <= s.len(),
        i < s.len() ==> !is_ws(s[i]),
    ensures
        ws_end(s, i) == i,
{
}

/// The number a digit run spells, most significant digit first.
pub open spec fn nat_of_digits(s: Seq<u8>) -> int
    decreases s.len(),
{
    if s.len() == 0 {
        0
    } else {
        nat_of_digits(s.drop_last()) * 10 + (s.last() - BYTE_ZERO)
    }
}

/// A digit run spells a number at least 0; a longer run spells no smaller
/// a number.
pub proof fn lemma_nat_of_digits_bounds(s: Seq<u8>, i: int, a: int, b: int)
    requires
        0 <= i <= a <= b <= s.len(),
        forall|j: int| i <= j < b ==> is_digit(s[j]),
    ensures
        0 <= nat_of_digits(s.subrange(i, a)) <= nat_of_digits(s.subrange(i, b)),
    decreases b - a,
{
    lemma_nat_of_digits_nonneg(s.subrange(i, a));
    if a < b {
        lemma_nat_of_digits_bounds(s, i, a + 1, b);
        assert(s.subrange(i, a + 1).drop_last() =~= s.subrange(i, a));
        assert(s.subrange(i, a + 1).last() == s[a]);
        lemma_nat_of_digits_nonneg(s.subrange(i, a));
    }
}

/// A digit run spells nothing negative.
pub proof fn lemma_nat_of_digits_nonneg(s: Seq<u8>)
    requires
        forall|j: int| 0 <= j < s.len() ==> is_digit(s[j]),
    ensures
        nat_of_digits(s) >= 0,
    decreases s.len(),
{
    if s.len() > 0 {
        assert(forall|j: int|
            0 <= j < s.drop_last().len() ==> is_digit(#[trigger] s.drop_last()[j]));
        lemma_nat_of_digits_nonneg(s.drop_last());
        assert(is_digit(s[s.len() - 1]));
    }
}

/// An unsigned decimal number read at `i`: a digit run without a needless
/// leading zero, small enough for a `u64`.
pub open spec fn parse_u64_at(s: Seq<u8>, i: int) -> Option<(u64, int)> {
    let e = digits_end(s, i);
    if e == i {
        None
    } else if s[i] == BYTE_ZERO && e > i + 1 {
        None
    } else {
        let v = nat_of_digits(s.subrange(i, e));
        if v > u64::MAX {
            None
        } else {
            Some((v as u64, e))
        }
    }
}

/// A signed decimal number read at `i`: an optional minus sign, then
/// digits, within the range of an `i64`.
pub open spec fn parse_i64_at(s: Seq<u8>, i: int) -> Option<(i64, int)> {
    if 0 <= i < s.len() && s[i] == BYTE_MINUS {
        match parse_u64_at(s, i + 1) {
            Some((m, e)) => if m <= i64::MAX as u64 {
                Some(((-(m as int)) as i64, e))
            } else if m == i64::MAX as u64 + 1 {
                Some((i64::MIN, e))
            } else {
                None
            },
            None => None,
        }
    } else {
        match parse_u64_at(s, i) {
            Some((m, e)) => if m <= i64::MAX as u64 {
                Some((m as i64, e))
            } else {
                None
            },
            None => None,
        }
    }
}

/// An unsigned decimal number read at `i`, small enough for a `usize`.
pub open spec fn parse_usize_at(s: Seq<u8>, i: int) -> Option<(usize, int)> {
    match parse_u64_at(s, i) {
        Some((m, e)) => if m <= usize::MAX as u64 {
            Some((m as usize, e))
        } else {
            None
        },
        None => None,
    }
}

/// Read an unsigned decimal number at `i`.
pub fn parse_u64(s: &Vec<u8>, i: usize) -> (r: Option<(u64, usize)>)
    requires
        i <= s.len(),
    ensures
        match r {
            Some(p) => parse_u64_at(s@, i as int) == Some((p.0, p.1 as int)) && i < p.1
                <= s.len(),
            None => parse_u64_at(s@, i as int).is_none(),
        },
{
    proof {
        lemma_digits_end(s@, i as int);
    }
    let ghost e = digits_end(s@, i as int);
    let n = s.len();
    if i >= n || s[i] < BYTE_ZERO || s[i] > BYTE_NINE {
        assert(e == i);
        return None;
    }
    if s[i] == BYTE_ZERO && i + 1 < n && s[i + 1] >= BYTE_ZERO && s[i + 1] <= BYTE_NINE {
        assert(e > i + 1) by {
            if e == i + 1 {
                assert(!is_digit(s@[i + 1]));
            }
        }
        return None;
    }
    // a lone zero, or a run that does not start with zero
    let mut j: usize = i;
    let mut acc: u64 = 0;
    while j < n && s[j] >= BYTE_ZERO && s[j] <= BYTE_NINE
        invariant
            i <= j <= n,
            n == s.len(),
            j <= e <= n,
            forall|q: int| i <= q < e ==> is_digit(s@[q]),
            e < n ==> !is_digit(s@[e]),
            j < e ==> is_digit(s@[j as int]),
            j == e || j < e,
            acc == nat_of_digits(s@.subrange(i as int, j as int)),
            e == digits_end(s@, i as int),
        decreases n - j,
    {
        assert(j < e) by {
            if j >= e {
                assert(!is_digit(s@[j as int]));
            }
        }
        let d = s[j] - BYTE_ZERO;
        proof {
            assert(s@.subrange(i as int, j + 1).drop_last() =~= s@.subrange(i as int, j as int));
            assert(s@.subrange(i as int, j + 1).last() == s@[j as int]);
        }
        if acc > (u64::MAX - d as u64) / 10 {
            proof {
                lemma_nat_of_digits_bounds(s@, i as int, j + 1, e);
                assert(nat_of_digits(s@.subrange(i as int, j + 1)) == acc * 10 + d);
                assert(acc * 10 + d > u64::MAX) by (nonlinear_arith)
                    requires
                        acc > (u64::MAX - d as u64) / 10,
                        0 <= d <= 9,
                        acc <= u64::MAX,
                {}
            }
            return None;
        }
        assert(acc * 10 + d <= u64::MAX) by (nonlinear_arith)
            requires
                acc <= (u64::MAX - d as u64) / 10,
                0 <= d <= 9,
        {}
        acc = acc * 10 + d as u64;
        j += 1;
    }
    assert(j == e) by {
        if j < e {
            assert(is_digit(s@[j as int]));
        }
    }
    Some((acc, j))
}

/// Read a signed decimal number at `i`.
pub fn parse_i64(s: &Vec<u8>, i: usize) -> (r: Option<(i64, usize)>)
    requires
        i <= s.len(),
    ensures
        match r {
            Some(p) => parse_i64_at(s@, i as int) == Some((p.0, p.1 as int)) && i < p.1
                <= s.len(),
            None => parse_i64_at(s@, i as int).is_none(),
        },
{
    if i < s.len() && s[i] == BYTE_MINUS {
        match parse_u64(s, i + 1) {
            Some((m, e)) => {
                if m <= i64::MAX as u64 {
                    Some((-(m as i64), e))
                } else if m == i64::MAX as u64 + 1 {
                    Some((i64::MIN, e))
                } else {
                    None
                }
            },
            None => None,
        }
    } else {
        match parse_u64(s, i) {
            Some((m, e)) => {
                if m <= i64::MAX as u64 {
                    Some((m as i64, e))
                } else {
                    None
                }
            },
            None => None,
        }
    }
}

/// Read an unsigned decimal number at `i` that fits a `usize`.
pub fn parse_usize(s: &Vec<u8>, i: usize) -> (r: Option<(usize, usize)>)
    requires
        i <= s.len(),
    ensures
        match r {
            Some(p) => parse_usize_at(s@, i as int) == Some((p.0, p.1 as int)) && i < p.1
                <= s.len(),
            None => parse_usize_at(s@, i as int).is_none(),
        },
{
    match parse_u64(s, i) {
        Some((m, e)) => {
            if m <= usize::MAX as u64 {
                Some((m as usize, e))
            } else {
                None
            }
        },
        None => None,
    }
}

/// The first index at or after `i` holding no whitespace.
pub fn skip_ws(s: &Vec<u8>, i: usize) -> (r: usize)
    requires
        i <= s.len(),
    ensures
        r == ws_end(s@, i as int),
        i <= r <= s.len(),
{
    proof {
        lemma_ws_end(s@, i as int);
    }
    let ghost e = ws_end(s@, i as int);
    let n = s.len();
    let mut j: usize = i;
    while j < n && (s[j] == BYTE_SPACE || s[j] == BYTE_TAB || s[j] == BYTE_LF || s[j] == BYTE_CR)
        invariant
            i <= j <= n,
            n == s.len(),
            j <= e <= n,
            forall|q: int| i <= q < e ==> is_ws(s@[q]),
            e < n ==> !is_ws(s@[e]),
            e == ws_end(s@, i as int),
        decreases n - j,
    {
        assert(j < e) by {
            if j >= e {
                assert(!is_ws(s@[j as int]));
            }
        }
        j += 1;
    }
    assert(j == e) by {
        if j < e {
            assert(is_ws(s@[j as int]));
        }
    }
    j
}

/// The token `t` stands in `s` at `i`.
pub open spec fn match_at(s: Seq<u8>, i: int, t: Seq<u8>) -> bool {
    0 <= i && i + t.len() <= s.len() && s.subrange(i, i + t.len()) == t
}

/// Whether the token stands in `s` at `i`.
pub fn token_at(s: &Vec<u8>, i: usize, t: &Vec<u8>) -> (r: bool)
    requires
        i <= s.len(),
    ensures
        r == match_at(s@, i as int, t@),
{
    let m = t.len();
    if s.len() - i < m {
        assert(!match_at(s@, i as int, t@));
        return false;
    }
    let mut j: usize = 0;
    while j < m
        invariant
            j <= m,
            m == t.len(),
            i + m <= s.len(),
            forall|q: int| 0 <= q < j ==> s@[i + q] == t@[q],
        decreases m - j,
    {
        if s[i + j] != t[j] {
            assert(!match_at(s@, i as int, t@)) by {
                if match_at(s@, i as int, t@) {
                    assert(s@.subrange(i as int, i + t@.len())[j as int] == t@[j as int]);
                }
            }
            return false;
        }
        j += 1;
    }
    assert(s@.subrange(i as int, i + t@.len()) =~= t@);
    true
}

/// The decimal spelling of `v`, most significant digit first.
pub open spec fn dec_rep(v: int) -> Seq<u8>
    decreases v when v >= 0
{
    if v < 10 {
        seq![(BYTE_ZERO + v) as u8]
    } else {
        dec_rep(v / 10).push((BYTE_ZERO + v % 10) as u8)
    }
}

/// The decimal spelling of a signed value: a minus sign for a negative
/// one, then the spelling of its magnitude.
pub open spec fn dec_rep_i64(v: i64) -> Seq<u8> {
    if v < 0 {
        seq![BYTE_MINUS] + dec_rep(-(v as int))
    } else {
        dec_rep(v as int)
    }
}

/// A spelling is all digits, nonempty, and starts with zero only for zero
/// itself.
pub proof fn lemma_dec_rep_digits(v: int)
    requires
        v >= 0,
    ensures
        dec_rep(v).len() >= 1,
        forall|j: int| 0 <= j < dec_rep(v).len() ==> is_digit(#[trigger] dec_rep(v)[j]),
        v >= 1 ==> dec_rep(v)[0] != BYTE_ZERO,
        v < 10 ==> dec_rep(v).len() == 1,
    decreases v,
{
    if v >= 10 {
        lemma_dec_rep_digits(v / 10);
        assert forall|j: int| 0 <= j < dec_rep(v).len() implies is_digit(
            #[trigger] dec_rep(v)[j],
        ) by {
            if j < dec_rep(v / 10).len() {
                assert(dec_rep(v)[j] == dec_rep(v / 10)[j]);
            }
        }
        assert(dec_rep(v)[0] == dec_rep(v / 10)[0]);
    }
}

/// Reading a spelling back gives the spelled value.
pub proof fn lemma_dec_rep_value(v: int)
    requires
        v >= 0,
    ensures
        nat_of_digits(dec_rep(v)) == v,
    decreases v,
{
    if v < 10 {
        assert(dec_rep(v).drop_last() =~= Seq::<u8>::empty());
        assert(nat_of_digits(Seq::<u8>::empty()) == 0);
        assert((BYTE_ZERO + v) as u8 == BYTE_ZERO + v);
        assert(dec_rep(v).last() == (BYTE_ZERO + v) as u8);
        assert(dec_rep(v).len() == 1);
        assert(nat_of_digits(dec_rep(v)) == nat_of_digits(dec_rep(v).drop_last()) * 10 + (
        dec_rep(v).last() - BYTE_ZERO));
    } else {
        lemma_dec_rep_value(v / 10);
        vstd::arithmetic::div_mod::lemma_fundamental_div_mod(v, 10);
        vstd::arithmetic::div_mod::lemma_mod_bound(v, 10);
        assert(dec_rep(v).drop_last() =~= dec_rep(v / 10));
        assert((BYTE_ZERO + v % 10) as u8 == BYTE_ZERO + v % 10);
        assert(dec_rep(v).last() == (BYTE_ZERO + v % 10) as u8);
        assert(nat_of_digits(dec_rep(v)) == nat_of_digits(dec_rep(v / 10)) * 10 + (dec_rep(
            v,
        ).last() - BYTE_ZERO));
    }
}

/// Where a spelling of `v` stands at `i`, followed by no digit, the
/// unsigned number read at `i` is `v`.
pub proof fn lemma_parse_dec_rep(s: Seq<u8>, i: int, v: int)
    requires
        0 <= v <= u64::MAX,
        match_at(s, i, dec_rep(v)),
        i + dec_rep(v).len() < s.len() ==> !is_digit(s[i + dec_rep(v).len()]),
    ensures
        parse_u64_at(s, i) == Some((v as u64, i + dec_rep(v).len())),
{
    let e = i + dec_rep(v).len();
    lemma_dec_rep_digits(v);
    assert(s.subrange(i, e) =~= dec_rep(v));
    assert forall|j: int| i <= j < e implies is_digit(s[j]) by {
        assert(s[j] == dec_rep(v)[j - i]);
    }
    lemma_digits_end_is(s, i, e);
    lemma_dec_rep_value(v);
    assert(s[i] == dec_rep(v)[0]);
    if v == 0 {
        assert(dec_rep(0).len() == 1);
    }
}

/// A signed spelling is nonempty and starts with a minus sign or a digit,
/// never whitespace.
pub proof fn lemma_dec_rep_i64_shape(v: i64)
    ensures
        dec_rep_i64(v).len() >= 1,
        dec_rep_i64(v)[0] == BYTE_MINUS || is_digit(dec_rep_i64(v)[0]),
        !is_ws(dec_rep_i64(v)[0]),
{
    if v < 0 {
        lemma_dec_rep_digits(-(v as int));
    } else {
        lemma_dec_rep_digits(v as int);
    }
}

/// Where a signed spelling of `v` stands at `i`, followed by no digit, the
/// signed number read at `i` is `v`.
pub proof fn lemma_parse_dec_rep_i64(s: Seq<u8>, i: int, v: i64)
    requires
        match_at(s, i, dec_rep_i64(v)),
        i + dec_rep_i64(v).len() < s.len() ==> !is_digit(s[i + dec_rep_i64(v).len()]),
    ensures
        parse_i64_at(s, i) == Some((v, i + dec_rep_i64(v).len())),
{
    if v >= 0 {
        assert(s.subrange(i, i + dec_rep(v as int).len()) =~= dec_rep(v as int));
        lemma_dec_rep_digits(v as int);
        assert(s[i] == dec_rep(v as int)[0]);
        lemma_parse_dec_rep(s, i, v as int);
    } else {
        let m = -(v as int);
        let w = dec_rep_i64(v);
        assert(forall|q: int| 0 <= q < w.len() ==> s[i + q] == #[trigger] w[q]) by {
            assert(forall|q: int|
                0 <= q < w.len() ==> #[trigger] s.subrange(i, i + w.len())[q] == w[q]);
        }
        assert(s[i] == w[0]);
        assert(match_at(s, i + 1, dec_rep(m))) by {
            assert(s.subrange(i + 1, i + 1 + dec_rep(m).len()) =~= dec_rep(m)) by {
                assert(forall|q: int|
                    0 <= q < dec_rep(m).len() ==> #[trigger] dec_rep(m)[q] == w[q + 1]);
            }
        }
        assert(m <= u64::MAX);
        lemma_parse_dec_rep(s, i + 1, m);
        if m <= i64::MAX as u64 {
            assert((-(m as int)) as i64 == v);
        } else {
            assert(m == i64::MAX as u64 + 1);
            assert(v == i64::MIN);
        }
    }
}

/// Append every byte of `t`.
pub fn append_bytes(out: &mut Vec<u8>, t: &Vec<u8>)
    ensures
        final(out)@ == old(out)@ + t@,
{
    let n = t.len();
    let mut i: usize = 0;
    while i < n
        invariant
            i <= n,
            n == t.len(),
            out@ == old(out)@ + t@.take(i as int),
        decreases n - i,
    {
        out.push(t[i]);
        assert(out@ =~= old(out)@ + t@.take(i + 1));
        i += 1;
    }
    assert(old(out)@ + t@.take(n as int) =~= old(out)@ + t@);
}

/// Append the decimal spelling of `v`.
pub fn push_dec(out: &mut Vec<u8>, v: u64)
    ensures
        final(out)@ == old(out)@ + dec_rep(v as int),
    decreases v,
{
    if v < 10 {
        out.push(BYTE_ZERO + v as u8);
        assert(out@ =~= old(out)@ + dec_rep(v as int));
    } else {
        push_dec(out, v / 10);
        out.push(BYTE_ZERO + (v % 10) as u8);
        assert(out@ =~= old(out)@ + dec_rep(v as int));
    }
}

/// Append the decimal spelling of the signed value `v`.
pub fn push_dec_i64(out: &mut Vec<u8>, v: i64)
    ensures
        final(out)@ == old(out)@ + dec_rep_i64(v),
{
    if v < 0 {
        out.push(BYTE_MINUS);
        let m: u64 = if v == i64::MIN {
            i64::MAX as u64 + 1
        } else {
            (-v) as u64
        };
        assert(m == -(v as int));
        push_dec(out, m);
        assert(out@ =~= old(out)@ + dec_rep_i64(v));
    } else {
        push_dec(out, v as u64);
    }
}

} // verus!
