//! The replies of the daemon: the history reply `[[id,...],flag]`, the
//! lease reply (a bare number) and the literal invalid-command reply.
//! Writers and readers are specified byte by byte; reading back a written
//! reply gives the written values.

use vstd::prelude::*;

use crate::codec::{
    dec_rep, dec_rep_i64, is_ws, lemma_dec_rep_digits, lemma_dec_rep_i64_shape,
    lemma_parse_dec_rep, lemma_parse_dec_rep_i64, lemma_ws_end_here, match_at, parse_i64,
    parse_i64_at, parse_u64, parse_u64_at, push_dec, push_dec_i64, skip_ws, token_at, ws_end,
    BYTE_COMMA, BYTE_LBRACKET, BYTE_RBRACKET,
};

verus! {

/// The bytes of `true`.
pub open spec fn true_token() -> Seq<u8> {
    seq![116u8, 114, 117, 101]
}

/// The bytes of `false`.
pub open spec fn false_token() -> Seq<u8> {
    seq![102u8, 97, 108, 115, 101]
}

/// The bytes of the boolean `f`.
pub open spec fn bool_token(f: bool) -> Seq<u8> {
    if f {
        true_token()
    } else {
        false_token()
    }
}

/// The bytes of the literal reply to a request outside the protocol:
/// the JSON string `"invalid command"`.
pub open spec fn invalid_reply_spec() -> Seq<u8> {
    seq![34u8, 105, 110, 118, 97, 108, 105, 100, 32, 99, 111, 109, 109, 97, 110, 100, 34]
}

fn true_token_bytes() -> (r: Vec<u8>)
    ensures
        r@ == true_token(),
{
    let v: Vec<u8> = vec![116, 114, 117, 101];
    proof {
        assert(v@ =~= true_token());
    }
    v
}

fn false_token_bytes() -> (r: Vec<u8>)
    ensures
        r@ == false_token(),
{
    let v: Vec<u8> = vec![102, 97, 108, 115, 101];
    proof {
        assert(v@ =~= false_token());
    }
    v
}

/// The items of an array, commas in between, most recent first.
pub open spec fn encode_items(h: Seq<i64>) -> Seq<u8>
    decreases h.len(),
{
    if h.len() == 0 {
        Seq::empty()
    } else if h.len() == 1 {
        dec_rep_i64(h[0])
    } else {
        dec_rep_i64(h[0]) + seq![BYTE_COMMA] + encode_items(h.drop_first())
    }
}

/// An array of signed numbers between brackets.
pub open spec fn encode_i64_array_spec(h: Seq<i64>) -> Seq<u8> {
    seq![BYTE_LBRACKET] + encode_items(h) + seq![BYTE_RBRACKET]
}

/// The reply to a history request: the ids, then the empty-focus flag.
pub open spec fn encode_history_reply_spec(h: Seq<i64>, f: bool) -> Seq<u8> {
    seq![BYTE_LBRACKET] + encode_i64_array_spec(h) + seq![BYTE_COMMA] + bool_token(f)
        + seq![BYTE_RBRACKET]
}

/// The reply to an inhibit request: the lease id, bare.
pub open spec fn encode_lease_reply_spec(k: u64) -> Seq<u8> {
    dec_rep(k as int)
}

/// Growing an array by one at the back appends a comma and the new item.
proof fn lemma_encode_items_snoc(h: Seq<i64>, i: int)
    requires
        1 <= i < h.len(),
    ensures
        encode_items(h.take(i + 1)) == encode_items(h.take(i)) + seq![BYTE_COMMA] + dec_rep_i64(
            h[i],
        ),
    decreases i,
{
    let a = h.take(i + 1);
    let b = h.take(i);
    if i == 1 {
        assert(a.drop_first() =~= seq![h[1]]);
        assert(b =~= seq![h[0]]);
        assert(encode_items(a) =~= encode_items(b) + seq![BYTE_COMMA] + dec_rep_i64(h[i]));
    } else {
        lemma_encode_items_snoc(h.drop_first(), i - 1);
        assert(a.drop_first() =~= h.drop_first().take(i));
        assert(b.drop_first() =~= h.drop_first().take(i - 1));
        assert(h.drop_first()[i - 1] == h[i]);
        assert(encode_items(a) == dec_rep_i64(a[0]) + seq![BYTE_COMMA] + encode_items(
            a.drop_first(),
        ));
        assert(encode_items(b) == dec_rep_i64(b[0]) + seq![BYTE_COMMA] + encode_items(
            b.drop_first(),
        ));
        assert(encode_items(a) =~= encode_items(b) + seq![BYTE_COMMA] + dec_rep_i64(h[i]));
    }
}

/// Write the reply to a history request.
pub fn encode_history_reply(hist: &Vec<i64>, empty_focus: bool) -> (r: Vec<u8>)
    ensures
        r@ == encode_history_reply_spec(hist@, empty_focus),
{
    let mut out: Vec<u8> = Vec::new();
    out.push(BYTE_LBRACKET);
    out.push(BYTE_LBRACKET);
    let n = hist.len();
    let mut i: usize = 0;
    while i < n
        invariant
            i <= n,
            n == hist.len(),
            out@ == seq![BYTE_LBRACKET, BYTE_LBRACKET] + encode_items(hist@.take(i as int)),
        decreases n - i,
    {
        if i > 0 {
            out.push(BYTE_COMMA);
            push_dec_i64(&mut out, hist[i]);
            proof {
                lemma_encode_items_snoc(hist@, i as int);
                assert(out@ =~= seq![BYTE_LBRACKET, BYTE_LBRACKET] + encode_items(
                    hist@.take(i + 1),
                ));
            }
        } else {
            push_dec_i64(&mut out, hist[i]);
            proof {
                assert(hist@.take(1) =~= seq![hist@[0]]);
                assert(out@ =~= seq![BYTE_LBRACKET, BYTE_LBRACKET] + encode_items(hist@.take(1)));
            }
        }
        i += 1;
    }
    assert(hist@.take(n as int) =~= hist@);
    out.push(BYTE_RBRACKET);
    out.push(BYTE_COMMA);
    let bt = if empty_focus {
        true_token_bytes()
    } else {
        false_token_bytes()
    };
    crate::codec::append_bytes(&mut out, &bt);
    out.push(BYTE_RBRACKET);
    proof {
        assert(out@ =~= encode_history_reply_spec(hist@, empty_focus));
    }
    out
}

/// Write the reply to an inhibit request.
pub fn encode_lease_reply(k: u64) -> (r: Vec<u8>)
    ensures
        r@ == encode_lease_reply_spec(k),
{
    let mut out: Vec<u8> = Vec::new();
    push_dec(&mut out, k);
    out
}

/// Write the reply to a request outside the protocol.
pub fn encode_invalid_reply() -> (r: Vec<u8>)
    ensures
        r@ == invalid_reply_spec(),
{
    let v: Vec<u8> = vec![
        34, 105, 110, 118, 97, 108, 105, 100, 32, 99, 111, 109, 109, 97, 110, 100, 34,
    ];
    proof {
        assert(v@ =~= invalid_reply_spec());
    }
    v
}

/// Items read from `i` on: numbers apart by commas, closed by a bracket.
/// Returns the items and the index after the closing bracket.
pub open spec fn parse_items_from(s: Seq<u8>, i: int) -> Option<(Seq<i64>, int)>
    decreases s.len() - i when 0 <= i <= s.len()
{
    match parse_i64_at(s, i) {
        Some((v, e)) => if i < e <= s.len() {
            let b = ws_end(s, e);
            if b < s.len() && s[b] == BYTE_COMMA {
                let nx = ws_end(s, b + 1);
                if i < nx <= s.len() {
                    match parse_items_from(s, nx) {
                        Some((rest, j)) => Some((seq![v] + rest, j)),
                        None => None,
                    }
                } else {
                    None
                }
            } else if b < s.len() && s[b] == BYTE_RBRACKET {
                Some((seq![v], b + 1))
            } else {
                None
            }
        } else {
            None
        },
        None => None,
    }
}

/// An array read at `i`: a bracket, items or nothing, a closing bracket.
pub open spec fn parse_i64_array_at(s: Seq<u8>, i: int) -> Option<(Seq<i64>, int)> {
    if 0 <= i < s.len() && s[i] == BYTE_LBRACKET {
        let j = ws_end(s, i + 1);
        if j < s.len() && s[j] == BYTE_RBRACKET {
            Some((Seq::empty(), j + 1))
        } else {
            parse_items_from(s, j)
        }
    } else {
        None
    }
}

/// What a history reply's bytes say, if anything.
pub open spec fn parse_history_reply_spec(s: Seq<u8>) -> Option<(Seq<i64>, bool)> {
    let i = ws_end(s, 0);
    if i < s.len() && s[i] == BYTE_LBRACKET {
        match parse_i64_array_at(s, ws_end(s, i + 1)) {
            Some((items, e)) => {
                let c = ws_end(s, e);
                if c < s.len() && s[c] == BYTE_COMMA {
                    let b = ws_end(s, c + 1);
                    if match_at(s, b, true_token()) {
                        if parse_reply_end(s, b + true_token().len()) {
                            Some((items, true))
                        } else {
                            None
                        }
                    } else if match_at(s, b, false_token()) {
                        if parse_reply_end(s, b + false_token().len()) {
                            Some((items, false))
                        } else {
                            None
                        }
                    } else {
                        None
                    }
                } else {
                    None
                }
            },
            None => None,
        }
    } else {
        None
    }
}

/// The bytes from `i` close the reply and end: optional whitespace, a
/// closing bracket, optional whitespace, the end.
pub open spec fn parse_reply_end(s: Seq<u8>, i: int) -> bool {
    let u = ws_end(s, i);
    u < s.len() && s[u] == BYTE_RBRACKET && ws_end(s, u + 1) == s.len()
}

/// What a lease reply's bytes say, if anything.
pub open spec fn parse_lease_reply_spec(s: Seq<u8>) -> Option<u64> {
    let i = ws_end(s, 0);
    match parse_u64_at(s, i) {
        Some((k, e)) => if ws_end(s, e) == s.len() {
            Some(k)
        } else {
            None
        },
        None => None,
    }
}

fn parse_i64_array(s: &Vec<u8>, i: usize) -> (r: Option<(Vec<i64>, usize)>)
    requires
        i <= s.len(),
    ensures
        match r {
            Some(p) => parse_i64_array_at(s@, i as int) == Some((p.0@, p.1 as int)) && p.1
                <= s.len(),
            None => parse_i64_array_at(s@, i as int).is_none(),
        },
{
    if !(i < s.len() && s[i] == BYTE_LBRACKET) {
        return None;
    }
    let j = skip_ws(s, i + 1);
    if j < s.len() && s[j] == BYTE_RBRACKET {
        let empty: Vec<i64> = Vec::new();
        return Some((empty, j + 1));
    }
    let mut acc: Vec<i64> = Vec::new();
    let mut cur: usize = j;
    proof {
        let ghost first = parse_items_from(s@, j as int);
        match first {
            Some((rest, jj)) => {
                assert(acc@ + rest =~= rest);
            },
            None => {},
        }
    }
    loop
        invariant
            cur <= s.len(),
            j <= s.len(),
            parse_i64_array_at(s@, i as int) == parse_items_from(s@, j as int),
            parse_items_from(s@, j as int) == (match parse_items_from(s@, cur as int) {
                Some((rest, jj)) => Some((acc@ + rest, jj)),
                None => None::<(Seq<i64>, int)>,
            }),
        decreases s.len() - cur,
    {
        match parse_i64(s, cur) {
            None => {
                return None;
            },
            Some((v, e)) => {
                let b = skip_ws(s, e);
                if b < s.len() && s[b] == BYTE_COMMA {
                    let nx = skip_ws(s, b + 1);
                    proof {
                        let ghost inner = parse_items_from(s@, nx as int);
                        match inner {
                            Some((rest, jj)) => {
                                assert(parse_items_from(s@, cur as int) == Some(
                                    (seq![v] + rest, jj),
                                ));
                                assert(acc@ + (seq![v] + rest) =~= (acc@ + seq![v]) + rest);
                            },
                            None => {
                                assert(parse_items_from(s@, cur as int) is None);
                            },
                        }
                        assert(acc@ + seq![v] =~= acc@.push(v));
                    }
                    acc.push(v);
                    cur = nx;
                } else if b < s.len() && s[b] == BYTE_RBRACKET {
                    proof {
                        assert(parse_items_from(s@, cur as int) == Some((seq![v], b + 1)));
                        assert(acc@ + seq![v] =~= acc@.push(v));
                    }
                    acc.push(v);
                    return Some((acc, b + 1));
                } else {
                    return None;
                }
            },
        }
    }
}

/// Read a history reply.
pub fn parse_history_reply(s: &Vec<u8>) -> (r: Option<(Vec<i64>, bool)>)
    ensures
        match r {
            Some(p) => parse_history_reply_spec(s@) == Some((p.0@, p.1)),
            None => parse_history_reply_spec(s@).is_none(),
        },
{
    let i = skip_ws(s, 0);
    if !(i < s.len() && s[i] == BYTE_LBRACKET) {
        return None;
    }
    let j = skip_ws(s, i + 1);
    match parse_i64_array(s, j) {
        None => None,
        Some((items, e)) => {
            let c = skip_ws(s, e);
            if !(c < s.len() && s[c] == BYTE_COMMA) {
                return None;
            }
            let b = skip_ws(s, c + 1);
            let tt = true_token_bytes();
            if token_at(s, b, &tt) {
                assert(b + tt@.len() <= s@.len());
                if parse_reply_end_at(s, b + tt.len()) {
                    return Some((items, true));
                }
                return None;
            }
            let ft = false_token_bytes();
            if token_at(s, b, &ft) {
                assert(b + ft@.len() <= s@.len());
                if parse_reply_end_at(s, b + ft.len()) {
                    return Some((items, false));
                }
                return None;
            }
            None
        },
    }
}

fn parse_reply_end_at(s: &Vec<u8>, i: usize) -> (r: bool)
    requires
        i <= s.len(),
    ensures
        r == parse_reply_end(s@, i as int),
{
    let u = skip_ws(s, i);
    if u < s.len() && s[u] == BYTE_RBRACKET {
        skip_ws(s, u + 1) == s.len()
    } else {
        false
    }
}

/// Where an item run and its closing bracket stand at `i`, the items read
/// back are exactly those written.
proof fn lemma_parse_encoded_items(s: Seq<u8>, h: Seq<i64>, i: int)
    requires
        h.len() >= 1,
        0 <= i,
        match_at(s, i, encode_items(h) + seq![BYTE_RBRACKET]),
    ensures
        parse_items_from(s, i) == Some((h, i + encode_items(h).len() + 1)),
    decreases h.len(),
{
    let d0 = dec_rep_i64(h[0]);
    lemma_dec_rep_i64_shape(h[0]);
    let region = encode_items(h) + seq![BYTE_RBRACKET];
    assert(forall|q: int| 0 <= q < region.len() ==> s[i + q] == #[trigger] region[q]) by {
        assert(forall|q: int|
            0 <= q < region.len() ==> #[trigger] s.subrange(i, i + region.len())[q]
                == region[q]);
    }
    if h.len() == 1 {
        assert(match_at(s, i, d0)) by {
            assert(s.subrange(i, i + d0.len() as int) =~= d0);
        }
        assert(region[d0.len() as int] == BYTE_RBRACKET);
        assert(s[i + d0.len()] == region[d0.len() as int]);
        lemma_parse_dec_rep_i64(s, i, h[0]);
        let e = i + d0.len() as int;
        lemma_ws_end_here(s, e);
        assert(seq![h[0]] =~= h);
    } else {
        assert(encode_items(h) == d0 + seq![BYTE_COMMA] + encode_items(h.drop_first()));
        assert(match_at(s, i, d0)) by {
            assert(s.subrange(i, i + d0.len() as int) =~= d0);
        }
        assert(region[d0.len() as int] == BYTE_COMMA);
        assert(s[i + d0.len()] == region[d0.len() as int]);
        lemma_parse_dec_rep_i64(s, i, h[0]);
        let e = i + d0.len() as int;
        lemma_ws_end_here(s, e);
        let tail = encode_items(h.drop_first());
        assert(tail[0] == dec_rep_i64(h.drop_first()[0])[0]) by {
            lemma_dec_rep_i64_shape(h.drop_first()[0]);
        }
        lemma_dec_rep_i64_shape(h.drop_first()[0]);
        assert(region[d0.len() + 1 as int] == tail[0]);
        assert(s[e + 1] == region[d0.len() + 1 as int]);
        lemma_ws_end_here(s, e + 1);
        assert(match_at(s, e + 1, tail + seq![BYTE_RBRACKET])) by {
            assert forall|q: int| 0 <= q < tail.len() + 1 implies s[e + 1 + q] == (tail + seq![
                BYTE_RBRACKET,
            ])[q] by {
                assert(s[i + (d0.len() + 1 + q)] == region[d0.len() + 1 + q]);
            }
            assert(s.subrange(e + 1, e + 1 + (tail.len() + 1) as int) =~= tail + seq![
                BYTE_RBRACKET,
            ]);
        }
        lemma_parse_encoded_items(s, h.drop_first(), e + 1);
        assert(seq![h[0]] + h.drop_first() =~= h);
    }
}

/// Reading back a written history reply gives the written ids and flag.
pub proof fn lemma_history_reply_round_trip(h: Seq<i64>, f: bool)
    ensures
        parse_history_reply_spec(encode_history_reply_spec(h, f)) == Some((h, f)),
{
    let s = encode_history_reply_spec(h, f);
    let items = encode_items(h);
    let ilen = items.len() as int;
    let bt = bool_token(f);
    assert(s.len() == 5 + ilen + bt.len());
    assert(s[0] == BYTE_LBRACKET);
    lemma_ws_end_here(s, 0);
    assert(s[1] == BYTE_LBRACKET);
    lemma_ws_end_here(s, 1);
    if h.len() == 0 {
        assert(s[2] == BYTE_RBRACKET);
        lemma_ws_end_here(s, 2);
        assert(Seq::<i64>::empty() =~= h);
    } else {
        lemma_dec_rep_i64_shape(h[0]);
        assert(items[0] == dec_rep_i64(h[0])[0]);
        assert(s[2] == items[0]);
        lemma_ws_end_here(s, 2);
        assert(s[2] != BYTE_RBRACKET);
        assert(match_at(s, 2, items + seq![BYTE_RBRACKET])) by {
            assert(s.subrange(2, 2 + (items.len() + 1) as int) =~= items + seq![BYTE_RBRACKET]);
        }
        lemma_parse_encoded_items(s, h, 2);
    }
    let e = 3 + ilen;
    assert(s[e] == BYTE_COMMA);
    lemma_ws_end_here(s, e);
    assert(s[e + 1] == bt[0]);
    assert(!is_ws(bt[0]));
    lemma_ws_end_here(s, e + 1);
    if f {
        assert(match_at(s, e + 1, true_token())) by {
            assert(s.subrange(e + 1, e + 1 + true_token().len() as int) =~= true_token());
        }
    } else {
        assert(!match_at(s, e + 1, true_token())) by {
            if match_at(s, e + 1, true_token()) {
                assert(s.subrange(e + 1, e + 1 + true_token().len() as int)[0] == true_token()[0]);
            }
        }
        assert(match_at(s, e + 1, false_token())) by {
            assert(s.subrange(e + 1, e + 1 + false_token().len() as int) =~= false_token());
        }
    }
    let t = e + 1 + bt.len() as int;
    assert(s[t] == BYTE_RBRACKET);
    lemma_ws_end_here(s, t);
}

/// Reading back a written lease reply gives the written id.
pub proof fn lemma_lease_reply_round_trip(k: u64)
    ensures
        parse_lease_reply_spec(encode_lease_reply_spec(k)) == Some(k),
{
    let s = encode_lease_reply_spec(k);
    lemma_dec_rep_digits(k as int);
    assert(s[0] == dec_rep(k as int)[0]);
    lemma_ws_end_here(s, 0);
    assert(match_at(s, 0, dec_rep(k as int))) by {
        assert(s.subrange(0, s.len() as int) =~= s);
    }
    lemma_parse_dec_rep(s, 0, k as int);
}

/// Read a lease reply.
pub fn parse_lease_reply(s: &Vec<u8>) -> (r: Option<u64>)
    ensures
        r == parse_lease_reply_spec(s@),
{
    let i = skip_ws(s, 0);
    match parse_u64(s, i) {
        Some((k, e)) => {
            if skip_ws(s, e) == s.len() {
                Some(k)
            } else {
                None
            }
        },
        None => None,
    }
}

} // verus!
