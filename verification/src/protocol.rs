//! The client protocol: one JSON value per request. A request is either
//! the bare string `"GetHistory"` or a one-entry object such as
//! `{"SwitchTo":2}`; whitespace may stand around tokens. The codec here is
//! specified byte by byte and proved to read back exactly what it writes.

use vstd::prelude::*;

use crate::codec::{
    append_bytes, dec_rep, dec_rep_i64, is_digit, is_ws, lemma_dec_rep_digits,
    lemma_dec_rep_i64_shape, lemma_parse_dec_rep, lemma_parse_dec_rep_i64, lemma_ws_end_here,
    match_at, parse_i64, parse_i64_at, parse_u64, parse_u64_at, parse_usize, parse_usize_at,
    push_dec, push_dec_i64, skip_ws, token_at, ws_end, BYTE_COLON, BYTE_LBRACE, BYTE_QUOTE,
    BYTE_RBRACE,
};

verus! {

/// One request of the client protocol.
#[derive(Clone, Copy, Debug, PartialEq, Eq)]
pub enum Cmd {
    /// Focus the nth most recently used window.
    SwitchTo(usize),
    /// Ask for the history and the empty-focus flag.
    GetHistory,
    /// Record a window as focused, inhibited or not.
    PushToHistory(i64),
    /// Grant a fresh lease (`None`) or renew the given one.
    InhibitHistory(Option<u64>),
    /// Give a lease back.
    InhibitHistoryRelease(u64),
}

/// The bytes of `SwitchTo`.
pub open spec fn switch_to_key() -> Seq<u8> {
    seq![83u8, 119, 105, 116, 99, 104, 84, 111]
}

/// The bytes of `GetHistory`.
pub open spec fn get_history_key() -> Seq<u8> {
    seq![71u8, 101, 116, 72, 105, 115, 116, 111, 114, 121]
}

/// The bytes of `PushToHistory`.
pub open spec fn push_to_history_key() -> Seq<u8> {
    seq![80u8, 117, 115, 104, 84, 111, 72, 105, 115, 116, 111, 114, 121]
}

/// The bytes of `InhibitHistory`.
pub open spec fn inhibit_history_key() -> Seq<u8> {
    seq![73u8, 110, 104, 105, 98, 105, 116, 72, 105, 115, 116, 111, 114, 121]
}

/// The bytes of `InhibitHistoryRelease`.
pub open spec fn inhibit_release_key() -> Seq<u8> {
    seq![
        73u8, 110, 104, 105, 98, 105, 116, 72, 105, 115, 116, 111, 114, 121, 82, 101, 108, 101,
        97, 115, 101,
    ]
}

/// The bytes of `null`.
pub open spec fn null_token() -> Seq<u8> {
    seq![110u8, 117, 108, 108]
}

/// The token `t` between double quotes.
pub open spec fn quoted(t: Seq<u8>) -> Seq<u8> {
    seq![BYTE_QUOTE] + t + seq![BYTE_QUOTE]
}

fn switch_to_key_bytes() -> (r: Vec<u8>)
    ensures
        r@ == switch_to_key(),
{
    let v: Vec<u8> = vec![83, 119, 105, 116, 99, 104, 84, 111];
    proof {
        assert(v@ =~= switch_to_key());
    }
    v
}

fn get_history_key_bytes() -> (r: Vec<u8>)
    ensures
        r@ == get_history_key(),
{
    let v: Vec<u8> = vec![71, 101, 116, 72, 105, 115, 116, 111, 114, 121];
    proof {
        assert(v@ =~= get_history_key());
    }
    v
}

fn push_to_history_key_bytes() -> (r: Vec<u8>)
    ensures
        r@ == push_to_history_key(),
{
    let v: Vec<u8> = vec![80, 117, 115, 104, 84, 111, 72, 105, 115, 116, 111, 114, 121];
    proof {
        assert(v@ =~= push_to_history_key());
    }
    v
}

fn inhibit_history_key_bytes() -> (r: Vec<u8>)
    ensures
        r@ == inhibit_history_key(),
{
    let v: Vec<u8> = vec![73, 110, 104, 105, 98, 105, 116, 72, 105, 115, 116, 111, 114, 121];
    proof {
        assert(v@ =~= inhibit_history_key());
    }
    v
}

fn inhibit_release_key_bytes() -> (r: Vec<u8>)
    ensures
        r@ == inhibit_release_key(),
{
    let v: Vec<u8> = vec![
        73, 110, 104, 105, 98, 105, 116, 72, 105, 115, 116, 111, 114, 121, 82, 101, 108, 101, 97,
        115, 101,
    ];
    proof {
        assert(v@ =~= inhibit_release_key());
    }
    v
}

fn null_token_bytes() -> (r: Vec<u8>)
    ensures
        r@ == null_token(),
{
    let v: Vec<u8> = vec![110, 117, 108, 108];
    proof {
        assert(v@ =~= null_token());
    }
    v
}

fn quote_bytes(t: &Vec<u8>) -> (r: Vec<u8>)
    ensures
        r@ == quoted(t@),
{
    let mut v: Vec<u8> = Vec::new();
    v.push(BYTE_QUOTE);
    append_bytes(&mut v, t);
    v.push(BYTE_QUOTE);
    proof {
        assert(v@ =~= quoted(t@));
    }
    v
}

/// Where `s`, read from `i`, opens an object whose single key is `key`:
/// the index of the value, after the colon and any whitespace.
pub open spec fn object_head(s: Seq<u8>, i: int, key: Seq<u8>) -> Option<int> {
    if 0 <= i < s.len() && s[i] == BYTE_LBRACE {
        let j = ws_end(s, i + 1);
        let tok = quoted(key);
        if match_at(s, j, tok) {
            let k = ws_end(s, j + tok.len());
            if k < s.len() && s[k] == BYTE_COLON {
                Some(ws_end(s, k + 1))
            } else {
                None
            }
        } else {
            None
        }
    } else {
        None
    }
}

/// Whether `s`, read from `i`, closes the object and then ends: optional
/// whitespace, a closing brace, optional whitespace, the end.
pub open spec fn object_tail(s: Seq<u8>, i: int) -> bool {
    let j = ws_end(s, i);
    j < s.len() && s[j] == BYTE_RBRACE && ws_end(s, j + 1) == s.len()
}

fn object_head_at(s: &Vec<u8>, i: usize, key: &Vec<u8>) -> (r: Option<usize>)
    requires
        i <= s.len(),
    ensures
        match r {
            Some(v) => object_head(s@, i as int, key@) == Some(v as int) && v <= s.len(),
            None => object_head(s@, i as int, key@).is_none(),
        },
{
    if i >= s.len() || s[i] != BYTE_LBRACE {
        return None;
    }
    let j = skip_ws(s, i + 1);
    let tok = quote_bytes(key);
    if !token_at(s, j, &tok) {
        return None;
    }
    assert(j + tok@.len() <= s@.len());
    let k = skip_ws(s, j + tok.len());
    if k < s.len() && s[k] == BYTE_COLON {
        Some(skip_ws(s, k + 1))
    } else {
        None
    }
}

fn object_tail_at(s: &Vec<u8>, i: usize) -> (r: bool)
    requires
        i <= s.len(),
    ensures
        r == object_tail(s@, i as int),
{
    let j = skip_ws(s, i);
    if j < s.len() && s[j] == BYTE_RBRACE {
        skip_ws(s, j + 1) == s.len()
    } else {
        false
    }
}

/// What a request's bytes say, if anything: the whole grammar of the
/// protocol, one command per request, nothing before or after it.
pub open spec fn parse_command_spec(s: Seq<u8>) -> Option<Cmd> {
    let i = ws_end(s, 0);
    if match_at(s, i, quoted(get_history_key())) && ws_end(
        s,
        i + quoted(get_history_key()).len(),
    ) == s.len() {
        Some(Cmd::GetHistory)
    } else {
        match object_head(s, i, switch_to_key()) {
            Some(v) => match parse_usize_at(s, v) {
                Some((n, e)) => if object_tail(s, e) {
                    Some(Cmd::SwitchTo(n))
                } else {
                    None
                },
                None => None,
            },
            None => match object_head(s, i, push_to_history_key()) {
                Some(v) => match parse_i64_at(s, v) {
                    Some((id, e)) => if object_tail(s, e) {
                        Some(Cmd::PushToHistory(id))
                    } else {
                        None
                    },
                    None => None,
                },
                None => match object_head(s, i, inhibit_release_key()) {
                    Some(v) => match parse_u64_at(s, v) {
                        Some((k, e)) => if object_tail(s, e) {
                            Some(Cmd::InhibitHistoryRelease(k))
                        } else {
                            None
                        },
                        None => None,
                    },
                    None => match object_head(s, i, inhibit_history_key()) {
                        Some(v) => if match_at(s, v, null_token()) && object_tail(
                            s,
                            v + null_token().len(),
                        ) {
                            Some(Cmd::InhibitHistory(None))
                        } else {
                            match parse_u64_at(s, v) {
                                Some((k, e)) => if object_tail(s, e) {
                                    Some(Cmd::InhibitHistory(Some(k)))
                                } else {
                                    None
                                },
                                None => None,
                            }
                        },
                        None => None,
                    },
                },
            },
        }
    }
}

/// Read one request. `None` stands for anything outside the protocol; the
/// daemon answers it with the invalid-command reply.
pub fn parse_command(s: &Vec<u8>) -> (r: Option<Cmd>)
    ensures
        r == parse_command_spec(s@),
{
    let i = skip_ws(s, 0);
    let gh = get_history_key_bytes();
    let ghq = quote_bytes(&gh);
    if token_at(s, i, &ghq) {
        assert(i + ghq@.len() <= s@.len());
        if skip_ws(s, i + ghq.len()) == s.len() {
            return Some(Cmd::GetHistory);
        }
    }
    let sk = switch_to_key_bytes();
    match object_head_at(s, i, &sk) {
        Some(v) => {
            return match parse_usize(s, v) {
                Some((n, e)) => if object_tail_at(s, e) {
                    Some(Cmd::SwitchTo(n))
                } else {
                    None
                },
                None => None,
            };
        },
        None => {},
    }
    let pk = push_to_history_key_bytes();
    match object_head_at(s, i, &pk) {
        Some(v) => {
            return match parse_i64(s, v) {
                Some((id, e)) => if object_tail_at(s, e) {
                    Some(Cmd::PushToHistory(id))
                } else {
                    None
                },
                None => None,
            };
        },
        None => {},
    }
    let rk = inhibit_release_key_bytes();
    match object_head_at(s, i, &rk) {
        Some(v) => {
            return match parse_u64(s, v) {
                Some((k, e)) => if object_tail_at(s, e) {
                    Some(Cmd::InhibitHistoryRelease(k))
                } else {
                    None
                },
                None => None,
            };
        },
        None => {},
    }
    let ik = inhibit_history_key_bytes();
    match object_head_at(s, i, &ik) {
        Some(v) => {
            let nt = null_token_bytes();
            if token_at(s, v, &nt) && object_tail_at(s, v + nt.len()) {
                return Some(Cmd::InhibitHistory(None));
            }
            return match parse_u64(s, v) {
                Some((k, e)) => if object_tail_at(s, e) {
                    Some(Cmd::InhibitHistory(Some(k)))
                } else {
                    None
                },
                None => None,
            };
        },
        None => {},
    }
    None
}

/// A one-entry object: `{"key":value}`, without whitespace.
pub open spec fn wrapped(key: Seq<u8>, value: Seq<u8>) -> Seq<u8> {
    seq![BYTE_LBRACE] + quoted(key) + seq![BYTE_COLON] + value + seq![BYTE_RBRACE]
}

/// The canonical spelling of a command: what [`encode_command`] writes.
pub open spec fn encode_command_spec(c: Cmd) -> Seq<u8> {
    match c {
        Cmd::GetHistory => quoted(get_history_key()),
        Cmd::SwitchTo(n) => wrapped(switch_to_key(), dec_rep(n as int)),
        Cmd::PushToHistory(id) => wrapped(push_to_history_key(), dec_rep_i64(id)),
        Cmd::InhibitHistory(None) => wrapped(inhibit_history_key(), null_token()),
        Cmd::InhibitHistory(Some(k)) => wrapped(inhibit_history_key(), dec_rep(k as int)),
        Cmd::InhibitHistoryRelease(k) => wrapped(inhibit_release_key(), dec_rep(k as int)),
    }
}

fn encode_wrapped_value(key: &Vec<u8>) -> (r: Vec<u8>)
    ensures
        r@ == seq![BYTE_LBRACE] + quoted(key@) + seq![BYTE_COLON],
{
    let mut out: Vec<u8> = Vec::new();
    out.push(BYTE_LBRACE);
    out.push(BYTE_QUOTE);
    append_bytes(&mut out, key);
    out.push(BYTE_QUOTE);
    out.push(BYTE_COLON);
    proof {
        assert(out@ =~= seq![BYTE_LBRACE] + quoted(key@) + seq![BYTE_COLON]);
    }
    out
}

/// Write one request in its canonical spelling.
pub fn encode_command(c: &Cmd) -> (r: Vec<u8>)
    ensures
        r@ == encode_command_spec(*c),
{
    match c {
        Cmd::GetHistory => {
            let gh = get_history_key_bytes();
            let out = quote_bytes(&gh);
            out
        },
        Cmd::SwitchTo(n) => {
            let key = switch_to_key_bytes();
            let mut out = encode_wrapped_value(&key);
            push_dec(&mut out, *n as u64);
            out.push(BYTE_RBRACE);
            proof {
                assert(dec_rep(*n as u64 as int) == dec_rep(*n as int));
                assert(out@ =~= encode_command_spec(*c));
            }
            out
        },
        Cmd::PushToHistory(id) => {
            let key = push_to_history_key_bytes();
            let mut out = encode_wrapped_value(&key);
            push_dec_i64(&mut out, *id);
            out.push(BYTE_RBRACE);
            proof {
                assert(out@ =~= encode_command_spec(*c));
            }
            out
        },
        Cmd::InhibitHistory(lease) => {
            let key = inhibit_history_key_bytes();
            let mut out = encode_wrapped_value(&key);
            match lease {
                Some(k) => {
                    push_dec(&mut out, *k);
                },
                None => {
                    let nt = null_token_bytes();
                    append_bytes(&mut out, &nt);
                },
            }
            out.push(BYTE_RBRACE);
            proof {
                assert(out@ =~= encode_command_spec(*c));
            }
            out
        },
        Cmd::InhibitHistoryRelease(k) => {
            let key = inhibit_release_key_bytes();
            let mut out = encode_wrapped_value(&key);
            push_dec(&mut out, *k);
            out.push(BYTE_RBRACE);
            proof {
                assert(out@ =~= encode_command_spec(*c));
            }
            out
        },
    }
}

/// What a one-entry object looks like to the reader: the head finds the
/// key and the value's start, the value's bytes stand where expected, and
/// the tail closes the object at the end.
proof fn lemma_wrapped_head(key: Seq<u8>, value: Seq<u8>)
    requires
        value.len() >= 1,
        !is_ws(value[0]),
    ensures
        ({
            let s = wrapped(key, value);
            &&& s.len() == key.len() + value.len() + 5
            &&& s[0] == BYTE_LBRACE
            &&& ws_end(s, 0) == 0
            &&& object_head(s, 0, key) == Some(key.len() as int + 4)
            &&& match_at(s, key.len() as int + 4, value)
            &&& s[key.len() as int + 4 + value.len()] == BYTE_RBRACE
            &&& object_tail(s, key.len() as int + 4 + value.len())
        }),
{
    let s = wrapped(key, value);
    let klen = key.len() as int;
    let vlen = value.len() as int;
    assert(s.len() == klen + vlen + 5);
    assert(s[0] == BYTE_LBRACE);
    lemma_ws_end_here(s, 0);
    assert(s[1] == BYTE_QUOTE);
    lemma_ws_end_here(s, 1);
    assert(s.subrange(1, klen + 3) =~= quoted(key));
    assert(match_at(s, 1, quoted(key)));
    assert(s[klen + 3] == BYTE_COLON);
    lemma_ws_end_here(s, klen + 3);
    assert(s[klen + 4] == value[0]);
    lemma_ws_end_here(s, klen + 4);
    assert(s.subrange(klen + 4, klen + 4 + vlen) =~= value);
    assert(s[klen + 4 + vlen] == BYTE_RBRACE);
    lemma_ws_end_here(s, klen + 4 + vlen);
}

/// A one-entry object under one key shows no head for a key whose quoted
/// spelling differs at position `d`.
proof fn lemma_wrapped_key_mismatch(key: Seq<u8>, value: Seq<u8>, other: Seq<u8>, d: int)
    requires
        0 <= d < quoted(other).len(),
        d < quoted(key).len(),
        quoted(key)[d] != quoted(other)[d],
    ensures
        object_head(wrapped(key, value), 0, other).is_none(),
{
    let s = wrapped(key, value);
    assert(s[0] == BYTE_LBRACE);
    assert(s[1] == BYTE_QUOTE);
    lemma_ws_end_here(s, 1);
    if match_at(s, 1, quoted(other)) {
        assert(s.subrange(1, 1 + quoted(other).len() as int)[d] == quoted(other)[d]);
        assert(s[1 + d] == quoted(other)[d]);
        assert(s[1 + d] == quoted(key)[d]);
    }
}

/// A one-entry object is not the bare `"GetHistory"` request.
proof fn lemma_wrapped_not_get_history(key: Seq<u8>, value: Seq<u8>)
    ensures
        !match_at(wrapped(key, value), 0, quoted(get_history_key())),
{
    let s = wrapped(key, value);
    let gh = quoted(get_history_key());
    if match_at(s, 0, gh) {
        assert(s.subrange(0, gh.len() as int)[0] == gh[0]);
        assert(s[0] == BYTE_LBRACE);
    }
}

/// Reading back a written request gives the request: the codec loses
/// nothing.
pub proof fn lemma_command_round_trip(c: Cmd)
    ensures
        parse_command_spec(encode_command_spec(c)) == Some(c),
{
    match c {
        Cmd::GetHistory => {
            let s = encode_command_spec(c);
            let gh = quoted(get_history_key());
            assert(s[0] == BYTE_QUOTE);
            lemma_ws_end_here(s, 0);
            assert(s.subrange(0, gh.len() as int) =~= gh);
            assert(match_at(s, 0, gh));
        },
        Cmd::SwitchTo(n) => {
            let key = switch_to_key();
            let value = dec_rep(n as int);
            lemma_dec_rep_digits(n as int);
            lemma_wrapped_head(key, value);
            let s = wrapped(key, value);
            lemma_wrapped_not_get_history(key, value);
            lemma_parse_dec_rep(s, key.len() as int + 4, n as int);
        },
        Cmd::PushToHistory(id) => {
            let key = push_to_history_key();
            let value = dec_rep_i64(id);
            lemma_dec_rep_i64_shape(id);
            lemma_wrapped_head(key, value);
            let s = wrapped(key, value);
            lemma_wrapped_not_get_history(key, value);
            lemma_wrapped_key_mismatch(key, value, switch_to_key(), 1);
            lemma_parse_dec_rep_i64(s, key.len() as int + 4, id);
        },
        Cmd::InhibitHistoryRelease(k) => {
            let key = inhibit_release_key();
            let value = dec_rep(k as int);
            lemma_dec_rep_digits(k as int);
            lemma_wrapped_head(key, value);
            let s = wrapped(key, value);
            lemma_wrapped_not_get_history(key, value);
            lemma_wrapped_key_mismatch(key, value, switch_to_key(), 1);
            lemma_wrapped_key_mismatch(key, value, push_to_history_key(), 1);
            lemma_parse_dec_rep(s, key.len() as int + 4, k as int);
        },
        Cmd::InhibitHistory(lease) => {
            let key = inhibit_history_key();
            let value = match lease {
                Some(k) => dec_rep(k as int),
                None => null_token(),
            };
            if lease is Some {
                lemma_dec_rep_digits(lease->0 as int);
            }
            assert(value.len() >= 1 && !is_ws(value[0]));
            lemma_wrapped_head(key, value);
            let s = wrapped(key, value);
            lemma_wrapped_not_get_history(key, value);
            lemma_wrapped_key_mismatch(key, value, switch_to_key(), 1);
            lemma_wrapped_key_mismatch(key, value, push_to_history_key(), 1);
            lemma_wrapped_key_mismatch(key, value, inhibit_release_key(), 15);
            let v = key.len() as int + 4;
            match lease {
                Some(k) => {
                    assert(!match_at(s, v, null_token())) by {
                        if match_at(s, v, null_token()) {
                            assert(s.subrange(v, v + 4)[0] == null_token()[0]);
                            assert(s[v] == 110);
                            assert(s[v] == value[0]);
                            assert(is_digit(value[0]));
                        }
                    }
                    lemma_parse_dec_rep(s, v, k as int);
                },
                None => {
                    assert(match_at(s, v, null_token()));
                },
            }
        },
    }
}

} // verus!
