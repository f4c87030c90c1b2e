use vstd::prelude::*;
use vstd::slice::{slice_subrange, slice_to_vec};

use crate::store::{lookup, map_of_pairs, unique_keys};

verus! {

/// The fixed byte width of a frame's header.
pub const HEADER_LEN: usize = 10;

/// One decoded request: the key/value pair carried by a frame's payload.
#[derive(Debug)]
pub struct Request {
    pub key: String,
    pub value: String,
}

/// Why decoding a frame failed. Every failure aborts only the connection
/// it happened on.
#[derive(Clone, Copy, Debug, PartialEq, Eq, Structural)]
pub enum CodecError {
    /// The header was shorter than its fixed width, or held fewer than
    /// two whitespace-separated tokens.
    FrameError,
    /// The header's second token is not a valid non-negative integer.
    ParseError,
    /// The connection closed before the announced payload length arrived.
    IoError,
    /// The payload is not a JSON object carrying the two string members
    /// `key` and `value`.
    DecodeError,
}

/// The decoded header: the command token, which is carried along but not
/// interpreted as an operation selector, and the announced payload length.
#[derive(Debug)]
pub struct Header {
    pub command: Vec<u8>,
    pub length: usize,
}

/// Whitespace, as tokenizing the ASCII header understands it.
pub open spec fn is_ws(b: u8) -> bool {
    b == 32 || (9 <= b && b <= 13)
}

/// The length of the token that starts at the head of `s`.
pub open spec fn token_len(s: Seq<u8>) -> nat
    decreases s.len(),
{
    if s.len() == 0 || is_ws(s[0]) {
        0
    } else {
        (1 + token_len(s.drop_first())) as nat
    }
}

/// The token at the head of `s` is never longer than `s`.
proof fn lemma_token_len_le(s: Seq<u8>)
    ensures
        token_len(s) <= s.len(),
    decreases s.len(),
{
    if s.len() > 0 && !is_ws(s[0]) {
        lemma_token_len_le(s.drop_first());
    }
}

/// The whitespace-separated tokens of `s`, in order.
pub open spec fn tokens_of(s: Seq<u8>) -> Seq<Seq<u8>>
    decreases s.len(),
    via tokens_of_decreases
{
    if s.len() == 0 {
        Seq::empty()
    } else if is_ws(s[0]) {
        tokens_of(s.drop_first())
    } else {
        seq![s.take(token_len(s) as int)] + tokens_of(s.skip(token_len(s) as int))
    }
}

#[via_fn]
proof fn tokens_of_decreases(s: Seq<u8>) {
    if s.len() > 0 && !is_ws(s[0]) {
        lemma_token_len_le(s);
        assert(token_len(s) == 1 + token_len(s.drop_first()));
    }
}

/// An ASCII decimal digit.
pub open spec fn is_digit(b: u8) -> bool {
    48 <= b && b <= 57
}

pub open spec fn digit_val(b: u8) -> nat {
    (b - 48) as nat
}

/// The digits of a decimal text: an optional leading `+` sign is dropped.
pub open spec fn dec_digits(t: Seq<u8>) -> Seq<u8> {
    if t.len() > 0 && t[0] == 43 {
        t.drop_first()
    } else {
        t
    }
}

/// A valid non-negative integer text: an optional `+`, then at least one
/// decimal digit.
pub open spec fn is_dec_uint(t: Seq<u8>) -> bool {
    let d = dec_digits(t);
    d.len() > 0 && forall|i: int| 0 <= i < d.len() ==> is_digit(d[i])
}

/// The value of a sequence of decimal digits.
pub open spec fn dec_val(d: Seq<u8>) -> nat
    decreases d.len(),
{
    if d.len() == 0 {
        0
    } else {
        dec_val(d.drop_last()) * 10 + digit_val(d.last())
    }
}

/// The value of a valid non-negative integer text.
pub open spec fn dec_uint_val(t: Seq<u8>) -> nat {
    dec_val(dec_digits(t))
}

/// What decoding a header from the bytes `s` must yield: the command
/// token and the payload length, or the error that classifies the
/// malformation.
pub open spec fn spec_decode_header(s: Seq<u8>) -> Result<(Seq<u8>, nat), CodecError> {
    if s.len() < HEADER_LEN {
        Err(CodecError::FrameError)
    } else if tokens_of(s).len() < 2 {
        Err(CodecError::FrameError)
    } else if !is_dec_uint(tokens_of(s)[1]) || dec_uint_val(tokens_of(s)[1]) > usize::MAX {
        Err(CodecError::ParseError)
    } else {
        Ok((tokens_of(s)[0], dec_uint_val(tokens_of(s)[1])))
    }
}

/// Skipping one leading whitespace byte leaves the tokens unchanged.
proof fn lemma_tokens_skip_one_ws(s: Seq<u8>, i: int)
    requires
        0 <= i < s.len(),
        is_ws(s[i]),
    ensures
        tokens_of(s.skip(i)) == tokens_of(s.skip(i + 1)),
{
    assert(s.skip(i).drop_first() =~= s.skip(i + 1));
}

/// A run of non-whitespace bytes from `from` to `to` is the length of the
/// token standing at `from`.
proof fn lemma_token_len_run(s: Seq<u8>, from: int, to: int)
    requires
        0 <= from <= to <= s.len(),
        forall|j: int| from <= j < to ==> !is_ws(s[j]),
        to < s.len() ==> is_ws(s[to]),
    ensures
        token_len(s.skip(from)) == to - from,
    decreases to - from,
{
    if from == to {
    } else {
        assert(s.skip(from).drop_first() =~= s.skip(from + 1));
        lemma_token_len_run(s, from + 1, to);
    }
}

/// The token standing at a non-whitespace position `from` that runs to
/// `to` stands first among the remaining tokens.
proof fn lemma_tokens_at_token(s: Seq<u8>, from: int, to: int)
    requires
        0 <= from < to <= s.len(),
        forall|j: int| from <= j < to ==> !is_ws(s[j]),
        to < s.len() ==> is_ws(s[to]),
    ensures
        tokens_of(s.skip(from)) == seq![s.subrange(from, to)] + tokens_of(s.skip(to)),
{
    lemma_token_len_run(s, from, to);
    let r = s.skip(from);
    assert(!is_ws(r[0]));
    assert(r.take(token_len(r) as int) =~= s.subrange(from, to));
    assert(r.skip(token_len(r) as int) =~= s.skip(to));
}

/// The value of a digit run never shrinks as more digits follow.
proof fn lemma_dec_val_prefix(d: Seq<u8>, n: int)
    requires
        0 <= n <= d.len(),
    ensures
        dec_val(d.take(n)) <= dec_val(d),
    decreases d.len() - n,
{
    if n == d.len() {
        assert(d.take(n) =~= d);
    } else {
        assert(d.take(n + 1).drop_last() =~= d.take(n));
        assert(dec_val(d.take(n)) <= dec_val(d.take(n + 1)));
        lemma_dec_val_prefix(d, n + 1);
    }
}

/// Decides whitespace as the tokenizer's `is_ws` does.
fn is_ws_byte(b: u8) -> (r: bool)
    ensures
        r == is_ws(b),
{
    b == 32 || (9 <= b && b <= 13)
}

/// Finds the first non-whitespace position at or after `from`.
fn skip_ws(buf: &Vec<u8>, from: usize) -> (r: usize)
    requires
        from <= buf.len(),
    ensures
        from <= r <= buf.len(),
        r < buf.len() ==> !is_ws(buf@[r as int]),
        tokens_of(buf@.skip(from as int)) == tokens_of(buf@.skip(r as int)),
{
    let mut i: usize = from;
    while i < buf.len() && is_ws_byte(buf[i])
        invariant
            from <= i <= buf.len(),
            tokens_of(buf@.skip(from as int)) == tokens_of(buf@.skip(i as int)),
        decreases buf.len() - i,
    {
        proof {
            lemma_tokens_skip_one_ws(buf@, i as int);
        }
        i += 1;
    }
    i
}

/// Finds the end of the token that starts at `from`.
fn token_end(buf: &Vec<u8>, from: usize) -> (r: usize)
    requires
        from < buf.len(),
        !is_ws(buf@[from as int]),
    ensures
        from < r <= buf.len(),
        forall|j: int| from <= j < r ==> !is_ws(buf@[j]),
        tokens_of(buf@.skip(from as int)) == seq![buf@.subrange(from as int, r as int)]
            + tokens_of(buf@.skip(r as int)),
{
    let mut i: usize = from;
    while i < buf.len() && !is_ws_byte(buf[i])
        invariant
            from <= i <= buf.len(),
            forall|j: int| from <= j < i ==> !is_ws(buf@[j]),
        decreases buf.len() - i,
    {
        i += 1;
    }
    proof {
        lemma_tokens_at_token(buf@, from as int, i as int);
    }
    i
}

/// Parses the token `buf[from..to]` as a non-negative integer.
fn parse_length_token(buf: &Vec<u8>, from: usize, to: usize) -> (r: Result<usize, CodecError>)
    requires
        from < to <= buf.len(),
    ensures
        ({
            let t = buf@.subrange(from as int, to as int);
            match r {
                Ok(v) => is_dec_uint(t) && dec_uint_val(t) <= usize::MAX && v == dec_uint_val(t),
                Err(e) => e == CodecError::ParseError && (!is_dec_uint(t) || dec_uint_val(t)
                    > usize::MAX),
            }
        }),
{
    let ghost t = buf@.subrange(from as int, to as int);
    let start: usize = if buf[from] == 43 {
        from + 1
    } else {
        from
    };
    let ghost d = dec_digits(t);
    proof {
        assert(d =~= buf@.subrange(start as int, to as int));
    }
    if start == to {
        // a bare sign carries no digits
        return Err(CodecError::ParseError);
    }
    let mut acc: usize = 0;
    let mut i: usize = start;
    while i < to
        invariant
            start <= i <= to <= buf.len(),
            t == buf@.subrange(from as int, to as int),
            d == dec_digits(t),
            d == buf@.subrange(start as int, to as int),
            forall|j: int| 0 <= j < i - start ==> is_digit(d[j]),
            acc == dec_val(d.take(i - start)),
        decreases to - i,
    {
        let b = buf[i];
        if !(48 <= b && b <= 57) {
            assert(!is_digit(d[i - start]));
            return Err(CodecError::ParseError);
        }
        proof {
            let n = i - start;
            assert(d.take(n + 1).drop_last() =~= d.take(n));
            assert(d.take(n + 1).last() == d[n]);
            assert(dec_val(d.take(n + 1)) == dec_val(d.take(n)) * 10 + digit_val(d[n]));
        }
        let shifted = match acc.checked_mul(10) {
            Some(x) => x,
            None => {
                proof {
                    let n = i - start;
                    assert(dec_val(d.take(n + 1)) >= acc * 10);
                    assert(dec_val(d.take(n + 1)) > usize::MAX);
                    lemma_dec_val_prefix(d, n + 1);
                }
                return Err(CodecError::ParseError);
            },
        };
        acc = match shifted.checked_add((b - 48) as usize) {
            Some(x) => x,
            None => {
                proof {
                    let n = i - start;
                    assert(dec_val(d.take(n + 1)) == shifted + digit_val(d[n]));
                    assert(dec_val(d.take(n + 1)) > usize::MAX);
                    lemma_dec_val_prefix(d, n + 1);
                }
                return Err(CodecError::ParseError);
            },
        };
        i += 1;
    }
    proof {
        assert(d.take(to - start) =~= d);
    }
    Ok(acc)
}

/// Decodes the fixed-width header that was read off a connection.
///
/// `buf` holds whatever the read returned; a short read is a framing
/// error. The header is tokenized by whitespace, the first token is the
/// command and the second must be a non-negative integer payload length.
pub fn decode_header(buf: &Vec<u8>) -> (r: Result<Header, CodecError>)
    ensures
        ({
            let sp = spec_decode_header(buf@);
            match r {
                Ok(h) => sp matches Ok(v) && h.command@ == v.0 && h.length == v.1,
                Err(e) => sp == Err::<(Seq<u8>, nat), CodecError>(e),
            }
        }),
{
    let n = buf.len();
    if n < HEADER_LEN {
        return Err(CodecError::FrameError);
    }
    proof {
        assert(buf@.skip(0) =~= buf@);
    }
    let s0 = skip_ws(buf, 0);
    if s0 == n {
        proof {
            assert(buf@.skip(n as int) =~= Seq::<u8>::empty());
        }
        return Err(CodecError::FrameError);
    }
    let e0 = token_end(buf, s0);
    let s1 = skip_ws(buf, e0);
    if s1 == n {
        proof {
            assert(buf@.skip(n as int) =~= Seq::<u8>::empty());
            assert(tokens_of(buf@).len() == 1);
        }
        return Err(CodecError::FrameError);
    }
    let e1 = token_end(buf, s1);
    proof {
        assert(tokens_of(buf@) == seq![buf@.subrange(s0 as int, e0 as int)] + (seq![
            buf@.subrange(s1 as int, e1 as int),
        ] + tokens_of(buf@.skip(e1 as int))));
        assert(tokens_of(buf@).len() >= 2);
        assert(tokens_of(buf@)[0] == buf@.subrange(s0 as int, e0 as int));
        assert(tokens_of(buf@)[1] == buf@.subrange(s1 as int, e1 as int));
    }
    let length = match parse_length_token(buf, s1, e1) {
        Ok(v) => v,
        Err(e) => {
            return Err(e);
        },
    };
    let command = slice_to_vec(slice_subrange(buf.as_slice(), s0, e0));
    Ok(Header { command, length })
}

#[verifier::external_type_specification]
#[verifier::external_body]
pub struct ExSerdeJsonError(serde_json::Error);

/// What `serde_json` reads a byte sequence as when the bytes form a JSON
/// object whose member values are all strings: the member map. `None`
/// when the bytes are anything else.
pub uninterp spec fn json_string_object(bytes: Seq<u8>) -> Option<Map<Seq<char>, Seq<char>>>;

/// Relies on `serde_json::from_slice` with a map of strings as target:
/// it succeeds exactly on a JSON object whose member values are all
/// strings, and the map it returns carries each member key once.
#[verifier::external_body]
fn json_decode_pairs(bytes: &[u8]) -> (r: Result<Vec<(String, String)>, serde_json::Error>)
    ensures
        match r {
            Ok(pairs) => {
                &&& json_string_object(bytes@) matches Some(m) && map_of_pairs(pairs@) == m
                &&& unique_keys(pairs@)
            },
            Err(_) => json_string_object(bytes@) is None,
        },
{
    match serde_json::from_slice::<std::collections::HashMap<String, String>>(bytes) {
        Ok(m) => Ok(m.into_iter().collect()),
        Err(e) => Err(e),
    }
}

/// What decoding a payload must yield once `length` bytes were asked of
/// the connection and `s` came back: the request's key and value, or the
/// error that classifies the failure.
pub open spec fn spec_decode_payload(s: Seq<u8>, length: nat) -> Result<
    (Seq<char>, Seq<char>),
    CodecError,
> {
    if s.len() < length {
        Err(CodecError::IoError)
    } else {
        match json_string_object(s.take(length as int)) {
            None => Err(CodecError::DecodeError),
            Some(m) => if m.contains_key("key"@) && m.contains_key("value"@) {
                Ok((m["key"@], m["value"@]))
            } else {
                Err(CodecError::DecodeError)
            },
        }
    }
}

/// Decodes the payload that was read off a connection after a header
/// announced `length` payload bytes.
///
/// `buf` holds whatever the read returned: fewer than `length` bytes
/// mean the peer closed early. The payload must be a JSON object with
/// the two string members `key` and `value`.
pub fn decode_payload(buf: &Vec<u8>, length: usize) -> (r: Result<Request, CodecError>)
    ensures
        ({
            let sp = spec_decode_payload(buf@, length as nat);
            match r {
                Ok(req) => sp matches Ok(kv) && req.key@ == kv.0 && req.value@ == kv.1,
                Err(e) => sp == Err::<(Seq<char>, Seq<char>), CodecError>(e),
            }
        }),
{
    if buf.len() < length {
        return Err(CodecError::IoError);
    }
    let payload = slice_subrange(buf.as_slice(), 0, length);
    assert(payload@ == buf@.take(length as int));
    match json_decode_pairs(payload) {
        Err(_) => Err(CodecError::DecodeError),
        Ok(pairs) => {
            let key_name: String = "key".to_owned();
            let value_name: String = "value".to_owned();
            let key_found = lookup(&pairs, &key_name);
            let value_found = lookup(&pairs, &value_name);
            match (key_found, value_found) {
                (Some(k), Some(v)) => Ok(Request { key: k.clone(), value: v.clone() }),
                _ => Err(CodecError::DecodeError),
            }
        },
    }
}

} // verus!
