//! Parsing of raw responses: the header/body split at the first CRLF-CRLF
//! separator, the status line, and the two pipeline steps that read a
//! `Content-Length` out of a response — once to learn the total resource
//! size, and once per chunk to validate and extract its payload.

use vstd::prelude::*;
use vstd::slice::slice_to_vec;
use vstd::string::StringSliceAdditionalSpecFns;
use vstd::utf8::valid_utf8;
use vstd::utf8::decode_utf8;

use crate::ascii::{
    dec_u16, dec_usize, find_ws, first_line, is_ws, is_ws_byte, lower_of, parse_dec_u16,
    parse_dec_usize, rest_lines, scan_to_ws, split_first_line,
};
use crate::errors::DownloadError;
use crate::headers::{header_lines_map, header_map_of};

verus! {

/// The bytes of the canonical `content-length` header key.
pub open spec fn content_length_key() -> Seq<u8> {
    seq![99u8, 111u8, 110u8, 116u8, 101u8, 110u8, 116u8, 45u8, 108u8, 101u8, 110u8, 103u8, 116u8, 104u8]
}

/// The `content-length` key as a byte vector.
fn content_length_key_vec() -> (r: Vec<u8>)
    ensures
        r@ == content_length_key(),
{
    let mut v: Vec<u8> = Vec::new();
    v.push(99);
    v.push(111);
    v.push(110);
    v.push(116);
    v.push(101);
    v.push(110);
    v.push(116);
    v.push(45);
    v.push(108);
    v.push(101);
    v.push(110);
    v.push(103);
    v.push(116);
    v.push(104);
    proof {
        assert(v@ =~= content_length_key());
    }
    v
}

/// The key is already lower case, so folding it changes nothing.
proof fn lemma_content_length_key_folded()
    ensures
        lower_of(content_length_key()) == content_length_key(),
{
    assert(lower_of(content_length_key()) =~= content_length_key()) by {
        assert forall|i: int| 0 <= i < content_length_key().len() implies lower_of(
            content_length_key(),
        )[i] == content_length_key()[i] by {
            assert(lower_of(content_length_key())[i] == crate::ascii::lower_byte(
                content_length_key()[i],
            ));
        }
    }
}

/// The whitespace-separated tokens of a byte sequence, in order.
pub open spec fn tokens_of(s: Seq<u8>) -> Seq<Seq<u8>>
    decreases s.len(),
{
    if s.len() == 0 {
        Seq::empty()
    } else if is_ws(s[0]) {
        tokens_of(s.drop_first())
    } else if scan_to_ws(s) >= s.len() {
        seq![s]
    } else {
        seq![s.take(scan_to_ws(s) as int)] + tokens_of(s.skip(scan_to_ws(s) as int))
    }
}

/// Split a byte sequence into its whitespace-separated tokens.
fn tokenize(s: &[u8]) -> (r: Vec<Vec<u8>>)
    ensures
        r@.len() == tokens_of(s@).len(),
        forall|i: int| 0 <= i < r@.len() ==> r@[i]@ == tokens_of(s@)[i],
    decreases s@.len(),
{
    if s.len() == 0 {
        return Vec::new();
    }
    if is_ws_byte(s[0]) {
        let r = tokenize(&s[1..s.len()]);
        proof {
            assert(s@.subrange(1, s@.len() as int) =~= s@.drop_first());
        }
        return r;
    }
    let j = find_ws(s);
    if j >= s.len() {
        let tok = slice_to_vec(s);
        let mut r: Vec<Vec<u8>> = Vec::new();
        r.push(tok);
        proof {
            assert(tokens_of(s@) == seq![s@]);
            assert(r@[0]@ == tokens_of(s@)[0]);
        }
        return r;
    }
    let tok = slice_to_vec(&s[0..j]);
    let mut rest = tokenize(&s[j..s.len()]);
    let ghost rest_view = rest@;
    let mut r: Vec<Vec<u8>> = Vec::new();
    r.push(tok);
    r.append(&mut rest);
    proof {
        let tail = s@.skip(j as int);
        assert(s@.subrange(j as int, s@.len() as int) =~= tail);
        assert(s@.subrange(0, j as int) =~= s@.take(j as int));
        assert(tokens_of(s@) == seq![s@.take(j as int)] + tokens_of(tail));
        assert(r@ =~= seq![tok] + rest_view);
        assert forall|i: int| 0 <= i < r@.len() implies r@[i]@ == tokens_of(s@)[i] by {
            if i == 0 {
                assert(r@[0] == tok);
            } else {
                assert(r@[i] == rest_view[i - 1]);
                assert(rest_view[i - 1]@ == tokens_of(tail)[i - 1]);
                assert(tokens_of(s@)[i] == tokens_of(tail)[i - 1]);
            }
        }
    }
    r
}

/// The status code a header block carries: its first line must consist of
/// exactly four whitespace-separated tokens, the second of which is a
/// decimal status code.
pub open spec fn status_code_of(h: Seq<u8>) -> Option<u16> {
    if h.len() == 0 {
        None
    } else if tokens_of(first_line(h)).len() == 4 {
        dec_u16(tokens_of(first_line(h))[1])
    } else {
        None
    }
}

/// Read the status code out of a header block: the second of exactly four
/// whitespace-separated tokens on its first line. Anything else is an
/// `InvalidStatusLine`.
pub fn parse_status_code(response: &str) -> (r: Result<u16, DownloadError>)
    ensures
        match r {
            Ok(c) => status_code_of(response.spec_bytes()) == Some(c),
            Err(e) => {
                &&& status_code_of(response.spec_bytes()) is None
                &&& e == DownloadError::InvalidStatusLine
            },
        },
{
    let b = response.as_bytes();
    if b.len() == 0 {
        return Err(DownloadError::InvalidStatusLine);
    }
    let (line, _rest) = split_first_line(b);
    let toks = tokenize(line);
    if toks.len() != 4 {
        return Err(DownloadError::InvalidStatusLine);
    }
    match parse_dec_u16(toks[1].as_slice()) {
        Some(c) => Ok(c),
        None => Err(DownloadError::InvalidStatusLine),
    }
}

/// Does the CRLF-CRLF separator stand at index `i` of `r`?
pub open spec fn sep_at(r: Seq<u8>, i: int) -> bool {
    &&& 0 <= i
    &&& i + 4 <= r.len()
    &&& r[i] == 13
    &&& r[i + 1] == 10
    &&& r[i + 2] == 13
    &&& r[i + 3] == 10
}

/// The first separator position at or after `i`, if any.
pub open spec fn find_sep_from(r: Seq<u8>, i: int) -> Option<int>
    decreases r.len() - i,
{
    if i < 0 || i + 4 > r.len() {
        None
    } else if sep_at(r, i) {
        Some(i)
    } else {
        find_sep_from(r, i + 1)
    }
}

/// The first separator position of `r`, if any.
pub open spec fn find_sep(r: Seq<u8>) -> Option<int> {
    find_sep_from(r, 0)
}

/// The header block of a response: everything up to and including the
/// first separator.
pub open spec fn header_block(r: Seq<u8>) -> Seq<u8> {
    r.take(find_sep(r).unwrap() + 4)
}

/// The body of a response: everything after the first separator.
pub open spec fn body_of(r: Seq<u8>) -> Seq<u8> {
    r.skip(find_sep(r).unwrap() + 4)
}

/// A found separator position is one, and the first one.
proof fn lemma_find_sep_some(r: Seq<u8>, from: int, i: int)
    requires
        find_sep_from(r, from) == Some(i),
    ensures
        sep_at(r, i),
        from <= i,
    decreases r.len() - from,
{
    if !(from < 0 || from + 4 > r.len()) && !sep_at(r, from) {
        lemma_find_sep_some(r, from + 1, i);
    }
}

/// Find the first CRLF-CRLF separator of `resp`.
fn find_separator(resp: &[u8]) -> (r: Option<usize>)
    ensures
        match r {
            Some(i) => find_sep(resp@) == Some(i as int),
            None => find_sep(resp@) is None,
        },
{
    let n = resp.len();
    if n < 4 {
        return None;
    }
    let mut i: usize = 0;
    while i <= n - 4
        invariant
            0 <= i <= n - 3,
            n == resp@.len(),
            n >= 4,
            find_sep(resp@) == find_sep_from(resp@, i as int),
        decreases n - i,
    {
        if resp[i] == 13 && resp[i + 1] == 10 && resp[i + 2] == 13 && resp[i + 3] == 10 {
            return Some(i);
        }
        i = i + 1;
    }
    None
}

/// Relies on std's `str::from_utf8`: it succeeds exactly on valid UTF-8,
/// and the text it yields views the same bytes.
#[verifier::external_body]
fn bytes_as_str(bytes: &[u8]) -> (r: Option<&str>)
    ensures
        r is Some <==> valid_utf8(bytes@),
        r matches Some(s) ==> s.spec_bytes() == bytes@,
{
    core::str::from_utf8(bytes).ok()
}

/// Split a raw response at its first separator into the decoded header
/// block (separator included) and the borrowed body bytes.
fn split_raw<'a>(response: &'a [u8]) -> (r: Result<(&'a str, &'a [u8]), DownloadError>)
    ensures
        match r {
            Ok(p) => {
                &&& find_sep(response@) is Some
                &&& valid_utf8(header_block(response@))
                &&& p.0.spec_bytes() == header_block(response@)
                &&& p.1@ == body_of(response@)
            },
            Err(e) => {
                &&& e == DownloadError::MalformedResponse
                &&& (find_sep(response@) is None || !valid_utf8(header_block(response@)))
            },
        },
{
    match find_separator(response) {
        None => Err(DownloadError::MalformedResponse),
        Some(i) => {
            let n = response.len();
            proof {
                lemma_find_sep_some(response@, 0, i as int);
                assert(i as int + 4 <= response@.len());
            }
            let hend = i + 4;
            let head = &response[0..hend];
            let body = &response[hend..n];
            proof {
                assert(head@ =~= header_block(response@));
                assert(body@ =~= body_of(response@));
            }
            match bytes_as_str(head) {
                None => Err(DownloadError::MalformedResponse),
                Some(s) => Ok((s, body)),
            }
        },
    }
}

/// Split a raw response into its decoded header text (the block up to and
/// including the first CRLF-CRLF separator) and its body bytes. A response
/// without the separator, or whose header block is not valid UTF-8, is a
/// `MalformedResponse`.
pub fn split_response(response: &[u8]) -> (r: Result<(String, Vec<u8>), DownloadError>)
    ensures
        match r {
            Ok(p) => {
                &&& find_sep(response@) is Some
                &&& valid_utf8(header_block(response@))
                &&& p.0@ == decode_utf8(header_block(response@))
                &&& p.1@ == body_of(response@)
            },
            Err(e) => {
                &&& e == DownloadError::MalformedResponse
                &&& (find_sep(response@) is None || !valid_utf8(header_block(response@)))
            },
        },
{
    match split_raw(response) {
        Err(e) => Err(e),
        Ok((head, body)) => {
            proof {
                vstd::utf8::encode_utf8_decode_utf8(head@);
            }
            Ok((head.to_owned(), slice_to_vec(body)))
        },
    }
}

/// What establishing the total length from a response yields: the
/// response's own `Content-Length`, read from its header lines (the status
/// line excluded), as a `usize`.
pub open spec fn length_model(resp: Seq<u8>) -> Result<usize, DownloadError> {
    if find_sep(resp) is None || !valid_utf8(header_block(resp)) {
        Err(DownloadError::MalformedResponse)
    } else if !header_map_of(rest_lines(header_block(resp))).contains_key(content_length_key()) {
        Err(DownloadError::MissingHeader)
    } else if dec_usize(
        header_map_of(rest_lines(header_block(resp)))[content_length_key()],
    ) is None {
        Err(DownloadError::ParseError)
    } else {
        Ok(dec_usize(header_map_of(rest_lines(header_block(resp)))[content_length_key()]).unwrap())
    }
}

/// Establish the total resource length from the response to the un-ranged
/// request: parse the response and read its `Content-Length`. Fails with
/// `MalformedResponse` on an unparsable response, `MissingHeader` when no
/// `Content-Length` is present, and `ParseError` when its value is not a
/// decimal length that fits the machine.
pub fn get_total_length(response: &[u8]) -> (r: Result<usize, DownloadError>)
    ensures
        r == length_model(response@),
{
    let (head, _body) = match split_raw(response) {
        Ok(p) => p,
        Err(e) => {
            return Err(e);
        },
    };
    let hb = head.as_bytes();
    let (_status_line, hdr_lines) = split_first_line(hb);
    let hdrs = header_lines_map(hdr_lines);
    let key = content_length_key_vec();
    proof {
        lemma_content_length_key_folded();
    }
    match hdrs.get(key.as_slice()) {
        None => Err(DownloadError::MissingHeader),
        Some(v) => {
            match parse_dec_usize(v.as_slice()) {
                None => Err(DownloadError::ParseError),
                Some(n) => Ok(n),
            }
        },
    }
}

/// What validating a chunk response yields: after the parse, the status
/// code must be 200 or 206 and a `Content-Length` must be declared; the
/// accepted payload is then the body, cut down to the declared length when
/// the body is longer (never bytes beyond what was declared, and a shorter
/// body is accepted as it stands).
pub open spec fn chunk_model(resp: Seq<u8>) -> Result<Seq<u8>, DownloadError> {
    if find_sep(resp) is None || !valid_utf8(header_block(resp)) {
        Err(DownloadError::MalformedResponse)
    } else if status_code_of(header_block(resp)) is None {
        Err(DownloadError::InvalidStatusLine)
    } else if status_code_of(header_block(resp)).unwrap() != 200 && status_code_of(
        header_block(resp),
    ).unwrap() != 206 {
        Err(DownloadError::UnexpectedStatus)
    } else if !header_map_of(rest_lines(header_block(resp))).contains_key(content_length_key()) {
        Err(DownloadError::MissingHeader)
    } else if dec_usize(
        header_map_of(rest_lines(header_block(resp)))[content_length_key()],
    ) is None {
        Err(DownloadError::ParseError)
    } else {
        let declared = dec_usize(
            header_map_of(rest_lines(header_block(resp)))[content_length_key()],
        ).unwrap();
        let body = body_of(resp);
        if declared <= body.len() {
            Ok(body.take(declared as int))
        } else {
            Ok(body)
        }
    }
}

/// Validate the response to a ranged request and extract the accepted
/// chunk payload: the parse must succeed, the status code must be 200 or
/// 206 (`UnexpectedStatus` otherwise, and none of its bytes are accepted),
/// a `Content-Length` must be declared, and at most the declared number of
/// body bytes is accepted.
pub fn download_chunk(response: &[u8]) -> (r: Result<Vec<u8>, DownloadError>)
    ensures
        match r {
            Ok(c) => chunk_model(response@) == Ok::<Seq<u8>, DownloadError>(c@),
            Err(e) => chunk_model(response@) == Err::<Seq<u8>, DownloadError>(e),
        },
{
    let (head, body) = match split_raw(response) {
        Ok(p) => p,
        Err(e) => {
            return Err(e);
        },
    };
    let status = match parse_status_code(head) {
        Ok(c) => c,
        Err(e) => {
            return Err(e);
        },
    };
    if status != 200 && status != 206 {
        return Err(DownloadError::UnexpectedStatus);
    }
    let hb = head.as_bytes();
    let (_status_line, hdr_lines) = split_first_line(hb);
    let hdrs = header_lines_map(hdr_lines);
    let key = content_length_key_vec();
    proof {
        lemma_content_length_key_folded();
    }
    let declared = match hdrs.get(key.as_slice()) {
        None => {
            return Err(DownloadError::MissingHeader);
        },
        Some(v) => {
            match parse_dec_usize(v.as_slice()) {
                None => {
                    return Err(DownloadError::ParseError);
                },
                Some(n) => n,
            }
        },
    };
    let accepted = if declared <= body.len() {
        declared
    } else {
        body.len()
    };
    let chunk = slice_to_vec(&body[0..accepted]);
    proof {
        if declared <= body@.len() {
            assert(chunk@ =~= body_of(response@).take(declared as int));
        } else {
            assert(chunk@ =~= body_of(response@));
        }
    }
    Ok(chunk)
}

} // verus!
