//! The request-line parser, the parsing state machine for one session, and
//! the driver loop that feeds it from a byte source.

use crate::errors::RequestError;
use crate::headers::header_step;
use crate::headers::insert_header;
use crate::headers::Headers;
use crate::text::chars_of_ascii;
use crate::text::find_crlf;
use crate::text::find_crlf_exec;
use crate::text::find_last_byte;
use crate::text::is_alpha_byte;
use crate::text::tokens;
use crate::text::CR;
use crate::text::LF;
use vstd::prelude::*;
use vstd::utf8::decode_utf8;
use vstd::utf8::valid_utf8;

verus! {

/// The bytes of the only accepted version token segment: `1.1`.
pub open spec fn version_bytes() -> Seq<u8> {
    seq![49u8, 46u8, 49u8]
}

/// The final `/`-separated segment of a token: everything after the last
/// `/`, or the whole token when it has none. `HTTP/1.1` yields `1.1`; a
/// bare `1.1` yields itself.
pub open spec fn last_segment(t: Seq<u8>) -> Seq<u8> {
    match find_last_byte(t, 47) {
        Some(i) => t.subrange(i + 1, t.len() as int),
        None => t,
    }
}

/// The method, target and version spelled by a request line (the bytes
/// before its CRLF), or the error it is rejected with: text that is not
/// valid UTF-8 or fewer than three whitespace-separated tokens are a
/// malformed request line; a method with a character that is not an ASCII
/// letter, a target that does not start with `/`, and a version whose
/// final `/`-segment is not `1.1` each have their own error. Tokens beyond
/// the first three are accepted and ignored.
pub open spec fn request_line_fields(line: Seq<u8>) -> Result<
    (Seq<char>, Seq<char>, Seq<char>),
    RequestError,
> {
    if !valid_utf8(line) {
        Err(RequestError::InvalidRequestLine)
    } else {
        let toks = tokens(line);
        if toks.len() < 3 {
            Err(RequestError::InvalidRequestLine)
        } else if !(forall|i: int|
            0 <= i < toks[0].len() ==> is_alpha_byte(#[trigger] toks[0][i])) {
            Err(RequestError::InvalidRequestMethod)
        } else if !(toks[1].len() > 0 && toks[1][0] == 47) {
            Err(RequestError::InvalidRequestTarget)
        } else if last_segment(toks[2]) != version_bytes() {
            Err(RequestError::InvalidRequestHttpVersion)
        } else {
            Ok((chars_of_ascii(toks[0]), decode_utf8(toks[1]), chars_of_ascii(version_bytes())))
        }
    }
}

/// One attempt to take the request line off the front of the buffer:
/// `Ok((None, 0))` when no full line is buffered yet (nothing consumed, no
/// error), `Ok((Some((method, target, version)), n))` for a valid request
/// line of `n` bytes (its CRLF included), and the line's error otherwise.
pub open spec fn rl_step(s: Seq<u8>) -> Result<
    (Option<(Seq<char>, Seq<char>, Seq<char>)>, int),
    RequestError,
> {
    match find_crlf(s) {
        None => Ok((None, 0)),
        Some(pos) => match request_line_fields(s.subrange(0, pos)) {
            Err(e) => Err(e),
            Ok(rl) => Ok((Some(rl), pos + 2)),
        },
    }
}

/// A validated request line: `method` is nonempty ASCII letters, `target`
/// starts with `/`, and `version` is the literal `1.1`.
#[derive(Debug)]
pub struct RequestLine {
    /// The method token, as it appeared.
    pub method: String,
    /// The target token, as it appeared.
    pub request_target: String,
    /// The version, always `1.1` once validated.
    pub http_version: String,
}

impl View for RequestLine {
    type V = (Seq<char>, Seq<char>, Seq<char>);

    open spec fn view(&self) -> (Seq<char>, Seq<char>, Seq<char>) {
        (self.method@, self.request_target@, self.http_version@)
    }
}

/// Scan the front of `data` for a request line. Mirrors `rl_step`: no full
/// line gives `Ok((None, 0))`; a full line is validated and either
/// returned with its byte count (CRLF included) or rejected with the
/// error `rl_step` names.
pub fn parse_request_line(request_string: &[u8]) -> (r: Result<
    (Option<RequestLine>, usize),
    RequestError,
>)
    ensures
        ({
            let step = rl_step(request_string@);
            match r {
                Ok((opt, n)) => {
                    &&& step is Ok
                    &&& n as int == step->Ok_0.1
                    &&& (match opt {
                        Some(rl) => step->Ok_0.0 == Some(rl@),
                        None => step->Ok_0.0 is None,
                    })
                },
                Err(e) => step == Err::<(Option<(Seq<char>, Seq<char>, Seq<char>)>, int),
                    RequestError,
                >(e),
            }
        }),
{
    let data = request_string;
    let pos = match find_crlf_exec(data) {
        None => {
            return Ok((None, 0));
        },
        Some(pos) => pos,
    };
    let dlen = data.len();
    proof {
        crate::text::lemma_find_crlf_props(data@);
        assert(crate::text::crlf_at(data@, pos as int));
        assert(pos + 2 <= dlen);
    }
    let line = vstd::slice::slice_subrange(data, 0, pos);
    let ghost ls = data@.subrange(0, pos as int);
    // The whole line must be text: reject bytes that are not valid UTF-8.
    if crate::text::vec_to_string(crate::text::subvec(line, 0, line.len())).is_none() {
        proof {
            assert(line@.subrange(0, line@.len() as int) =~= ls);
        }
        return Err(RequestError::InvalidRequestLine);
    }
    proof {
        assert(line@.subrange(0, line@.len() as int) =~= ls);
        assert(valid_utf8(ls));
    }
    // Split into whitespace-separated tokens; at least three are required.
    let toks = crate::text::tokenize(line);
    if toks.len() < 3 {
        return Err(RequestError::InvalidRequestLine);
    }
    let (m0, m1) = (toks[0].0, toks[0].1);
    let (t0, t1) = (toks[1].0, toks[1].1);
    let (v0, v1) = (toks[2].0, toks[2].1);
    proof {
        assert(tokens(ls)[0] == ls.subrange(m0 as int, m1 as int));
        assert(tokens(ls)[1] == ls.subrange(t0 as int, t1 as int));
        assert(tokens(ls)[2] == ls.subrange(v0 as int, v1 as int));
    }
    // The method: every character an ASCII letter.
    if !crate::text::all_alpha_bytes(line, m0, m1) {
        proof {
            let tok = tokens(ls)[0];
            if forall|i: int| 0 <= i < tok.len() ==> is_alpha_byte(#[trigger] tok[i]) {
                assert forall|j: int| m0 <= j < m1 implies is_alpha_byte(#[trigger] ls[j]) by {
                    assert(tok[j - m0] == ls[j]);
                    assert(is_alpha_byte(tok[j - m0]));
                }
                assert(false);
            }
        }
        return Err(RequestError::InvalidRequestMethod);
    }
    // The target: must start with `/`.
    if line[t0] != 47 {
        proof {
            assert(tokens(ls)[1][0] == ls[t0 as int]);
        }
        return Err(RequestError::InvalidRequestTarget);
    }
    // The version: its final `/`-segment must be exactly `1.1`.
    let seg_start = match crate::text::find_last_byte_in(line, v0, v1, 47) {
        Some(i) => i + 1,
        None => v0,
    };
    proof {
        let tok = tokens(ls)[2];
        match find_last_byte(tok, 47) {
            Some(i) => {
                assert(last_segment(tok) =~= ls.subrange(seg_start as int, v1 as int));
            },
            None => {
                assert(last_segment(tok) =~= ls.subrange(seg_start as int, v1 as int));
            },
        }
    }
    let version_ok = v1 - seg_start == 3 && line[seg_start] == 49 && line[seg_start + 1] == 46
        && line[seg_start + 2] == 49;
    proof {
        let seg = ls.subrange(seg_start as int, v1 as int);
        if version_ok {
            assert(seg =~= version_bytes());
        } else {
            if seg =~= version_bytes() {
                assert(seg.len() == 3);
                assert(seg[0] == 49 && seg[1] == 46 && seg[2] == 49);
                assert(ls[seg_start as int] == 49);
                assert(ls[seg_start as int + 1] == 46);
                assert(ls[seg_start as int + 2] == 49);
            }
            assert(!(seg == version_bytes()));
        }
    }
    if !version_ok {
        return Err(RequestError::InvalidRequestHttpVersion);
    }
    // Build the validated pieces.
    proof {
        // The method bytes are ASCII letters, so the token is valid UTF-8
        // and decodes to itself.
        assert(crate::text::ascii_seq(ls.subrange(m0 as int, m1 as int))) by {
            assert forall|j: int| 0 <= j < m1 - m0 implies ls.subrange(m0 as int, m1 as int)[j]
                < 128 by {
                assert(is_alpha_byte(ls[m0 + j]));
            }
        }
        crate::text::lemma_ascii_decode(ls.subrange(m0 as int, m1 as int));
    }
    let method = match crate::text::vec_to_string(crate::text::subvec(line, m0, m1)) {
        Some(s) => s,
        None => {
            proof {
                assert(false);
            }
            return Err(RequestError::InvalidRequestLine);
        },
    };
    proof {
        // The target token sits between whitespace (or the line's ends),
        // which is ASCII, so its bytes are cut at character boundaries and
        // form valid UTF-8 of their own.
        if t0 > 0 {
            assert(crate::text::is_ws_byte(ls[t0 as int - 1]));
            assert(ls[t0 as int - 1] < 128);
        }
        if t0 < ls.len() {
            crate::text::lemma_byte_after_ascii_not_continuation(ls, t0 as int);
        }
        if t1 < ls.len() {
            assert(crate::text::is_ws_byte(ls[t1 as int]));
            assert(!vstd::utf8::is_continuation_byte(ls[t1 as int]));
        }
        crate::text::lemma_subrange_valid_utf8(ls, t0 as int, t1 as int);
    }
    let target = match crate::text::vec_to_string(crate::text::subvec(line, t0, t1)) {
        Some(s) => s,
        None => {
            proof {
                assert(false);
            }
            return Err(RequestError::InvalidRequestLine);
        },
    };
    let version = String::from_str("1.1");
    proof {
        reveal_strlit("1.1");
        assert(chars_of_ascii(version_bytes()) =~= version@);
        assert(request_line_fields(ls) == Ok::<_, RequestError>((method@, target@, version@)));
    }
    Ok((Some(RequestLine { method, request_target: target, http_version: version }), pos + 2))
}

/// The phase one parsing session is in. Transitions run strictly forward:
/// the request line first, then header lines until the terminating blank
/// line, then done.
#[derive(Debug)]
pub enum ParseState {
    /// No complete request line has been consumed yet.
    AwaitingRequestLine,
    /// The request line is stored; header lines are being consumed.
    AwaitingHeaders,
    /// The terminating blank line was consumed; the session is terminal.
    Done,
}

/// Runs header parsing over `s` until the terminating blank line:
/// `Err` when some line is rejected, `Ok(None)` when the input ends before
/// the blank line, and `Ok(Some((entries, consumed)))` on completion,
/// where `consumed` counts every header line's bytes and the blank line's
/// two.
pub open spec fn run_headers(s: Seq<u8>, acc: Seq<(Seq<char>, Seq<char>)>) -> Result<
    Option<(Seq<(Seq<char>, Seq<char>)>, int)>,
    RequestError,
>
    decreases s.len(),
    via run_headers_dec
{
    match header_step(s) {
        Err(e) => Err(e),
        Ok((opt, n)) => match opt {
            None => if n == 2 {
                Ok(Some((acc, 2)))
            } else {
                Ok(None)
            },
            Some(kv) => match run_headers(s.skip(n), insert_header(acc, kv.0, kv.1)) {
                Err(e) => Err(e),
                Ok(None) => Ok(None),
                Ok(Some((hs, m))) => Ok(Some((hs, n + m))),
            },
        },
    }
}

#[via_fn]
proof fn run_headers_dec(s: Seq<u8>, acc: Seq<(Seq<char>, Seq<char>)>) {
    crate::text::lemma_find_crlf_props(s);
}

/// The parse of one whole message from the byte stream `s`: the request
/// line, then headers to the terminating blank line. Bytes past the blank
/// line are ignored. A stream that ends before the blank line is an
/// incomplete request.
pub open spec fn parse_message(s: Seq<u8>) -> Result<
    ((Seq<char>, Seq<char>, Seq<char>), Seq<(Seq<char>, Seq<char>)>, int),
    RequestError,
> {
    match rl_step(s) {
        Err(e) => Err(e),
        Ok((opt, n)) => match opt {
            None => Err(RequestError::InvalidRequest),
            Some(rl) => match run_headers(s.skip(n), Seq::empty()) {
                Err(e) => Err(e),
                Ok(None) => Err(RequestError::InvalidRequest),
                Ok(Some((hs, m))) => Ok((rl, hs, n + m)),
            },
        },
    }
}

/// A decided request-line step (one that found a full line) does not
/// change when more bytes arrive after the buffered ones.
pub proof fn lemma_rl_step_stable(s: Seq<u8>, t: Seq<u8>)
    requires
        find_crlf(s) is Some,
    ensures
        rl_step(s + t) == rl_step(s),
{
    crate::text::lemma_find_crlf_prefix_stable(s, t);
    let pos = find_crlf(s)->Some_0;
    crate::text::lemma_find_crlf_props(s);
    assert((s + t).subrange(0, pos) =~= s.subrange(0, pos));
}

/// A decided header step does not change when more bytes arrive after the
/// buffered ones.
pub proof fn lemma_header_step_stable(s: Seq<u8>, t: Seq<u8>)
    requires
        find_crlf(s) is Some,
    ensures
        header_step(s + t) == header_step(s),
{
    crate::text::lemma_find_crlf_prefix_stable(s, t);
    let pos = find_crlf(s)->Some_0;
    crate::text::lemma_find_crlf_props(s);
    assert((s + t).subrange(0, pos) =~= s.subrange(0, pos));
}

/// Consuming a request line from the front of the buffer advances the
/// whole message parse: over any extension of the buffer, the message is
/// the headers run on what follows the line.
pub proof fn lemma_message_consume_rl(
    s: Seq<u8>,
    t: Seq<u8>,
    rl: (Seq<char>, Seq<char>, Seq<char>),
    n: int,
)
    requires
        rl_step(s) == Ok::<(Option<(Seq<char>, Seq<char>, Seq<char>)>, int), RequestError>(
            (Some(rl), n),
        ),
    ensures
        parse_message(s + t) == (match run_headers((s + t).skip(n), Seq::empty()) {
            Err(e) => Err(e),
            Ok(None) => Err(RequestError::InvalidRequest),
            Ok(Some((hs, m))) => Ok((rl, hs, n + m)),
        }),
{
    assert(find_crlf(s) is Some);
    lemma_rl_step_stable(s, t);
}

/// A rejected request line rejects the whole message, over any extension
/// of the buffer.
pub proof fn lemma_message_err(s: Seq<u8>, t: Seq<u8>, e: RequestError)
    requires
        rl_step(s) == Err::<(Option<(Seq<char>, Seq<char>, Seq<char>)>, int), RequestError>(e),
    ensures
        parse_message(s + t) == Err::<
            ((Seq<char>, Seq<char>, Seq<char>), Seq<(Seq<char>, Seq<char>)>, int),
            RequestError,
        >(e),
{
    assert(find_crlf(s) is Some);
    lemma_rl_step_stable(s, t);
}

/// Consuming a header line from the front of the buffer advances the
/// headers run: over any extension of the buffer, the run continues on
/// what follows the line, with the entry merged in and the count raised.
pub proof fn lemma_run_consume(
    s: Seq<u8>,
    t: Seq<u8>,
    acc: Seq<(Seq<char>, Seq<char>)>,
    kv: (Seq<char>, Seq<char>),
    n: int,
)
    requires
        header_step(s) == Ok::<(Option<(Seq<char>, Seq<char>)>, int), RequestError>(
            (Some(kv), n),
        ),
    ensures
        run_headers(s + t, acc) == (match run_headers(
            (s + t).skip(n),
            insert_header(acc, kv.0, kv.1),
        ) {
            Err(e) => Err(e),
            Ok(None) => Ok(None),
            Ok(Some((hs, m))) => Ok(Some((hs, n + m))),
        }),
{
    assert(find_crlf(s) is Some);
    lemma_header_step_stable(s, t);
}

/// The terminating blank line at the front of the buffer finishes the
/// headers run, over any extension of the buffer.
pub proof fn lemma_run_blank(s: Seq<u8>, t: Seq<u8>, acc: Seq<(Seq<char>, Seq<char>)>)
    requires
        header_step(s) == Ok::<(Option<(Seq<char>, Seq<char>)>, int), RequestError>((None, 2)),
    ensures
        run_headers(s + t, acc) == Ok::<Option<(Seq<(Seq<char>, Seq<char>)>, int)>, RequestError>(
            Some((acc, 2)),
        ),
{
    assert(find_crlf(s) is Some);
    lemma_header_step_stable(s, t);
}

/// A rejected header line rejects the headers run, over any extension of
/// the buffer.
pub proof fn lemma_run_err(s: Seq<u8>, t: Seq<u8>, acc: Seq<(Seq<char>, Seq<char>)>, e: RequestError)
    requires
        header_step(s) == Err::<(Option<(Seq<char>, Seq<char>)>, int), RequestError>(e),
    ensures
        run_headers(s + t, acc) == Err::<Option<(Seq<(Seq<char>, Seq<char>)>, int)>, RequestError>(
            e,
        ),
{
    assert(find_crlf(s) is Some);
    lemma_header_step_stable(s, t);
}

/// A successful headers run consumes at least the blank line, never more
/// than the input, and ends exactly on the terminating blank line's CRLF.
proof fn lemma_run_bounds(s: Seq<u8>, acc: Seq<(Seq<char>, Seq<char>)>)
    requires
        run_headers(s, acc) matches Ok(Some(x)),
    ensures
        ({
            let m = run_headers(s, acc)->Ok_0->Some_0.1;
            &&& 2 <= m <= s.len()
            &&& s.subrange(m - 2, m) =~= seq![CR, LF]
        }),
    decreases s.len(),
{
    crate::text::lemma_find_crlf_props(s);
    let m = run_headers(s, acc)->Ok_0->Some_0.1;
    match header_step(s) {
        Err(_) => {},
        Ok((opt, n)) => match opt {
            None => {
                assert(find_crlf(s) == Some(0int));
                assert(s.subrange(0, 2) =~= seq![CR, LF]);
            },
            Some(kv) => {
                let rest = s.skip(n);
                lemma_run_bounds(rest, insert_header(acc, kv.0, kv.1));
                let m2 = run_headers(rest, insert_header(acc, kv.0, kv.1))->Ok_0->Some_0.1;
                assert(m == n + m2);
                assert(rest.subrange(m2 - 2, m2) =~= s.subrange(m - 2, m));
            },
        },
    }
}

/// A decided header step is already determined by any prefix of the
/// buffer that covers the line: the bytes past position `nn` can be cut
/// off, and anything appended instead, without changing the step.
proof fn lemma_header_step_trunc(s: Seq<u8>, nn: int, t: Seq<u8>)
    requires
        find_crlf(s) is Some,
        find_crlf(s)->Some_0 + 2 <= nn <= s.len(),
    ensures
        header_step(s.subrange(0, nn) + t) == header_step(s),
{
    crate::text::lemma_find_crlf_trunc(s, nn, t);
    let pos = find_crlf(s)->Some_0;
    crate::text::lemma_find_crlf_props(s);
    assert((s.subrange(0, nn) + t).subrange(0, pos) =~= s.subrange(0, pos));
}

/// A decided request-line step is already determined by any prefix of the
/// buffer that covers the line.
proof fn lemma_rl_step_trunc(s: Seq<u8>, nn: int, t: Seq<u8>)
    requires
        find_crlf(s) is Some,
        find_crlf(s)->Some_0 + 2 <= nn <= s.len(),
    ensures
        rl_step(s.subrange(0, nn) + t) == rl_step(s),
{
    crate::text::lemma_find_crlf_trunc(s, nn, t);
    let pos = find_crlf(s)->Some_0;
    crate::text::lemma_find_crlf_props(s);
    assert((s.subrange(0, nn) + t).subrange(0, pos) =~= s.subrange(0, pos));
}

/// A successful headers run is determined by exactly the bytes it
/// consumed: its `m`-byte prefix, followed by anything at all, runs to
/// the same entries and the same count.
proof fn lemma_run_prefix(s: Seq<u8>, acc: Seq<(Seq<char>, Seq<char>)>, t: Seq<u8>)
    requires
        run_headers(s, acc) matches Ok(Some(x)),
    ensures
        ({
            let m = run_headers(s, acc)->Ok_0->Some_0.1;
            run_headers(s.subrange(0, m) + t, acc) == run_headers(s, acc)
        }),
    decreases s.len(),
{
    crate::text::lemma_find_crlf_props(s);
    lemma_run_bounds(s, acc);
    let m = run_headers(s, acc)->Ok_0->Some_0.1;
    match header_step(s) {
        Err(_) => {},
        Ok((opt, n)) => match opt {
            None => {
                lemma_header_step_trunc(s, m, t);
            },
            Some(kv) => {
                let acc2 = insert_header(acc, kv.0, kv.1);
                let rest = s.skip(n);
                lemma_run_bounds(rest, acc2);
                let m2 = run_headers(rest, acc2)->Ok_0->Some_0.1;
                assert(m == n + m2);
                lemma_header_step_trunc(s, m, t);
                let p = s.subrange(0, m) + t;
                assert(p.skip(n) =~= rest.subrange(0, m2) + t);
                lemma_run_prefix(rest, acc2, t);
            },
        },
    }
}

/// Law: a parsed message is determined by exactly the bytes it consumed.
/// The reported count points one past the terminating blank line — the
/// last two consumed bytes are that blank line's CRLF — and the consumed
/// prefix, followed by any bytes whatsoever, parses to the same request
/// line, the same headers and the same count. Draining exactly the
/// reported count is therefore sound: nothing past it contributed.
pub proof fn lemma_message_prefix(s: Seq<u8>, t: Seq<u8>)
    requires
        parse_message(s) is Ok,
    ensures
        ({
            let m = parse_message(s)->Ok_0;
            &&& 4 <= m.2 <= s.len()
            &&& s.subrange(m.2 - 2, m.2) =~= seq![CR, LF]
            &&& parse_message(s.subrange(0, m.2) + t) == parse_message(s)
        }),
{
    crate::text::lemma_find_crlf_props(s);
    let n = rl_step(s)->Ok_0.1;
    let rl = rl_step(s)->Ok_0.0->Some_0;
    let rest = s.skip(n);
    lemma_run_bounds(rest, Seq::empty());
    let m2 = run_headers(rest, Seq::empty())->Ok_0->Some_0.1;
    let total = n + m2;
    assert(rest.subrange(m2 - 2, m2) =~= s.subrange(total - 2, total));
    lemma_rl_step_trunc(s, total, t);
    let p = s.subrange(0, total) + t;
    assert(p.skip(n) =~= rest.subrange(0, m2) + t);
    lemma_run_prefix(rest, Seq::empty(), t);
}

/// One parsing session: its phase, the request line once consumed, and
/// the headers gathered so far.
#[derive(Debug)]
pub struct Request {
    /// The session's phase.
    pub state: ParseState,
    /// The validated request line, present from `AwaitingHeaders` on.
    pub request_line: Option<RequestLine>,
    /// The headers consumed so far.
    pub headers: Headers,
}

impl Request {
    /// The session invariant: the header map is well formed, and the
    /// request line is present exactly from the header phase on.
    pub open spec fn wf(&self) -> bool {
        &&& self.headers.wf()
        &&& match self.state {
            ParseState::AwaitingRequestLine => self.request_line is None && self.headers@.len()
                == 0,
            ParseState::AwaitingHeaders => self.request_line is Some,
            ParseState::Done => self.request_line is Some,
        }
    }

    /// What the whole session delivers, given the progress already
    /// recorded in this value: `input` is everything not yet consumed (the
    /// buffered tail plus whatever the source still holds), and `drained`
    /// counts the bytes consumed so far.
    pub open spec fn resume(self, input: Seq<u8>, drained: int) -> Result<
        ((Seq<char>, Seq<char>, Seq<char>), Seq<(Seq<char>, Seq<char>)>, int),
        RequestError,
    > {
        match self.state {
            ParseState::AwaitingRequestLine => parse_message(input),
            ParseState::AwaitingHeaders => match run_headers(input, self.headers@) {
                Err(e) => Err(e),
                Ok(None) => Err(RequestError::InvalidRequest),
                Ok(Some((hs, m))) => Ok((self.request_line->Some_0@, hs, drained + m)),
            },
            ParseState::Done => Ok((self.request_line->Some_0@, self.headers@, drained)),
        }
    }

    /// A fresh session, awaiting the request line.
    pub fn new() -> (r: Self)
        ensures
            r.wf(),
            r.state is AwaitingRequestLine,
            r.request_line is None,
            r.headers@ =~= Seq::<(Seq<char>, Seq<char>)>::empty(),
    {
        Request {
            state: ParseState::AwaitingRequestLine,
            request_line: None,
            headers: Headers::new(),
        }
    }

    /// One parse attempt against the buffered bytes: consumes at most one
    /// logical unit (the request line, one header line, or the blank
    /// line), returns how many bytes it interpreted (0 means insufficient
    /// data: not an error, nothing consumed, nothing changed), and moves
    /// the phase forward. An attempt on a finished session fails with
    /// `DoneState`.
    pub fn parse(&mut self, data: &[u8]) -> (r: Result<usize, RequestError>)
        requires
            old(self).wf(),
        ensures
            final(self).wf(),
            ({
                match old(self).state {
                    ParseState::AwaitingRequestLine => ({
                        match rl_step(data@) {
                            Err(e) => r == Err::<usize, RequestError>(e) && *final(self) == *old(
                                self,
                            ),
                            Ok((opt, n)) => match opt {
                                None => r == Ok::<usize, RequestError>(0) && *final(self) == *old(
                                    self,
                                ),
                                Some(rl) => {
                                    &&& r == Ok::<usize, RequestError>(n as usize)
                                    &&& final(self).state is AwaitingHeaders
                                    &&& (final(self).request_line matches Some(l) && l@ == rl)
                                    &&& final(self).headers@ == old(self).headers@
                                },
                            },
                        }
                    }),
                    ParseState::AwaitingHeaders => ({
                        match header_step(data@) {
                            Err(e) => r == Err::<usize, RequestError>(e) && *final(self) == *old(
                                self,
                            ),
                            Ok((opt, n)) => match opt {
                                Some(kv) => {
                                    &&& r == Ok::<usize, RequestError>(n as usize)
                                    &&& final(self).state is AwaitingHeaders
                                    &&& final(self).request_line == old(self).request_line
                                    &&& final(self).headers@ =~= insert_header(
                                        old(self).headers@,
                                        kv.0,
                                        kv.1,
                                    )
                                },
                                None => {
                                    &&& r == Ok::<usize, RequestError>(n as usize)
                                    &&& (n == 2 ==> final(self).state is Done)
                                    &&& (n == 0 ==> *final(self) == *old(self))
                                    &&& final(self).request_line == old(self).request_line
                                    &&& final(self).headers == old(self).headers
                                },
                            },
                        }
                    }),
                    ParseState::Done => r == Err::<usize, RequestError>(RequestError::DoneState)
                        && *final(self) == *old(self),
                }
            }),
    {
        match self.state {
            ParseState::AwaitingRequestLine => {
                match parse_request_line(data) {
                    Err(e) => Err(e),
                    Ok((opt, n)) => match opt {
                        Some(rl) => {
                            self.state = ParseState::AwaitingHeaders;
                            self.request_line = Some(rl);
                            Ok(n)
                        },
                        None => Ok(n),
                    },
                }
            },
            ParseState::AwaitingHeaders => {
                match self.headers.parse(data) {
                    Err(e) => Err(e),
                    Ok((n, done)) => {
                        if done {
                            self.state = ParseState::Done;
                        }
                        Ok(n)
                    },
                }
            },
            ParseState::Done => Err(RequestError::DoneState),
        }
    }
}

/// The fault a byte source reports when a read fails: a terminal
/// transport error for the session.
#[derive(Debug)]
pub struct ReadFault;

/// A source of bytes for one parsing session: one operation, "read the
/// next chunk", where an empty chunk means end of stream. `stream` is the
/// bytes the source has not yet handed over; every successful read hands
/// over a prefix of it, nonempty exactly when the stream still has bytes.
/// A read may fail instead; a `reliable` source never does. The driver
/// `request_from_reader` is verified against this contract alone.
pub trait ByteSource {
    /// The bytes this source has not yet handed over.
    spec fn stream(&self) -> Seq<u8>;

    /// Whether reads from this source never fail.
    spec fn reliable(&self) -> bool;

    /// Whether the source is fit to read from.
    spec fn wf(&self) -> bool;

    /// Hand over the next chunk of the stream, empty exactly at its end.
    fn read(&mut self) -> (r: Result<Vec<u8>, ReadFault>)
        requires
            old(self).wf(),
        ensures
            final(self).wf(),
            match r {
                Ok(chunk) => {
                    &&& chunk@.len() <= old(self).stream().len()
                    &&& chunk@ == old(self).stream().take(chunk@.len() as int)
                    &&& final(self).stream() == old(self).stream().skip(chunk@.len() as int)
                    &&& (chunk@.len() == 0 <==> old(self).stream().len() == 0)
                },
                Err(_) => final(self).stream() == old(self).stream(),
            },
            old(self).reliable() ==> r is Ok && final(self).reliable(),
    ;
}

/// A byte source over an in-memory buffer that hands out at most
/// `num_bytes_per_read` bytes per read: the test double for sources that
/// deliver data in small, misaligned chunks.
#[derive(Debug)]
pub struct ChunkReader {
    /// The whole stream.
    pub data: Vec<u8>,
    /// How many bytes each read hands over at most; at least 1.
    pub num_bytes_per_read: usize,
    /// How many bytes have been handed over already.
    pub pos: usize,
}

impl ByteSource for ChunkReader {
    open spec fn stream(&self) -> Seq<u8> {
        if self.pos <= self.data@.len() {
            self.data@.skip(self.pos as int)
        } else {
            Seq::empty()
        }
    }

    open spec fn reliable(&self) -> bool {
        true
    }

    open spec fn wf(&self) -> bool {
        self.num_bytes_per_read >= 1
    }

    fn read(&mut self) -> (r: Result<Vec<u8>, ReadFault>) {
        if self.pos >= self.data.len() {
            return Ok(Vec::new());
        }
        let end = if self.num_bytes_per_read > self.data.len() - self.pos {
            self.data.len()
        } else {
            self.pos + self.num_bytes_per_read
        };
        let chunk = crate::text::subvec(self.data.as_slice(), self.pos, end);
        proof {
            assert(old(self).stream() == self.data@.skip(old(self).pos as int));
            assert(chunk@ =~= old(self).stream().take(chunk@.len() as int));
            assert(self.data@.skip(end as int) =~= old(self).stream().skip(chunk@.len() as int));
        }
        self.pos = end;
        Ok(chunk)
    }
}

/// Law: the read size of a `ChunkReader` has no bearing on the stream it
/// yields. Together with the contract of `request_from_reader`, whose
/// result is fixed by `parse_message` of the stream alone, splitting one
/// message across any read-chunk sizes parses it identically.
pub proof fn lemma_chunk_size_irrelevant(a: ChunkReader, b: ChunkReader)
    requires
        a.data == b.data,
        a.pos == b.pos,
    ensures
        a.stream() == b.stream(),
{
}

/// Drive one parsing session over a byte source: read a chunk, append it
/// to the accumulator, invoke the parser repeatedly against the
/// accumulator until it makes no progress (so several logical units
/// arriving in one read are all extracted), drain exactly the consumed
/// bytes, and stop once the session is done.
///
/// The contract makes the chunking irrelevant: the result is determined
/// by `parse_message` of the source's byte stream alone, however the
/// reads split it. A stream that ends before the terminating blank line
/// yields `InvalidRequest`, never a partially populated request; a read
/// fault also yields `InvalidRequest`. On a reliable source the result
/// matches `parse_message` exactly, success and error alike.
pub fn request_from_reader<R: ByteSource>(reader: R) -> (result: Result<Request, RequestError>)
    requires
        reader.wf(),
    ensures
        ({
            let msg = parse_message(reader.stream());
            &&& (result matches Ok(req) ==> {
                &&& req.wf()
                &&& req.state is Done
                &&& msg matches Ok(m) && (req.request_line matches Some(rl) && rl@ == m.0)
                    && req.headers@ == m.1
            })
            &&& (reader.reliable() ==> match result {
                Ok(req) => msg is Ok,
                Err(e) => msg == Err::<
                    ((Seq<char>, Seq<char>, Seq<char>), Seq<(Seq<char>, Seq<char>)>, int),
                    RequestError,
                >(e),
            })
        }),
{
    let ghost full = reader.stream();
    let mut rdr = reader;
    let mut request = Request::new();
    let mut acc: Vec<u8> = Vec::new();
    let ghost mut drained: int = 0;
    proof {
        assert(acc@ + rdr.stream() =~= full);
        assert(find_crlf(acc@) is None);
    }
    loop
        invariant
            rdr.wf(),
            request.wf(),
            reader.reliable() ==> rdr.reliable(),
            request.state is AwaitingRequestLine ==> drained == 0,
            request.resume(acc@ + rdr.stream(), drained) == parse_message(full),
            request.state is Done || find_crlf(acc@) is None,
            full == reader.stream(),
        decreases rdr.stream().len(),
    {
        let ghost pre_stream = rdr.stream();
        let chunk = match rdr.read() {
            Ok(c) => c,
            Err(_) => {
                proof {
                    assert(!reader.reliable());
                }
                return Err(RequestError::InvalidRequest);
            },
        };
        if chunk.len() == 0 {
            proof {
                assert(pre_stream.len() == 0);
                assert(rdr.stream() =~= pre_stream);
                assert(acc@ + rdr.stream() =~= acc@);
            }
            match request.state {
                ParseState::Done => {
                    proof {
                        assert(parse_message(full) == Ok::<_, RequestError>(
                            (request.request_line->Some_0@, request.headers@, drained),
                        ));
                    }
                    return Ok(request);
                },
                ParseState::AwaitingRequestLine => {
                    proof {
                        assert(request.resume(acc@ + rdr.stream(), drained) == parse_message(
                            acc@ + rdr.stream(),
                        ));
                        assert(rl_step(acc@ + rdr.stream()) == Ok::<_, RequestError>(
                            (None::<(Seq<char>, Seq<char>, Seq<char>)>, 0int),
                        ));
                        assert(parse_message(full) == Err::<
                            ((Seq<char>, Seq<char>, Seq<char>), Seq<(Seq<char>, Seq<char>)>, int),
                            RequestError,
                        >(RequestError::InvalidRequest));
                    }
                    return Err(RequestError::InvalidRequest);
                },
                ParseState::AwaitingHeaders => {
                    proof {
                        assert(header_step(acc@ + rdr.stream()) == Ok::<_, RequestError>(
                            (None::<(Seq<char>, Seq<char>)>, 0int),
                        ));
                        assert(run_headers(acc@ + rdr.stream(), request.headers@) == Ok::<
                            _,
                            RequestError,
                        >(None::<(Seq<(Seq<char>, Seq<char>)>, int)>));
                        assert(parse_message(full) == Err::<
                            ((Seq<char>, Seq<char>, Seq<char>), Seq<(Seq<char>, Seq<char>)>, int),
                            RequestError,
                        >(RequestError::InvalidRequest));
                    }
                    return Err(RequestError::InvalidRequest);
                },
            }
        }
        let ghost pre_acc = acc@;
        crate::text::append_bytes(&mut acc, chunk.as_slice());
        proof {
            assert(acc@ + rdr.stream() =~= pre_acc + pre_stream);
            assert(request.resume(acc@ + rdr.stream(), drained) == parse_message(full));
        }
        loop
            invariant
                request.wf(),
                request.state is AwaitingRequestLine ==> drained == 0,
                request.resume(acc@ + rdr.stream(), drained) == parse_message(full),
                full == reader.stream(),
            ensures
                request.wf(),
                request.state is AwaitingRequestLine ==> drained == 0,
                request.resume(acc@ + rdr.stream(), drained) == parse_message(full),
                request.state is Done || find_crlf(acc@) is None,
            decreases acc@.len(),
        {
            match request.state {
                ParseState::Done => {
                    break ;
                },
                _ => {},
            }
            let ghost pre = request;
            let ghost rest = rdr.stream();
            let acc_len = acc.len();
            let consumed = match request.parse(acc.as_slice()) {
                Ok(n) => n,
                Err(e) => {
                    proof {
                        match pre.state {
                            ParseState::AwaitingRequestLine => {
                                lemma_message_err(acc@, rest, e);
                            },
                            ParseState::AwaitingHeaders => {
                                lemma_run_err(acc@, rest, pre.headers@, e);
                            },
                            ParseState::Done => {},
                        }
                        assert(parse_message(full) == Err::<
                            ((Seq<char>, Seq<char>, Seq<char>), Seq<(Seq<char>, Seq<char>)>, int),
                            RequestError,
                        >(e));
                    }
                    return Err(e);
                },
            };
            if consumed == 0 {
                proof {
                    if find_crlf(acc@) is Some {
                        crate::text::lemma_find_crlf_props(acc@);
                        let pos = find_crlf(acc@)->Some_0;
                        assert(0 <= pos && pos + 2 <= acc_len);
                        assert(false);
                    }
                }
                break ;
            }
            proof {
                crate::text::lemma_find_crlf_props(acc@);
                assert(find_crlf(acc@) is Some);
                let pos = find_crlf(acc@)->Some_0;
                assert(0 <= pos && pos + 2 <= acc_len);
                assert(consumed == pos + 2);
                assert(consumed <= acc@.len());
            }
            let new_acc = crate::text::subvec(acc.as_slice(), consumed, acc.len());
            let ghost old_acc = acc@;
            acc = new_acc;
            proof {
                let input = old_acc + rest;
                let input2 = acc@ + rest;
                assert(input.skip(consumed as int) =~= input2);
                match pre.state {
                    ParseState::AwaitingRequestLine => {
                        let step = rl_step(old_acc);
                        let rl = step->Ok_0.0->Some_0;
                        lemma_message_consume_rl(old_acc, rest, rl, consumed as int);
                        assert(request.headers@ =~= Seq::<(Seq<char>, Seq<char>)>::empty());
                        drained = consumed as int;
                        assert(request.resume(input2, drained) == parse_message(full));
                    },
                    ParseState::AwaitingHeaders => {
                        let step = header_step(old_acc);
                        match step->Ok_0.0 {
                            Some(kv) => {
                                lemma_run_consume(old_acc, rest, pre.headers@, kv, consumed as int);
                                drained = drained + consumed as int;
                                assert(request.resume(input2, drained) == parse_message(full));
                            },
                            None => {
                                lemma_run_blank(old_acc, rest, pre.headers@);
                                drained = drained + 2;
                                assert(request.state is Done);
                                assert(request.resume(input2, drained) == parse_message(full));
                            },
                        }
                    },
                    ParseState::Done => {
                        assert(false);
                    },
                }
            }
        }
        match request.state {
            ParseState::Done => {
                proof {
                    assert(parse_message(full) == Ok::<_, RequestError>(
                        (request.request_line->Some_0@, request.headers@, drained),
                    ));
                }
                return Ok(request);
            },
            _ => {},
        }
    }
}

} // verus!
