//! Response serialization: the status line and a header block, written
//! into a byte sink that a transport can then flush to the peer.

use crate::headers::Headers;
use crate::text::chars_of_ascii;
use vstd::prelude::*;
use vstd::utf8::encode_utf8;

verus! {

/// The status codes this library writes.
pub enum StatusCode {
    /// 200.
    OK,
    /// 400.
    BadRequest,
    /// 500.
    InternalServerError,
}

impl StatusCode {
    /// The numeric code on the wire.
    pub open spec fn spec_code(&self) -> int {
        match self {
            StatusCode::OK => 200,
            StatusCode::BadRequest => 400,
            StatusCode::InternalServerError => 500,
        }
    }

    /// The decimal spelling of the code.
    pub open spec fn spec_code_chars(&self) -> Seq<char> {
        match self {
            StatusCode::OK => "200"@,
            StatusCode::BadRequest => "400"@,
            StatusCode::InternalServerError => "500"@,
        }
    }

    /// The reason phrase written after the code.
    pub open spec fn spec_reason(&self) -> Seq<char> {
        match self {
            StatusCode::OK => "Ok"@,
            StatusCode::BadRequest => "Bad Request"@,
            StatusCode::InternalServerError => "Internal Server Error"@,
        }
    }

    /// The numeric code on the wire.
    pub fn code(&self) -> (r: u16)
        ensures
            r as int == self.spec_code(),
    {
        match self {
            StatusCode::OK => 200,
            StatusCode::BadRequest => 400,
            StatusCode::InternalServerError => 500,
        }
    }

    /// The decimal spelling of the code.
    fn code_str(&self) -> (r: &'static str)
        ensures
            r@ == self.spec_code_chars(),
    {
        match self {
            StatusCode::OK => "200",
            StatusCode::BadRequest => "400",
            StatusCode::InternalServerError => "500",
        }
    }

    /// The reason phrase written after the code.
    fn reason(&self) -> (r: &'static str)
        ensures
            r@ == self.spec_reason(),
    {
        match self {
            StatusCode::OK => "Ok",
            StatusCode::BadRequest => "Bad Request",
            StatusCode::InternalServerError => "Internal Server Error",
        }
    }

    /// The characters of the whole status line, terminator included.
    pub open spec fn status_line_chars(&self) -> Seq<char> {
        "HTTP/1.1 "@ + self.spec_code_chars() + " "@ + self.spec_reason() + "\r\n"@
    }
}

/// Append the status line `HTTP/1.1 <code> <reason>` with its CRLF to the
/// byte sink.
pub fn write_status_line(writer: &mut Vec<u8>, status_code: StatusCode)
    ensures
        final(writer)@ == old(writer)@ + encode_utf8(status_code.status_line_chars()),
{
    let mut s = String::from_str("HTTP/1.1 ");
    s.append(status_code.code_str());
    s.append(" ");
    s.append(status_code.reason());
    s.append("\r\n");
    proof {
        assert(s@ =~= status_code.status_line_chars());
    }
    let bytes = s.as_str().as_bytes_vec();
    crate::text::append_bytes(writer, bytes.as_slice());
}

/// The decimal digits of `n`, with none for zero.
pub open spec fn dec_digits(n: nat) -> Seq<char>
    decreases n,
    via dec_digits_dec
{
    if n == 0 {
        seq![]
    } else {
        dec_digits(n / 10).push(((48 + n % 10) as u8) as char)
    }
}

#[via_fn]
proof fn dec_digits_dec(n: nat) {
    if n > 0 {
        assert(n / 10 < n) by (nonlinear_arith)
            requires
                n > 0,
        ;
    }
}

/// The decimal spelling of `n`: its digits, or `0` for zero.
pub open spec fn dec_chars(n: nat) -> Seq<char> {
    if n == 0 {
        seq!['0']
    } else {
        dec_digits(n)
    }
}

/// The decimal spelling of a number, as a string.
fn usize_to_string(n: usize) -> (r: String)
    ensures
        r@ == dec_chars(n as nat),
{
    if n == 0 {
        let r = String::from_str("0");
        proof {
            reveal_strlit("0");
            assert(r@ =~= dec_chars(0));
        }
        return r;
    }
    let mut digits: Vec<u8> = Vec::new();
    let mut m = n;
    while m > 0
        invariant
            m <= n,
            m == 0 ==> digits@.len() > 0,
            forall|k: int| 0 <= k < digits@.len() ==> 48 <= #[trigger] digits@[k] < 58,
            dec_digits(n as nat) =~= dec_digits(m as nat) + chars_of_ascii(digits@.reverse()),
        decreases m,
    {
        let d = (m % 10) as u8;
        let ghost pre = digits@;
        digits.push(48 + d);
        proof {
            assert(m % 10 < 10) by (nonlinear_arith);
            assert(m / 10 < m) by (nonlinear_arith)
                requires
                    m > 0,
            ;
            assert(digits@.reverse() =~= seq![(48 + d) as u8] + pre.reverse());
            assert(chars_of_ascii(digits@.reverse()) =~= seq![((48 + d) as u8) as char]
                + chars_of_ascii(pre.reverse()));
            assert(dec_digits(m as nat) == dec_digits((m as nat) / 10).push(
                ((48 + (m as nat) % 10) as u8) as char,
            ));
            assert(dec_digits(m as nat) + chars_of_ascii(pre.reverse()) =~= dec_digits(
                (m / 10) as nat,
            ) + chars_of_ascii(digits@.reverse()));
        }
        m = m / 10;
    }
    let mut out: Vec<u8> = Vec::new();
    let mut j = digits.len();
    while j > 0
        invariant
            j <= digits@.len(),
            forall|k: int| 0 <= k < digits@.len() ==> 48 <= #[trigger] digits@[k] < 58,
            out@ =~= digits@.reverse().subrange(0, digits@.len() - j),
        decreases j,
    {
        out.push(digits[j - 1]);
        proof {
            assert(digits@.reverse()[digits@.len() - j] == digits@[j - 1]);
            assert(out@ =~= digits@.reverse().subrange(0, digits@.len() - (j - 1)));
        }
        j = j - 1;
    }
    proof {
        assert(out@ =~= digits@.reverse());
        assert(crate::text::ascii_seq(out@));
        crate::text::lemma_ascii_decode(out@);
    }
    match crate::text::vec_to_string(out) {
        Some(s) => {
            proof {
                assert(s@ =~= dec_chars(n as nat));
            }
            s
        },
        None => {
            proof {
                assert(false);
            }
            String::new()
        },
    }
}

/// The headers every response carries: the body length, `connection:
/// close`, and a plain-text content type, in that order.
pub fn get_default_headers(content_length: usize) -> (r: Headers)
    ensures
        r.wf(),
        r@ =~= seq![
            ("content-length"@, dec_chars(content_length as nat)),
            ("connection"@, "close"@),
            ("content-type"@, "text/plain"@),
        ],
{
    let mut entries: Vec<(String, String)> = Vec::new();
    entries.push((String::from_str("content-length"), usize_to_string(content_length)));
    entries.push((String::from_str("connection"), String::from_str("close")));
    entries.push((String::from_str("content-type"), String::from_str("text/plain")));
    let headers = Headers { entries };
    proof {
        reveal_strlit("content-length");
        reveal_strlit("connection");
        reveal_strlit("content-type");
        assert(headers.entries@.len() == 3);
        assert(headers@[0] == ("content-length"@, dec_chars(content_length as nat)));
        assert(headers@[1] == ("connection"@, "close"@));
        assert(headers@[2] == ("content-type"@, "text/plain"@));
        assert(headers@ =~= seq![
            ("content-length"@, dec_chars(content_length as nat)),
            ("connection"@, "close"@),
            ("content-type"@, "text/plain"@),
        ]);
        assert(vstd::utf8::is_ascii_chars("content-length"@));
        assert(vstd::utf8::is_ascii_chars("connection"@));
        assert(vstd::utf8::is_ascii_chars("content-type"@));
    }
    headers
}

/// The characters of a header block: each entry as `key: value` with its
/// CRLF, in stored order, then the blank line that ends the block.
pub open spec fn header_block_chars(m: Seq<(Seq<char>, Seq<char>)>) -> Seq<char>
    decreases m.len(),
{
    if m.len() == 0 {
        "\r\n"@
    } else {
        m[0].0 + ": "@ + m[0].1 + "\r\n"@ + header_block_chars(m.drop_first())
    }
}

/// Append every header as a `key: value` line, then the blank line that
/// ends the block, to the byte sink.
pub fn write_headers(writer: &mut Vec<u8>, headers: &Headers)
    ensures
        final(writer)@ == old(writer)@ + encode_utf8(header_block_chars(headers@)),
{
    let mut s = String::new();
    let n = headers.entries.len();
    proof {
        assert(headers@.skip(0) =~= headers@);
        assert(s@ + header_block_chars(headers@.skip(0)) =~= header_block_chars(headers@));
    }
    let mut i: usize = 0;
    while i < n
        invariant
            i <= n,
            n == headers.entries@.len(),
            s@ + header_block_chars(headers@.skip(i as int)) =~= header_block_chars(headers@),
        decreases n - i,
    {
        s.append(headers.entries[i].0.as_str());
        s.append(": ");
        s.append(headers.entries[i].1.as_str());
        s.append("\r\n");
        proof {
            let rest = headers@.skip(i as int);
            assert(rest[0] == headers@[i as int]);
            assert(rest.drop_first() =~= headers@.skip(i + 1));
            assert(header_block_chars(rest) == rest[0].0 + ": "@ + rest[0].1 + "\r\n"@
                + header_block_chars(headers@.skip(i + 1)));
        }
        i = i + 1;
    }
    s.append("\r\n");
    proof {
        assert(headers@.skip(n as int) =~= Seq::<(Seq<char>, Seq<char>)>::empty());
        assert(s@ =~= header_block_chars(headers@));
    }
    let bytes = s.as_str().as_bytes_vec();
    crate::text::append_bytes(writer, bytes.as_slice());
}

} // verus!
