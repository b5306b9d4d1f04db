//! Byte-level text utilities shared by the request-line and header parsers:
//! classification of ASCII bytes, the search for the first CRLF, lowercase
//! folding, and the bridge from validated bytes to `String` values.

use vstd::prelude::*;
use vstd::utf8::decode_utf8;
use vstd::utf8::is_char_boundary_iff_not_is_continuation_byte;
use vstd::utf8::is_char_boundary_start_end_of_seq;
use vstd::utf8::is_continuation_byte;
use vstd::utf8::is_leading_byte_width_1;
use vstd::utf8::length_of_first_scalar;
use vstd::utf8::pop_first_scalar;
use vstd::utf8::valid_first_scalar;
use vstd::utf8::valid_utf8;
use vstd::utf8::valid_utf8_split;

verus! {

/// Carriage return, the first byte of a line terminator.
pub const CR: u8 = 13;

/// Line feed, the second byte of a line terminator.
pub const LF: u8 = 10;

/// The whitespace stripped around header keys and values: space and tab.
pub open spec fn is_trim_byte(b: u8) -> bool {
    b == 32 || b == 9
}

/// The ASCII whitespace that separates request-line tokens: space, tab,
/// line feed, form feed and carriage return.
pub open spec fn is_ws_byte(b: u8) -> bool {
    b == 32 || b == 9 || b == 10 || b == 12 || b == 13
}

/// An ASCII letter, the only characters allowed in a method token.
pub open spec fn is_alpha_byte(b: u8) -> bool {
    (65 <= b <= 90) || (97 <= b <= 122)
}

/// A character allowed in a header key: ASCII letter, digit, `-` or `_`.
pub open spec fn is_key_byte(b: u8) -> bool {
    (48 <= b <= 57) || (65 <= b <= 90) || (97 <= b <= 122) || b == 45 || b == 95
}

/// Every byte of the sequence is ASCII.
pub open spec fn ascii_seq(s: Seq<u8>) -> bool {
    forall|i: int| 0 <= i < s.len() ==> s[i] < 128
}

/// The characters spelled by a sequence of ASCII bytes.
pub open spec fn chars_of_ascii(s: Seq<u8>) -> Seq<char> {
    Seq::new(s.len(), |i: int| s[i] as char)
}

/// ASCII lowercase folding of one byte.
pub open spec fn lower_byte(b: u8) -> u8 {
    if 65 <= b <= 90 {
        (b + 32) as u8
    } else {
        b
    }
}

/// ASCII lowercase folding of a byte sequence.
pub open spec fn lower_bytes(s: Seq<u8>) -> Seq<u8> {
    Seq::new(s.len(), |i: int| lower_byte(s[i]))
}

/// ASCII lowercase folding of one character; characters outside `A`..`Z`
/// are left alone.
pub open spec fn fold_char(c: char) -> char {
    if 'A' <= c <= 'Z' {
        ((c as u32) + 32) as char
    } else {
        c
    }
}

/// ASCII lowercase folding of a character sequence, the normalization
/// applied to header names for storage and lookup.
pub open spec fn fold_chars(s: Seq<char>) -> Seq<char> {
    Seq::new(s.len(), |i: int| fold_char(s[i]))
}

/// A CRLF pair starts at position `i` of `s`.
pub open spec fn crlf_at(s: Seq<u8>, i: int) -> bool {
    0 <= i && i + 2 <= s.len() && s[i] == CR && s[i + 1] == LF
}

/// The position of the first CRLF pair in `s`, if any.
pub open spec fn find_crlf(s: Seq<u8>) -> Option<int>
    decreases s.len(),
{
    if s.len() < 2 {
        None
    } else if s[0] == CR && s[1] == LF {
        Some(0)
    } else {
        match find_crlf(s.drop_first()) {
            Some(i) => Some(i + 1),
            None => None,
        }
    }
}

/// `find_crlf` returns the first CRLF position: a position where a CRLF
/// stands and before which none does, or `None` when no CRLF exists.
pub proof fn lemma_find_crlf_props(s: Seq<u8>)
    ensures
        match find_crlf(s) {
            Some(i) => crlf_at(s, i) && (forall|j: int| 0 <= j < i ==> !crlf_at(s, j)),
            None => forall|j: int| !crlf_at(s, j),
        },
    decreases s.len(),
{
    if s.len() < 2 {
    } else if s[0] == CR && s[1] == LF {
    } else {
        let t = s.drop_first();
        lemma_find_crlf_props(t);
        assert(forall|j: int| 1 <= j && crlf_at(s, j) ==> crlf_at(t, j - 1));
        assert(forall|j: int| 0 <= j && crlf_at(t, j) ==> crlf_at(s, j + 1));
        match find_crlf(t) {
            Some(i) => {
                assert(crlf_at(s, i + 1));
                assert(forall|j: int| 0 <= j < i + 1 ==> !crlf_at(s, j));
            },
            None => {
                assert(forall|j: int| !crlf_at(s, j));
            },
        }
    }
}

/// A position with a CRLF and none before it is exactly what `find_crlf`
/// returns.
pub proof fn lemma_find_crlf_unique(s: Seq<u8>, i: int)
    requires
        crlf_at(s, i),
        forall|j: int| 0 <= j < i ==> !crlf_at(s, j),
    ensures
        find_crlf(s) == Some(i),
{
    lemma_find_crlf_props(s);
    match find_crlf(s) {
        Some(k) => {
            if k < i {
                assert(!crlf_at(s, k));
            } else if i < k {
                assert(!crlf_at(s, i));
            }
        },
        None => {
            assert(!crlf_at(s, i));
        },
    }
}

/// Once a CRLF has been found, appending more bytes cannot move it: the
/// first CRLF of `s + t` is the first CRLF of `s`.
pub proof fn lemma_find_crlf_prefix_stable(s: Seq<u8>, t: Seq<u8>)
    requires
        find_crlf(s) is Some,
    ensures
        find_crlf(s + t) == find_crlf(s),
{
    lemma_find_crlf_props(s);
    let i = find_crlf(s)->Some_0;
    assert(crlf_at(s + t, i));
    assert forall|j: int| 0 <= j < i implies !crlf_at(s + t, j) by {
        if crlf_at(s + t, j) {
            assert(crlf_at(s, j));
        }
    }
    lemma_find_crlf_unique(s + t, i);
}

/// A found CRLF is already determined by any prefix that covers it: the
/// bytes past position `nn` can be cut off, and anything appended instead,
/// without moving the first CRLF.
pub proof fn lemma_find_crlf_trunc(s: Seq<u8>, nn: int, t: Seq<u8>)
    requires
        find_crlf(s) is Some,
        find_crlf(s)->Some_0 + 2 <= nn <= s.len(),
    ensures
        find_crlf(s.subrange(0, nn) + t) == find_crlf(s),
{
    lemma_find_crlf_props(s);
    let pos = find_crlf(s)->Some_0;
    let p = s.subrange(0, nn) + t;
    assert(crlf_at(p, pos));
    assert forall|j: int| 0 <= j < pos implies !crlf_at(p, j) by {
        if crlf_at(p, j) {
            assert(p[j] == s[j] && p[j + 1] == s[j + 1]);
            assert(crlf_at(s, j));
        }
    }
    lemma_find_crlf_unique(p, pos);
}

/// First CRLF position in a byte slice, or `None` when the slice holds no
/// full CRLF yet.
pub fn find_crlf_exec(data: &[u8]) -> (r: Option<usize>)
    ensures
        match r {
            Some(i) => find_crlf(data@) == Some(i as int),
            None => find_crlf(data@) is None,
        },
{
    let n = data.len();
    if n < 2 {
        proof {
            lemma_find_crlf_props(data@);
        }
        return None;
    }
    let mut i: usize = 0;
    while i <= n - 2
        invariant
            n == data@.len(),
            2 <= n,
            i <= n,
            forall|j: int| 0 <= j < i ==> !crlf_at(data@, j),
        decreases n - i,
    {
        if data[i] == CR && data[i + 1] == LF {
            proof {
                lemma_find_crlf_unique(data@, i as int);
            }
            return Some(i);
        }
        i = i + 1;
    }
    proof {
        lemma_find_crlf_props(data@);
        if find_crlf(data@) is Some {
            let k = find_crlf(data@)->Some_0;
            assert(crlf_at(data@, k));
            assert(!crlf_at(data@, k));
        }
    }
    None
}

/// Copy of the bytes `from..to` of a slice.
pub fn subvec(data: &[u8], from: usize, to: usize) -> (r: Vec<u8>)
    requires
        from <= to <= data@.len(),
    ensures
        r@ == data@.subrange(from as int, to as int),
{
    let s = vstd::slice::slice_subrange(data, from, to);
    vstd::slice::slice_to_vec(s)
}

/// Append a byte slice to a byte vector.
pub fn append_bytes(acc: &mut Vec<u8>, chunk: &[u8])
    ensures
        final(acc)@ == old(acc)@ + chunk@,
{
    let n = chunk.len();
    let mut i: usize = 0;
    while i < n
        invariant
            n == chunk@.len(),
            i <= n,
            acc@ == old(acc)@ + chunk@.subrange(0, i as int),
        decreases n - i,
    {
        acc.push(chunk[i]);
        proof {
            assert(old(acc)@ + chunk@.subrange(0, i + 1 as int) =~= (old(acc)@ + chunk@.subrange(
                0,
                i as int,
            )).push(chunk@[i as int]));
        }
        i = i + 1;
    }
    proof {
        assert(chunk@.subrange(0, n as int) =~= chunk@);
    }
}

/// The position of the first occurrence of byte `b` in `s`, if any.
pub open spec fn find_byte(s: Seq<u8>, b: u8) -> Option<int>
    decreases s.len(),
{
    if s.len() == 0 {
        None
    } else if s[0] == b {
        Some(0)
    } else {
        match find_byte(s.drop_first(), b) {
            Some(i) => Some(i + 1),
            None => None,
        }
    }
}

/// `find_byte` returns the first occurrence of `b`, or `None` when `b` does
/// not occur.
pub proof fn lemma_find_byte_props(s: Seq<u8>, b: u8)
    ensures
        match find_byte(s, b) {
            Some(i) => 0 <= i < s.len() && s[i] == b && (forall|j: int| 0 <= j < i ==> s[j] != b),
            None => forall|j: int| 0 <= j < s.len() ==> s[j] != b,
        },
    decreases s.len(),
{
    if s.len() == 0 {
    } else if s[0] == b {
    } else {
        let t = s.drop_first();
        lemma_find_byte_props(t, b);
        match find_byte(t, b) {
            Some(i) => {
                assert forall|j: int| 0 <= j < i + 1 implies s[j] != b by {
                    if j > 0 {
                        assert(t[j - 1] == s[j]);
                    }
                }
            },
            None => {
                assert forall|j: int| 0 <= j < s.len() implies s[j] != b by {
                    if j > 0 {
                        assert(t[j - 1] == s[j]);
                    }
                }
            },
        }
    }
}

/// A position holding `b` with none before it is exactly what `find_byte`
/// returns.
pub proof fn lemma_find_byte_unique(s: Seq<u8>, b: u8, i: int)
    requires
        0 <= i < s.len(),
        s[i] == b,
        forall|j: int| 0 <= j < i ==> s[j] != b,
    ensures
        find_byte(s, b) == Some(i),
{
    lemma_find_byte_props(s, b);
    match find_byte(s, b) {
        Some(k) => {
            if k < i {
                assert(s[k] != b);
            } else if i < k {
                assert(s[i] != b);
            }
        },
        None => {
            assert(s[i] != b);
        },
    }
}

/// `s` with its leading spaces and tabs removed.
pub open spec fn trim_front(s: Seq<u8>) -> Seq<u8>
    decreases s.len(),
{
    if s.len() > 0 && is_trim_byte(s[0]) {
        trim_front(s.drop_first())
    } else {
        s
    }
}

/// `s` with its trailing spaces and tabs removed.
pub open spec fn trim_back(s: Seq<u8>) -> Seq<u8>
    decreases s.len(),
{
    if s.len() > 0 && is_trim_byte(s[s.len() - 1]) {
        trim_back(s.drop_last())
    } else {
        s
    }
}

/// `s` with spaces and tabs removed from both ends.
pub open spec fn trim_bytes(s: Seq<u8>) -> Seq<u8> {
    trim_back(trim_front(s))
}

/// `trim_front` keeps exactly the bytes from the first position that is not
/// a space or tab.
pub proof fn lemma_trim_front_subrange(s: Seq<u8>, a: int)
    requires
        0 <= a <= s.len(),
        forall|j: int| 0 <= j < a ==> is_trim_byte(s[j]),
        a == s.len() || !is_trim_byte(s[a]),
    ensures
        trim_front(s) == s.subrange(a, s.len() as int),
    decreases a,
{
    if a == 0 {
        assert(trim_front(s) =~= s.subrange(0, s.len() as int));
    } else {
        assert(is_trim_byte(s[0]));
        let t = s.drop_first();
        lemma_trim_front_subrange(t, a - 1);
        assert(t.subrange(a - 1, t.len() as int) =~= s.subrange(a, s.len() as int));
    }
}

/// `trim_back` keeps exactly the bytes up to the last position that is not
/// a space or tab.
pub proof fn lemma_trim_back_subrange(s: Seq<u8>, b: int)
    requires
        0 <= b <= s.len(),
        forall|j: int| b <= j < s.len() ==> is_trim_byte(s[j]),
        b == 0 || !is_trim_byte(s[b - 1]),
    ensures
        trim_back(s) == s.subrange(0, b),
    decreases s.len(),
{
    if b == s.len() {
        if s.len() > 0 {
            assert(!is_trim_byte(s[s.len() - 1]));
        }
        assert(trim_back(s) =~= s.subrange(0, b));
    } else {
        assert(is_trim_byte(s[s.len() - 1]));
        let t = s.drop_last();
        lemma_trim_back_subrange(t, b);
        assert(t.subrange(0, b) =~= s.subrange(0, b));
    }
}

/// `trim_bytes` keeps exactly the bytes between the first and the last
/// position that is not a space or tab.
pub proof fn lemma_trim_subrange(s: Seq<u8>, a: int, b: int)
    requires
        0 <= a <= b <= s.len(),
        forall|j: int| 0 <= j < a ==> is_trim_byte(s[j]),
        forall|j: int| b <= j < s.len() ==> is_trim_byte(s[j]),
        a == b || (!is_trim_byte(s[a]) && !is_trim_byte(s[b - 1])),
    ensures
        trim_bytes(s) == s.subrange(a, b),
{
    if a == b {
        lemma_trim_front_subrange(s, s.len() as int);
        let t = s.subrange(s.len() as int, s.len() as int);
        assert(t.len() == 0);
        assert(trim_back(t) =~= s.subrange(a, b));
    } else {
        lemma_trim_front_subrange(s, a);
        let t = s.subrange(a, s.len() as int);
        lemma_trim_back_subrange(t, b - a);
        assert(t.subrange(0, b - a) =~= s.subrange(a, b));
    }
}

/// The first position at or after `i` whose byte is not ASCII whitespace,
/// or the length of `s`.
pub open spec fn seek_non_ws(s: Seq<u8>, i: int) -> int
    decreases s.len() - i,
    when 0 <= i <= s.len()
{
    if i >= s.len() {
        s.len() as int
    } else if is_ws_byte(s[i]) {
        seek_non_ws(s, i + 1)
    } else {
        i
    }
}

/// The first position at or after `i` whose byte is ASCII whitespace, or
/// the length of `s`.
pub open spec fn seek_ws(s: Seq<u8>, i: int) -> int
    decreases s.len() - i,
    when 0 <= i <= s.len()
{
    if i >= s.len() {
        s.len() as int
    } else if !is_ws_byte(s[i]) {
        seek_ws(s, i + 1)
    } else {
        i
    }
}

/// Bounds and meaning of `seek_non_ws`.
pub proof fn lemma_seek_non_ws(s: Seq<u8>, i: int)
    requires
        0 <= i <= s.len(),
    ensures
        i <= seek_non_ws(s, i) <= s.len(),
        forall|j: int| i <= j < seek_non_ws(s, i) ==> is_ws_byte(s[j]),
        seek_non_ws(s, i) < s.len() ==> !is_ws_byte(s[seek_non_ws(s, i)]),
    decreases s.len() - i,
{
    if i >= s.len() {
    } else if is_ws_byte(s[i]) {
        lemma_seek_non_ws(s, i + 1);
    }
}

/// Bounds and meaning of `seek_ws`.
pub proof fn lemma_seek_ws(s: Seq<u8>, i: int)
    requires
        0 <= i <= s.len(),
    ensures
        i <= seek_ws(s, i) <= s.len(),
        forall|j: int| i <= j < seek_ws(s, i) ==> !is_ws_byte(s[j]),
        seek_ws(s, i) < s.len() ==> is_ws_byte(s[seek_ws(s, i)]),
    decreases s.len() - i,
{
    if i >= s.len() {
    } else if !is_ws_byte(s[i]) {
        lemma_seek_ws(s, i + 1);
    }
}

/// The whitespace-separated tokens of `s` from position `i` on.
pub open spec fn tokens_from(s: Seq<u8>, i: int) -> Seq<Seq<u8>>
    decreases s.len() - i,
    when 0 <= i <= s.len()
    via tokens_from_dec
{
    let j = seek_non_ws(s, i);
    if j >= s.len() {
        seq![]
    } else {
        let k = seek_ws(s, j);
        seq![s.subrange(j, k)] + tokens_from(s, k)
    }
}

#[via_fn]
proof fn tokens_from_dec(s: Seq<u8>, i: int) {
    lemma_seek_non_ws(s, i);
    let j = seek_non_ws(s, i);
    if j < s.len() {
        lemma_seek_ws(s, j);
        assert(seek_ws(s, j) > j);
    }
}

/// The whitespace-separated tokens of `s`: what the request line is split
/// into.
pub open spec fn tokens(s: Seq<u8>) -> Seq<Seq<u8>> {
    tokens_from(s, 0)
}

/// Runtime test for `is_ws_byte`.
pub fn is_ws_byte_exec(b: u8) -> (r: bool)
    ensures
        r == is_ws_byte(b),
{
    b == 32 || b == 9 || b == 10 || b == 12 || b == 13
}

/// Runtime test for `is_trim_byte`.
pub fn is_trim_byte_exec(b: u8) -> (r: bool)
    ensures
        r == is_trim_byte(b),
{
    b == 32 || b == 9
}

/// Runtime test for `is_alpha_byte`.
pub fn is_alpha_byte_exec(b: u8) -> (r: bool)
    ensures
        r == is_alpha_byte(b),
{
    (65 <= b && b <= 90) || (97 <= b && b <= 122)
}

/// Runtime test for `is_key_byte`.
pub fn is_key_byte_exec(b: u8) -> (r: bool)
    ensures
        r == is_key_byte(b),
{
    (48 <= b && b <= 57) || (65 <= b && b <= 90) || (97 <= b && b <= 122) || b == 45 || b == 95
}

/// Runtime twin of `lower_byte`.
pub fn lower_byte_exec(b: u8) -> (r: u8)
    ensures
        r == lower_byte(b),
{
    if 65 <= b && b <= 90 {
        b + 32
    } else {
        b
    }
}

/// First position of byte `b` in a slice, or `None` when `b` does not
/// occur.
pub fn find_byte_exec(data: &[u8], b: u8) -> (r: Option<usize>)
    ensures
        match r {
            Some(i) => find_byte(data@, b) == Some(i as int),
            None => find_byte(data@, b) is None,
        },
{
    let n = data.len();
    let mut i: usize = 0;
    while i < n
        invariant
            i <= n,
            n == data@.len(),
            forall|j: int| 0 <= j < i ==> data@[j] != b,
        decreases n - i,
    {
        if data[i] == b {
            proof {
                lemma_find_byte_unique(data@, b, i as int);
            }
            return Some(i);
        }
        i = i + 1;
    }
    proof {
        lemma_find_byte_props(data@, b);
        if find_byte(data@, b) is Some {
            let k = find_byte(data@, b)->Some_0;
            assert(data@[k] != b);
        }
    }
    None
}

/// Runtime twin of `seek_non_ws`.
pub fn seek_non_ws_exec(data: &[u8], from: usize) -> (r: usize)
    requires
        from <= data@.len(),
    ensures
        r as int == seek_non_ws(data@, from as int),
        from <= r <= data@.len(),
{
    let n = data.len();
    let mut i = from;
    while i < n
        invariant
            from <= i <= n,
            n == data@.len(),
            seek_non_ws(data@, from as int) == seek_non_ws(data@, i as int),
        decreases n - i,
    {
        if !is_ws_byte_exec(data[i]) {
            return i;
        }
        i = i + 1;
    }
    i
}

/// Runtime twin of `seek_ws`.
pub fn seek_ws_exec(data: &[u8], from: usize) -> (r: usize)
    requires
        from <= data@.len(),
    ensures
        r as int == seek_ws(data@, from as int),
        from <= r <= data@.len(),
{
    let n = data.len();
    let mut i = from;
    while i < n
        invariant
            from <= i <= n,
            n == data@.len(),
            seek_ws(data@, from as int) == seek_ws(data@, i as int),
        decreases n - i,
    {
        if is_ws_byte_exec(data[i]) {
            return i;
        }
        i = i + 1;
    }
    i
}

/// The whitespace-separated tokens of a slice, as index ranges. Each range
/// spells the corresponding entry of `tokens`, starts right after
/// whitespace (or at the front) and ends right before whitespace (or at the
/// back).
pub fn tokenize(data: &[u8]) -> (r: Vec<(usize, usize)>)
    ensures
        r@.len() == tokens(data@).len(),
        forall|t: int|
            #![trigger r@[t]]
            0 <= t < r@.len() ==> {
                &&& r@[t].0 < r@[t].1 <= data@.len()
                &&& data@.subrange(r@[t].0 as int, r@[t].1 as int) == tokens(data@)[t]
                &&& (r@[t].0 == 0 || is_ws_byte(data@[r@[t].0 as int - 1]))
                &&& (r@[t].1 == data@.len() || is_ws_byte(data@[r@[t].1 as int]))
            },
{
    let n = data.len();
    let mut toks: Vec<(usize, usize)> = Vec::new();
    let mut i: usize = 0;
    loop
        invariant
            i <= n,
            n == data@.len(),
            i == 0 || i == n || is_ws_byte(data@[i as int]),
            toks@.len() <= tokens(data@).len(),
            tokens_from(data@, i as int) =~= tokens(data@).skip(toks@.len() as int),
            forall|t: int|
                #![trigger toks@[t]]
                0 <= t < toks@.len() ==> {
                    &&& toks@[t].0 < toks@[t].1 <= data@.len()
                    &&& data@.subrange(toks@[t].0 as int, toks@[t].1 as int) == tokens(data@)[t]
                    &&& (toks@[t].0 == 0 || is_ws_byte(data@[toks@[t].0 as int - 1]))
                    &&& (toks@[t].1 == data@.len() || is_ws_byte(data@[toks@[t].1 as int]))
                },
        decreases n - i,
    {
        proof {
            lemma_seek_non_ws(data@, i as int);
        }
        let j = seek_non_ws_exec(data, i);
        if j == n {
            proof {
                assert(tokens_from(data@, i as int) =~= Seq::<Seq<u8>>::empty());
                assert(toks@.len() == tokens(data@).len());
            }
            return toks;
        }
        proof {
            lemma_seek_ws(data@, j as int);
        }
        let k = seek_ws_exec(data, j);
        let ghost m = toks@.len() as int;
        proof {
            assert(j < k);
            assert(tokens_from(data@, i as int) == seq![data@.subrange(j as int, k as int)]
                + tokens_from(data@, k as int));
            assert(tokens(data@)[m] == tokens(data@).skip(m)[0]);
            assert(tokens(data@)[m] == data@.subrange(j as int, k as int));
            assert(tokens_from(data@, k as int) =~= tokens(data@).skip(m + 1)) by {
                let all = tokens(data@);
                let head = seq![data@.subrange(j as int, k as int)];
                let tfk = tokens_from(data@, k as int);
                assert(0 <= m <= all.len());
                assert(all.skip(m).len() == all.len() - m);
                assert(all.skip(m) =~= head + tfk);
                assert(all.len() - m == 1 + tfk.len());
                assert(all.skip(m + 1).len() == tfk.len());
                assert forall|t: int| 0 <= t < tfk.len() implies all.skip(m + 1)[t] == tfk[t] by {
                    assert(all.skip(m + 1)[t] == all[m + 1 + t]);
                    assert(all.skip(m)[t + 1] == all[m + 1 + t]);
                    assert(all.skip(m)[t + 1] == (head + tfk)[t + 1]);
                    assert((head + tfk)[t + 1] == tfk[t]);
                }
            }
            if j > i {
                assert(is_ws_byte(data@[j as int - 1]));
            } else if j > 0 {
                assert(!is_ws_byte(data@[j as int]));
                assert(is_ws_byte(data@[i as int]));
                assert(false);
            }
        }
        let ghost prev = toks@;
        toks.push((j, k));
        i = k;
        proof {
            assert forall|t: int|
                #![trigger toks@[t]]
                0 <= t < toks@.len() implies {
                    &&& toks@[t].0 < toks@[t].1 <= data@.len()
                    &&& data@.subrange(toks@[t].0 as int, toks@[t].1 as int) == tokens(data@)[t]
                    &&& (toks@[t].0 == 0 || is_ws_byte(data@[toks@[t].0 as int - 1]))
                    &&& (toks@[t].1 == data@.len() || is_ws_byte(data@[toks@[t].1 as int]))
                } by {
                if t < prev.len() {
                    assert(toks@[t] == prev[t]);
                    assert(prev[t].0 < prev[t].1 <= data@.len());
                    assert(data@.subrange(prev[t].0 as int, prev[t].1 as int) == tokens(data@)[t]);
                    assert(prev[t].0 == 0 || is_ws_byte(data@[prev[t].0 as int - 1]));
                    assert(prev[t].1 == data@.len() || is_ws_byte(data@[prev[t].1 as int]));
                } else {
                    assert(toks@[t] == (j, k));
                    assert(toks@[t].0 == j && toks@[t].1 == k);
                    assert(j < k <= data@.len());
                    assert(data@.subrange(j as int, k as int) == tokens(data@)[t]);
                    assert(j == 0 || is_ws_byte(data@[j as int - 1]));
                    assert(k == data@.len() || is_ws_byte(data@[k as int]));
                }
            }
        }
    }
}

/// The index range kept by `trim_bytes` inside `data[from..to]`.
pub fn trim_range(data: &[u8], from: usize, to: usize) -> (r: (usize, usize))
    requires
        from <= to <= data@.len(),
    ensures
        from <= r.0 <= r.1 <= to,
        trim_bytes(data@.subrange(from as int, to as int)) == data@.subrange(
            r.0 as int,
            r.1 as int,
        ),
        r.0 == from || is_trim_byte(data@[r.0 as int - 1]),
        r.1 == to || is_trim_byte(data@[r.1 as int]),
{
    let mut a = from;
    while a < to && is_trim_byte_exec(data[a])
        invariant
            from <= a <= to <= data@.len(),
            forall|j: int| from <= j < a ==> is_trim_byte(data@[j]),
        decreases to - a,
    {
        a = a + 1;
    }
    let mut b = to;
    while b > a && is_trim_byte_exec(data[b - 1])
        invariant
            a <= b <= to <= data@.len(),
            forall|j: int| b <= j < to ==> is_trim_byte(data@[j]),
        decreases b,
    {
        b = b - 1;
    }
    proof {
        let s = data@.subrange(from as int, to as int);
        lemma_trim_subrange(s, a - from, b - from);
        assert(s.subrange(a - from, b - from) =~= data@.subrange(a as int, b as int));
    }
    (a, b)
}

/// The position of the last occurrence of byte `b` in `s`, if any.
pub open spec fn find_last_byte(s: Seq<u8>, b: u8) -> Option<int>
    decreases s.len(),
{
    if s.len() == 0 {
        None
    } else if s[s.len() - 1] == b {
        Some(s.len() - 1)
    } else {
        find_last_byte(s.drop_last(), b)
    }
}

/// `find_last_byte` returns the last occurrence of `b`, or `None` when `b`
/// does not occur.
pub proof fn lemma_find_last_byte_props(s: Seq<u8>, b: u8)
    ensures
        match find_last_byte(s, b) {
            Some(i) => 0 <= i < s.len() && s[i] == b && (forall|j: int|
                i < j < s.len() ==> s[j] != b),
            None => forall|j: int| 0 <= j < s.len() ==> s[j] != b,
        },
    decreases s.len(),
{
    if s.len() == 0 {
    } else if s[s.len() - 1] == b {
    } else {
        let t = s.drop_last();
        lemma_find_last_byte_props(t, b);
        assert(forall|j: int| 0 <= j < t.len() ==> t[j] == s[j]);
        match find_last_byte(t, b) {
            Some(i) => {
                assert(s[i] == b);
                assert forall|j: int| i < j < s.len() implies s[j] != b by {
                    if j < s.len() - 1 {
                        assert(t[j] != b);
                    }
                }
            },
            None => {
                assert forall|j: int| 0 <= j < s.len() implies s[j] != b by {
                    if j < s.len() - 1 {
                        assert(t[j] != b);
                    }
                }
            },
        }
    }
}

/// A position holding `b` with none after it is exactly what
/// `find_last_byte` returns.
pub proof fn lemma_find_last_byte_unique(s: Seq<u8>, b: u8, i: int)
    requires
        0 <= i < s.len(),
        s[i] == b,
        forall|j: int| i < j < s.len() ==> s[j] != b,
    ensures
        find_last_byte(s, b) == Some(i),
{
    lemma_find_last_byte_props(s, b);
    match find_last_byte(s, b) {
        Some(k) => {
            if k < i {
                assert(s[i] != b);
            } else if i < k {
                assert(s[k] != b);
            }
        },
        None => {
            assert(s[i] != b);
        },
    }
}

/// Last position of byte `b` inside `data[from..to]`, as an index into
/// `data`, or `None` when `b` does not occur there.
pub fn find_last_byte_in(data: &[u8], from: usize, to: usize, b: u8) -> (r: Option<usize>)
    requires
        from <= to <= data@.len(),
    ensures
        match r {
            Some(i) => from <= i < to && find_last_byte(data@.subrange(from as int, to as int), b)
                == Some(i - from),
            None => find_last_byte(data@.subrange(from as int, to as int), b) is None,
        },
{
    let ghost s = data@.subrange(from as int, to as int);
    let mut i = to;
    while i > from
        invariant
            from <= i <= to <= data@.len(),
            s == data@.subrange(from as int, to as int),
            forall|j: int| i - from <= j < s.len() ==> s[j] != b,
        decreases i,
    {
        if data[i - 1] == b {
            proof {
                assert(s[i - 1 - from] == b);
                lemma_find_last_byte_unique(s, b, i - 1 - from);
            }
            return Some(i - 1);
        }
        proof {
            assert(s[i - 1 - from] == data@[i as int - 1]);
        }
        i = i - 1;
    }
    proof {
        lemma_find_last_byte_props(s, b);
        if find_last_byte(s, b) is Some {
            let k = find_last_byte(s, b)->Some_0;
            assert(s[k] != b);
        }
    }
    None
}

/// Whether every byte in `from..to` is an ASCII letter.
pub fn all_alpha_bytes(data: &[u8], from: usize, to: usize) -> (r: bool)
    requires
        from <= to <= data@.len(),
    ensures
        r == (forall|j: int| from <= j < to ==> is_alpha_byte(#[trigger] data@[j])),
{
    let mut i = from;
    while i < to
        invariant
            from <= i <= to <= data@.len(),
            forall|j: int| from <= j < i ==> is_alpha_byte(#[trigger] data@[j]),
        decreases to - i,
    {
        if !is_alpha_byte_exec(data[i]) {
            return false;
        }
        i = i + 1;
    }
    true
}

/// The first position in `from..to` whose byte is not a space or tab, or
/// `to`.
pub fn skip_trim(data: &[u8], from: usize, to: usize) -> (a: usize)
    requires
        from <= to <= data@.len(),
    ensures
        from <= a <= to,
        forall|j: int| from <= j < a ==> is_trim_byte(data@[j]),
        a == to || !is_trim_byte(data@[a as int]),
{
    let mut a = from;
    while a < to && is_trim_byte_exec(data[a])
        invariant
            from <= a <= to <= data@.len(),
            forall|j: int| from <= j < a ==> is_trim_byte(data@[j]),
        decreases to - a,
    {
        a = a + 1;
    }
    a
}

/// Whether every byte in `from..to` may stand in a header key.
pub fn all_key_bytes(data: &[u8], from: usize, to: usize) -> (r: bool)
    requires
        from <= to <= data@.len(),
    ensures
        r == (forall|j: int| from <= j < to ==> is_key_byte(#[trigger] data@[j])),
{
    let mut i = from;
    while i < to
        invariant
            from <= i <= to <= data@.len(),
            forall|j: int| from <= j < i ==> is_key_byte(#[trigger] data@[j]),
        decreases to - i,
    {
        if !is_key_byte_exec(data[i]) {
            return false;
        }
        i = i + 1;
    }
    true
}

/// The bytes `from..to`, folded to ASCII lowercase.
pub fn fold_key_vec(data: &[u8], from: usize, to: usize) -> (r: Vec<u8>)
    requires
        from <= to <= data@.len(),
    ensures
        r@ =~= lower_bytes(data@.subrange(from as int, to as int)),
{
    let mut r: Vec<u8> = Vec::new();
    let mut i = from;
    while i < to
        invariant
            from <= i <= to <= data@.len(),
            r@ =~= lower_bytes(data@.subrange(from as int, i as int)),
        decreases to - i,
    {
        r.push(lower_byte_exec(data[i]));
        proof {
            assert(lower_bytes(data@.subrange(from as int, i + 1)) =~= lower_bytes(
                data@.subrange(from as int, i as int),
            ).push(lower_byte(data@[i as int])));
        }
        i = i + 1;
    }
    r
}

/// A nonempty valid UTF-8 sequence starts with a leading byte, never a
/// continuation byte.
pub proof fn lemma_first_byte_not_continuation(s: Seq<u8>)
    requires
        valid_utf8(s),
        s.len() > 0,
    ensures
        !is_continuation_byte(s[0]),
{
    assert(valid_first_scalar(s));
}

/// In a valid UTF-8 sequence, a byte that follows an ASCII byte is never a
/// continuation byte: the positions around ASCII bytes are character
/// boundaries.
pub proof fn lemma_byte_after_ascii_not_continuation(s: Seq<u8>, i: int)
    requires
        valid_utf8(s),
        0 <= i < s.len(),
        i == 0 || s[i - 1] < 128,
    ensures
        !is_continuation_byte(s[i]),
{
    if i == 0 {
        lemma_first_byte_not_continuation(s);
    } else {
        is_char_boundary_iff_not_is_continuation_byte(s, i - 1);
        valid_utf8_split(s, i - 1);
        let suf = s.subrange(i - 1, s.len() as int);
        assert(valid_first_scalar(suf));
        assert(is_leading_byte_width_1(suf[0]));
        assert(length_of_first_scalar(suf) == 1);
        let rest = pop_first_scalar(suf);
        assert(valid_utf8(rest));
        assert(rest =~= s.subrange(i, s.len() as int));
        lemma_first_byte_not_continuation(rest);
        assert(rest[0] == s[i]);
    }
}

/// A subrange of a valid UTF-8 sequence whose two cut points do not fall on
/// continuation bytes is itself valid UTF-8.
pub proof fn lemma_subrange_valid_utf8(s: Seq<u8>, i: int, j: int)
    requires
        valid_utf8(s),
        0 <= i <= j <= s.len(),
        i == s.len() || !is_continuation_byte(s[i]),
        j == s.len() || !is_continuation_byte(s[j]),
    ensures
        valid_utf8(s.subrange(i, j)),
{
    if i == j {
        assert(s.subrange(i, j) =~= Seq::<u8>::empty());
    } else {
        if j == s.len() {
            is_char_boundary_start_end_of_seq(s);
        } else {
            is_char_boundary_iff_not_is_continuation_byte(s, j);
        }
        valid_utf8_split(s, j);
        let p = s.subrange(0, j);
        assert(p[i] == s[i]);
        is_char_boundary_iff_not_is_continuation_byte(p, i);
        valid_utf8_split(p, i);
        assert(p.subrange(i, p.len() as int) =~= s.subrange(i, j));
    }
}

/// ASCII bytes are valid UTF-8 and decode to themselves, character for
/// character.
pub proof fn lemma_ascii_decode(s: Seq<u8>)
    requires
        ascii_seq(s),
    ensures
        valid_utf8(s),
        decode_utf8(s) == chars_of_ascii(s),
    decreases s.len(),
{
    if s.len() == 0 {
        assert(decode_utf8(s) =~= chars_of_ascii(s));
    } else {
        let b = s[0];
        assert(b < 128);
        assert(is_leading_byte_width_1(b));
        assert(b & 0x7f == b) by (bit_vector)
            requires
                b < 128,
        ;
        assert(vstd::utf8::codepoint_width_1(b) == b as u32);
        assert(valid_first_scalar(s));
        let rest = pop_first_scalar(s);
        assert(rest =~= s.drop_first());
        lemma_ascii_decode(s.drop_first());
        assert(valid_utf8(s));
        assert((b as u32) as char == b as char);
        assert(decode_utf8(s) =~= chars_of_ascii(s));
    }
}

/// Relies on `String::from_utf8`: it returns `Ok` exactly when the bytes
/// are valid UTF-8, and then decodes them by the UTF-8 scheme, the same
/// scheme that vstd's `valid_utf8` and `decode_utf8` specify.
#[verifier::external_body]
pub(crate) fn vec_to_string(v: Vec<u8>) -> (r: Option<String>)
    ensures
        r is Some <==> valid_utf8(v@),
        r matches Some(s) ==> s@ == decode_utf8(v@),
{
    match String::from_utf8(v) {
        Ok(s) => Some(s),
        Err(_) => None,
    }
}

} // verus!
