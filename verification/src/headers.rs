//! The header parser: takes `Key: Value` lines off the front of the
//! buffered bytes, folds keys to lowercase, and merges duplicate keys in
//! encounter order with `, `.

use crate::errors::RequestError;
use crate::text::chars_of_ascii;
use crate::text::find_byte;
use crate::text::fold_char;
use crate::text::fold_chars;
use crate::text::find_crlf;
use crate::text::find_crlf_exec;
use crate::text::is_key_byte;
use crate::text::lower_byte;
use crate::text::lower_bytes;
use crate::text::trim_bytes;
use crate::text::trim_front;
use vstd::prelude::*;
use vstd::utf8::decode_utf8;
use vstd::utf8::is_ascii_chars;
use vstd::utf8::valid_utf8;

verus! {

/// The separator put between the values of a repeated header.
pub open spec fn comma_space() -> Seq<char> {
    seq![',', ' ']
}

/// The lowercase characters under which a raw (already validated) key is
/// stored.
pub open spec fn folded_key(k: Seq<u8>) -> Seq<char> {
    chars_of_ascii(lower_bytes(k))
}

/// The index of the entry with key `k`, if one exists.
pub open spec fn find_key(m: Seq<(Seq<char>, Seq<char>)>, k: Seq<char>) -> Option<int>
    decreases m.len(),
{
    if m.len() == 0 {
        None
    } else if m[0].0 == k {
        Some(0)
    } else {
        match find_key(m.drop_first(), k) {
            Some(i) => Some(i + 1),
            None => None,
        }
    }
}

/// The value stored under key `k`, if any.
pub open spec fn map_get(m: Seq<(Seq<char>, Seq<char>)>, k: Seq<char>) -> Option<Seq<char>> {
    match find_key(m, k) {
        Some(i) => Some(m[i].1),
        None => None,
    }
}

/// Insertion with duplicate merging: a fresh key is appended; a key already
/// present keeps its entry and its position, and the new value is appended
/// to the old one after `, `.
pub open spec fn insert_header(
    m: Seq<(Seq<char>, Seq<char>)>,
    k: Seq<char>,
    v: Seq<char>,
) -> Seq<(Seq<char>, Seq<char>)> {
    match find_key(m, k) {
        Some(i) => m.update(i, (k, m[i].1 + comma_space() + v)),
        None => m.push((k, v)),
    }
}

/// Well-formed header map: keys are unique and ASCII (they were folded from
/// validated ASCII key bytes).
pub open spec fn header_map_wf(m: Seq<(Seq<char>, Seq<char>)>) -> bool {
    &&& forall|i: int, j: int| 0 <= i < j < m.len() ==> m[i].0 != m[j].0
    &&& forall|i: int| 0 <= i < m.len() ==> is_ascii_chars(#[trigger] m[i].0)
}

/// `find_key` returns the first entry with key `k`, or `None` when no entry
/// has that key.
pub proof fn lemma_find_key_props(m: Seq<(Seq<char>, Seq<char>)>, k: Seq<char>)
    ensures
        match find_key(m, k) {
            Some(i) => 0 <= i < m.len() && m[i].0 == k && (forall|j: int|
                0 <= j < i ==> m[j].0 != k),
            None => forall|j: int| 0 <= j < m.len() ==> m[j].0 != k,
        },
    decreases m.len(),
{
    if m.len() == 0 {
    } else if m[0].0 == k {
    } else {
        let t = m.drop_first();
        lemma_find_key_props(t, k);
        match find_key(t, k) {
            Some(i) => {
                assert forall|j: int| 0 <= j < i + 1 implies m[j].0 != k by {
                    if j > 0 {
                        assert(t[j - 1] == m[j]);
                    }
                }
            },
            None => {
                assert forall|j: int| 0 <= j < m.len() implies m[j].0 != k by {
                    if j > 0 {
                        assert(t[j - 1] == m[j]);
                    }
                }
            },
        }
    }
}

/// An entry with key `k` and none before it is exactly what `find_key`
/// returns.
pub proof fn lemma_find_key_unique(m: Seq<(Seq<char>, Seq<char>)>, k: Seq<char>, i: int)
    requires
        0 <= i < m.len(),
        m[i].0 == k,
        forall|j: int| 0 <= j < i ==> m[j].0 != k,
    ensures
        find_key(m, k) == Some(i),
{
    lemma_find_key_props(m, k);
    match find_key(m, k) {
        Some(n) => {
            if n < i {
                assert(m[n].0 != k);
            } else if i < n {
                assert(m[i].0 != k);
            }
        },
        None => {
            assert(m[i].0 != k);
        },
    }
}

/// A key produced by `header_fields` is ASCII: it was folded from bytes
/// that passed the key-character check.
pub proof fn lemma_header_fields_key_ascii(line: Seq<u8>)
    ensures
        header_fields(line) matches Some(kv) ==> is_ascii_chars(kv.0),
{
    if header_fields(line) is Some {
        let kv = header_fields(line)->Some_0;
        let c = find_byte(line, 58)->Some_0;
        let key = trim_front(line.subrange(0, c));
        assert(kv.0 == folded_key(key));
        assert forall|i: int| 0 <= i < kv.0.len() implies '\0' <= #[trigger] kv.0[i]
            <= '\u{7f}' by {
            assert(is_key_byte(key[i]));
            assert(kv.0[i] == lower_byte(key[i]) as char);
            assert(lower_byte(key[i]) < 128);
        }
    }
}

/// Law: header keys are case-folded for storage. A key that
/// `header_fields` accepts is its own lowercase folding, so — since
/// lookups fold the queried name the same way — the header is retrievable
/// exactly under that folded name.
pub proof fn lemma_stored_keys_folded(line: Seq<u8>)
    ensures
        header_fields(line) matches Some(kv) ==> kv.0 == fold_chars(kv.0),
{
    if header_fields(line) is Some {
        let kv = header_fields(line)->Some_0;
        let c = find_byte(line, 58)->Some_0;
        let key = trim_front(line.subrange(0, c));
        assert(kv.0 == folded_key(key));
        assert forall|i: int| 0 <= i < kv.0.len() implies fold_chars(kv.0)[i] == #[trigger] kv.0[i] by {
            assert(is_key_byte(key[i]));
            assert(kv.0[i] == lower_byte(key[i]) as char);
            assert(!(65 <= lower_byte(key[i]) <= 90));
            assert(!('A' <= kv.0[i] <= 'Z'));
        }
        assert(kv.0 =~= fold_chars(kv.0));
    }
}

/// For ASCII text, folding the bytes and folding the characters spell the
/// same characters.
proof fn lemma_fold_ascii_bytes(s: Seq<char>, b: Seq<u8>)
    requires
        is_ascii_chars(s),
        b.len() == s.len(),
        forall|i: int| 0 <= i < s.len() ==> b[i] == #[trigger] s[i] as u8,
    ensures
        chars_of_ascii(lower_bytes(b)) =~= fold_chars(s),
{
    assert forall|i: int| 0 <= i < s.len() implies chars_of_ascii(lower_bytes(b))[i] == fold_chars(
        s,
    )[i] by {
        let c = s[i];
        assert('\0' <= c <= '\u{7f}');
        assert(b[i] == c as u8);
        if 'A' <= c <= 'Z' {
            assert(65 <= b[i] <= 90);
            assert(lower_byte(b[i]) == (b[i] + 32) as u8);
        } else {
            assert(!(65 <= b[i] <= 90));
            assert(lower_byte(b[i]) == b[i]);
            assert(b[i] as char == c);
        }
    }
}

/// Law: duplicate headers merge in encounter order. Inserting a key that
/// is not yet present and then inserting it again leaves a single entry
/// for it, whose value is the first value, then `, `, then the second.
pub proof fn lemma_duplicate_merge(
    m: Seq<(Seq<char>, Seq<char>)>,
    k: Seq<char>,
    v1: Seq<char>,
    v2: Seq<char>,
)
    requires
        find_key(m, k) is None,
    ensures
        ({
            let m2 = insert_header(insert_header(m, k, v1), k, v2);
            &&& m2.len() == m.len() + 1
            &&& map_get(m2, k) == Some(v1 + comma_space() + v2)
        }),
{
    let m1 = insert_header(m, k, v1);
    lemma_find_key_props(m, k);
    assert(m1 == m.push((k, v1)));
    lemma_find_key_unique(m1, k, m.len() as int);
    let m2 = insert_header(m1, k, v2);
    lemma_find_key_unique(m2, k, m.len() as int);
}

/// The key and value spelled by one nonempty header line (the bytes before
/// its CRLF), or `None` when the line is rejected: bytes that are not valid
/// UTF-8, no `:`, a space immediately before the `:`, or a character in the
/// key (after stripping leading whitespace) that is not an ASCII letter,
/// digit, `-` or `_`. The key is folded to lowercase; the value keeps its
/// text with surrounding whitespace stripped.
pub open spec fn header_fields(line: Seq<u8>) -> Option<(Seq<char>, Seq<char>)> {
    if !valid_utf8(line) {
        None
    } else {
        match find_byte(line, 58) {
            None => None,
            Some(c) => {
                let raw_key = line.subrange(0, c);
                let raw_val = line.subrange(c + 1, line.len() as int);
                if raw_key.len() > 0 && raw_key[raw_key.len() - 1] == 32 {
                    None
                } else {
                    let key = trim_front(raw_key);
                    if !(forall|i: int| 0 <= i < key.len() ==> is_key_byte(#[trigger] key[i])) {
                        None
                    } else {
                        Some((folded_key(key), decode_utf8(trim_bytes(raw_val))))
                    }
                }
            },
        }
    }
}

/// One attempt to take a header line off the front of the buffer:
/// `Ok((None, 0))` when no full line is buffered yet (nothing consumed, no
/// error), `Ok((None, 2))` for the terminating blank line, `Ok((Some((key,
/// value)), n))` for a header line of `n` bytes (its CRLF included), and
/// `Err(InvalidHeader)` for a rejected line.
pub open spec fn header_step(s: Seq<u8>) -> Result<
    (Option<(Seq<char>, Seq<char>)>, int),
    RequestError,
> {
    match find_crlf(s) {
        None => Ok((None, 0)),
        Some(pos) => {
            if pos == 0 {
                Ok((None, 2))
            } else {
                match header_fields(s.subrange(0, pos)) {
                    None => Err(RequestError::InvalidHeader),
                    Some(kv) => Ok((Some(kv), pos + 2)),
                }
            }
        },
    }
}

/// The header section of one request: a map from folded key to merged
/// value, in first-seen order.
#[derive(Debug)]
pub struct Headers {
    /// The entries, each a folded key with its (possibly merged) value.
    pub entries: Vec<(String, String)>,
}

impl View for Headers {
    type V = Seq<(Seq<char>, Seq<char>)>;

    open spec fn view(&self) -> Seq<(Seq<char>, Seq<char>)> {
        Seq::new(self.entries@.len(), |i: int| (self.entries@[i].0@, self.entries@[i].1@))
    }
}

impl Headers {
    /// The invariant of a header map built by this parser.
    pub open spec fn wf(&self) -> bool {
        header_map_wf(self@)
    }

    /// An empty header map.
    pub fn new() -> (r: Self)
        ensures
            r@ =~= Seq::<(Seq<char>, Seq<char>)>::empty(),
            r.wf(),
    {
        Headers { entries: Vec::new() }
    }

    /// How many distinct keys are stored.
    pub fn len(&self) -> (r: usize)
        ensures
            r == self@.len(),
    {
        self.entries.len()
    }

    /// Whether no header has been stored yet.
    pub fn is_empty(&self) -> (r: bool)
        ensures
            r == (self@.len() == 0),
    {
        self.entries.is_empty()
    }

    /// Examine the front of `data` for one header line. Mirrors
    /// `header_step`: no full line gives `Ok((None, 0))`, the terminating
    /// blank line gives `Ok((None, 2))`, a valid header line gives its
    /// folded key and trimmed value with the line's byte count, and a
    /// rejected line gives `Err(InvalidHeader)`.
    fn parse_header(data: &[u8]) -> (r: Result<(Option<(String, String)>, usize), RequestError>)
        ensures
            ({
                let step = header_step(data@);
                match r {
                    Ok((opt, n)) => {
                        &&& step is Ok
                        &&& n as int == step->Ok_0.1
                        &&& (match opt {
                            Some(kv) => step->Ok_0.0 == Some((kv.0@, kv.1@)),
                            None => step->Ok_0.0 is None,
                        })
                    },
                    Err(e) => step == Err::<(Option<(Seq<char>, Seq<char>)>, int), RequestError>(
                        e,
                    ),
                }
            }),
    {
        let pos = match find_crlf_exec(data) {
            None => {
                return Ok((None, 0));
            },
            Some(pos) => pos,
        };
        if pos == 0 {
            return Ok((None, 2));
        }
        let dlen = data.len();
        proof {
            crate::text::lemma_find_crlf_props(data@);
            assert(crate::text::crlf_at(data@, pos as int));
            assert(pos + 2 <= dlen);
        }
        let line = vstd::slice::slice_subrange(data, 0, pos);
        let ghost ls = data@.subrange(0, pos as int);
        // The whole line must be text: reject bytes that are not valid UTF-8.
        if crate::text::vec_to_string(crate::text::subvec(line, 0, line.len())).is_none() {
            proof {
                assert(line@.subrange(0, line@.len() as int) =~= ls);
            }
            return Err(RequestError::InvalidHeader);
        }
        proof {
            assert(line@.subrange(0, line@.len() as int) =~= ls);
            assert(valid_utf8(ls));
        }
        // Split at the first colon.
        let colon = match crate::text::find_byte_exec(line, 58) {
            None => {
                return Err(RequestError::InvalidHeader);
            },
            Some(c) => c,
        };
        proof {
            crate::text::lemma_find_byte_props(line@, 58);
            assert(0 <= colon < ls.len() && ls[colon as int] == 58);
        }
        // A space immediately before the colon is illegal.
        if colon > 0 && line[colon - 1] == 32 {
            proof {
                let raw_key = ls.subrange(0, colon as int);
                assert(raw_key[raw_key.len() - 1] == 32);
            }
            return Err(RequestError::InvalidHeader);
        }
        // Strip leading whitespace from the key.
        let a = crate::text::skip_trim(line, 0, colon);
        let ghost key = ls.subrange(a as int, colon as int);
        proof {
            let raw_key = ls.subrange(0, colon as int);
            crate::text::lemma_trim_front_subrange(raw_key, a as int);
            assert(trim_front(raw_key) =~= key);
        }
        // Every remaining key character must be a letter, digit, `-` or `_`.
        if !crate::text::all_key_bytes(line, a, colon) {
            proof {
                let tf = trim_front(ls.subrange(0, colon as int));
                assert(tf == key);
                if forall|i: int| 0 <= i < tf.len() ==> is_key_byte(#[trigger] tf[i]) {
                    assert forall|j: int| a <= j < colon implies is_key_byte(#[trigger] ls[j]) by {
                        assert(tf[j - a] == ls[j]);
                        assert(is_key_byte(tf[j - a]));
                    }
                    assert(false);
                }
                assert(header_fields(ls) is None);
            }
            return Err(RequestError::InvalidHeader);
        }
        // Fold the key to lowercase.
        let key_vec = crate::text::fold_key_vec(line, a, colon);
        proof {
            assert(key_vec@ =~= lower_bytes(key));
            assert forall|j: int| 0 <= j < key.len() implies is_key_byte(#[trigger] key[j]) by {
                assert(key[j] == ls[j + a]);
            }
            assert(crate::text::ascii_seq(key_vec@)) by {
                assert forall|j: int| 0 <= j < key_vec@.len() implies key_vec@[j] < 128 by {
                    assert(key_vec@[j] == lower_byte(key[j]));
                    assert(is_key_byte(key[j]));
                }
            }
            crate::text::lemma_ascii_decode(key_vec@);
        }
        let key_str = match crate::text::vec_to_string(key_vec) {
            Some(s) => s,
            None => {
                return Err(RequestError::InvalidHeader);
            },
        };
        proof {
            assert(key_str@ =~= folded_key(key));
        }
        // Trim the value and keep its text.
        let (va, vb) = crate::text::trim_range(line, colon + 1, pos);
        proof {
            let raw_val = ls.subrange(colon + 1, ls.len() as int);
            assert(line@.subrange(colon + 1, line@.len() as int) =~= raw_val);
            assert(trim_bytes(raw_val) == ls.subrange(va as int, vb as int));
            // The trimmed value region is cut at character boundaries: the
            // byte before the region is the colon or trimmed whitespace,
            // both ASCII, and the byte after it is trimmed whitespace.
            if va < vb {
                assert(ls[va as int - 1] < 128);
                crate::text::lemma_byte_after_ascii_not_continuation(ls, va as int);
            }
            if vb < ls.len() {
                assert(!vstd::utf8::is_continuation_byte(ls[vb as int]));
            }
            crate::text::lemma_subrange_valid_utf8(ls, va as int, vb as int);
        }
        let val_vec = crate::text::subvec(line, va, vb);
        let val_str = match crate::text::vec_to_string(val_vec) {
            Some(s) => s,
            None => {
                return Err(RequestError::InvalidHeader);
            },
        };
        proof {
            assert(val_str@ == decode_utf8(trim_bytes(ls.subrange(colon + 1, ls.len() as int))));
            assert(header_fields(ls) == Some((key_str@, val_str@)));
        }
        Ok((Some((key_str, val_str)), pos + 2))
    }

    /// Look a header up by name. The name is folded to lowercase first, so
    /// the lookup is case-insensitive, matching how keys are stored.
    pub fn get(&self, key: &str) -> (r: Option<&String>)
        requires
            self.wf(),
        ensures
            match r {
                Some(v) => map_get(self@, fold_chars(key@)) == Some(v@),
                None => map_get(self@, fold_chars(key@)) is None,
            },
    {
        if !key.is_ascii() {
            proof {
                assert(!is_ascii_chars(key@));
                let w = choose|w: int| 0 <= w < key@.len() && !('\0' <= #[trigger] key@[w]
                    <= '\u{7f}');
                assert(0 <= w < key@.len() && !('\0' <= key@[w] <= '\u{7f}'));
                assert(fold_chars(key@)[w] == fold_char(key@[w]));
                assert(fold_char(key@[w]) == key@[w]);
                assert forall|j: int| 0 <= j < self@.len() implies self@[j].0 != fold_chars(
                    key@,
                ) by {
                    if self@[j].0 == fold_chars(key@) {
                        assert(is_ascii_chars(self@[j].0));
                        assert(self@[j].0[w] == fold_chars(key@)[w]);
                    }
                }
                lemma_find_key_props(self@, fold_chars(key@));
                if find_key(self@, fold_chars(key@)) is Some {
                    let i = find_key(self@, fold_chars(key@))->Some_0;
                    assert(self@[i].0 != fold_chars(key@));
                }
            }
            return None;
        }
        let kb = key.as_bytes();
        proof {
            vstd::string::is_ascii_spec_bytes(key);
            assert(kb@.len() == key@.len());
        }
        let fv = crate::text::fold_key_vec(kb, 0, kb.len());
        proof {
            assert(kb@.subrange(0, kb@.len() as int) =~= kb@);
            assert(crate::text::ascii_seq(fv@)) by {
                assert forall|j: int| 0 <= j < fv@.len() implies fv@[j] < 128 by {
                    assert(fv@[j] == lower_byte(kb@[j]));
                    assert(kb@[j] == key@[j] as u8);
                    assert('\0' <= key@[j] <= '\u{7f}');
                }
            }
            crate::text::lemma_ascii_decode(fv@);
            lemma_fold_ascii_bytes(key@, kb@);
        }
        let folded = match crate::text::vec_to_string(fv) {
            Some(s) => s,
            None => {
                proof {
                    assert(false);
                }
                return None;
            },
        };
        proof {
            assert(folded@ == fold_chars(key@));
        }
        let n = self.entries.len();
        let mut i: usize = 0;
        while i < n
            invariant
                n == self.entries@.len(),
                i <= n,
                folded@ == fold_chars(key@),
                forall|j: int| 0 <= j < i ==> self@[j].0 != fold_chars(key@),
            decreases n - i,
        {
            if self.entries[i].0 == folded {
                proof {
                    lemma_find_key_unique(self@, fold_chars(key@), i as int);
                }
                return Some(&self.entries[i].1);
            }
            i = i + 1;
        }
        proof {
            lemma_find_key_props(self@, fold_chars(key@));
            if find_key(self@, fold_chars(key@)) is Some {
                let k = find_key(self@, fold_chars(key@))->Some_0;
                assert(self@[k].0 != fold_chars(key@));
            }
        }
        None
    }

    /// One parse attempt against the front of `data`. Returns how many
    /// bytes were interpreted (0 when no full line is buffered yet, which
    /// is not an error) and whether the terminating blank line was reached.
    /// A parsed header line is stored, merging duplicates; the blank line
    /// and the no-line case leave the map unchanged.
    pub fn parse(&mut self, data: &[u8]) -> (r: Result<(usize, bool), RequestError>)
        requires
            old(self).wf(),
        ensures
            final(self).wf(),
            ({
                let step = header_step(data@);
                match step {
                    Ok((opt, n)) => match opt {
                        Some(kv) => r == Ok::<(usize, bool), RequestError>((n as usize, false))
                            && final(self)@ =~= insert_header(old(self)@, kv.0, kv.1),
                        None => r == Ok::<(usize, bool), RequestError>((n as usize, n == 2))
                            && *final(self) == *old(self),
                    },
                    Err(e) => r == Err::<(usize, bool), RequestError>(e) && *final(self) == *old(
                        self,
                    ),
                }
            }),
    {
        match Self::parse_header(data) {
            Err(e) => Err(e),
            Ok((opt, consumed)) => match opt {
                None => {
                    if consumed > 0 {
                        Ok((consumed, true))
                    } else {
                        Ok((consumed, false))
                    }
                },
                Some((key, value)) => {
                    proof {
                        let pos = crate::text::find_crlf(data@)->Some_0;
                        lemma_header_fields_key_ascii(data@.subrange(0, pos));
                    }
                    self.insert(key, value);
                    Ok((consumed, false))
                },
            },
        }
    }

    /// Store a parsed (already folded and validated) key with its value,
    /// merging into an existing entry when the key is already present.
    fn insert(&mut self, key: String, value: String)
        requires
            old(self).wf(),
            is_ascii_chars(key@),
        ensures
            final(self).wf(),
            final(self)@ =~= insert_header(old(self)@, key@, value@),
    {
        let n = self.entries.len();
        let mut i: usize = 0;
        while i < n
            invariant
                old(self).wf(),
                is_ascii_chars(key@),
                n == self.entries@.len(),
                i <= n,
                self.entries@ == old(self).entries@,
                forall|j: int| 0 <= j < i ==> self@[j].0 != key@,
            decreases n - i,
        {
            if self.entries[i].0 == key {
                proof {
                    assert(self@ =~= old(self)@);
                    lemma_find_key_unique(old(self)@, key@, i as int);
                }
                let stored_key = self.entries[i].0.clone();
                let mut merged = self.entries[i].1.clone();
                merged.append(", ");
                merged.append(value.as_str());
                self.entries.set(i, (stored_key, merged));
                proof {
                    reveal_strlit(", ");
                    assert(", "@ =~= comma_space());
                    assert(self@ =~= insert_header(old(self)@, key@, value@));
                    assert forall|p: int, q: int|
                        0 <= p < q < self@.len() implies self@[p].0 != self@[q].0 by {
                        assert(self@[p].0 == old(self)@[p].0);
                        assert(self@[q].0 == old(self)@[q].0);
                    }
                    assert forall|p: int| 0 <= p < self@.len() implies is_ascii_chars(
                        #[trigger] self@[p].0,
                    ) by {
                        assert(self@[p].0 == old(self)@[p].0);
                    }
                }
                return ;
            }
            i = i + 1;
        }
        proof {
            assert(self@ =~= old(self)@);
        }
        let ghost pre = self@;
        self.entries.push((key, value));
        proof {
            assert(pre == old(self)@);
            lemma_find_key_props(old(self)@, key@);
            if find_key(old(self)@, key@) is Some {
                let k = find_key(old(self)@, key@)->Some_0;
                assert(old(self)@[k].0 != key@);
            }
            assert(self@ =~= old(self)@.push((key@, value@)));
            assert forall|p: int, q: int|
                0 <= p < q < self@.len() implies self@[p].0 != self@[q].0 by {
                if q < old(self)@.len() {
                    assert(self@[p].0 == old(self)@[p].0);
                    assert(self@[q].0 == old(self)@[q].0);
                } else {
                    assert(self@[p].0 == old(self)@[p].0);
                    assert(self@[q].0 == key@);
                }
            }
            assert forall|p: int| 0 <= p < self@.len() implies is_ascii_chars(
                #[trigger] self@[p].0,
            ) by {
                if p < old(self)@.len() {
                    assert(self@[p].0 == old(self)@[p].0);
                } else {
                    assert(self@[p].0 == key@);
                }
            }
        }
    }
}

} // verus!
