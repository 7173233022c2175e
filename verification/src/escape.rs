//! Escaping of text for XML attribute values and character data.
//!
//! Markup characters (`&`, `'`, `"`, `<`, `>`) become named entity
//! references and non-ASCII characters become numeric character references,
//! so that the escaped text is plain ASCII. Characters that XML 1.0 cannot
//! carry at all are first rewritten as `\x..` escapes by
//! `escape_invalid_chars`.

use vstd::prelude::*;
use vstd::slice::slice_to_vec;
use vstd::string::*;
use vstd::utf8::*;

use crate::text::{
    all_digits, decimal, digits, digits_value, hex2, hex_digit_char, lemma_decimal_digits, lemma_single_char_encoding, push_decimal, push_hex2, push_str, str_from_utf8,
    string_from_chars, string_from_utf8, string_from_utf8_lossy, utf8_lossy,
};

verus! {

broadcast use vstd::utf8::group_utf8_lib;

/// The named entity that stands for the markup byte `c`, if `c` is one.
pub open spec fn low_entity(c: u8) -> Option<Seq<char>> {
    if c == 38 {
        Some("&amp;"@)
    } else if c == 39 {
        Some("&apos;"@)
    } else if c == 34 {
        Some("&quot;"@)
    } else if c == 60 {
        Some("&lt;"@)
    } else if c == 62 {
        Some("&gt;"@)
    } else {
        None
    }
}

/// The named entity for the markup byte `c` (`&`, `'`, `"`, `<`, `>`), or
/// `None` for any other byte.
pub fn escape_low(c: u8) -> (res: Option<&'static str>)
    ensures
        match res {
            Some(s) => low_entity(c) == Some(s@),
            None => low_entity(c) is None,
        },
{
    if c == 38 {
        Some("&amp;")
    } else if c == 39 {
        Some("&apos;")
    } else if c == 34 {
        Some("&quot;")
    } else if c == 60 {
        Some("&lt;")
    } else if c == 62 {
        Some("&gt;")
    } else {
        None
    }
}

/// The numeric character reference for `c`: `&#` and its code point in
/// decimal, then `;`.
pub open spec fn numeric_reference(c: char) -> Seq<char> {
    "&#"@ + decimal((c as u32) as nat) + ";"@
}

/// The reference that stands for the character `c`: its named entity when
/// it is an ASCII markup character, else its numeric reference.
pub open spec fn char_reference(c: char) -> Seq<char> {
    if (c as u32) < 128 && low_entity(c as u8) is Some {
        low_entity(c as u8)->0
    } else {
        numeric_reference(c)
    }
}

/// The numeric references of each character of `cs`, one after another.
pub open spec fn numeric_references(cs: Seq<char>) -> Seq<char>
    decreases cs.len(),
{
    if cs.len() == 0 {
        seq![]
    } else {
        numeric_references(cs.drop_last()) + numeric_reference(cs.last())
    }
}

/// The bytes that replace a run `m` of bytes matched in raw UTF-8 input: the
/// named entity when `m` is a single markup byte, else the numeric
/// references of the characters that `m` encodes.
pub open spec fn utf8_match_reference(m: Seq<u8>) -> Seq<u8> {
    if m.len() == 1 && low_entity(m[0]) is Some {
        encode_utf8(low_entity(m[0])->0)
    } else {
        encode_utf8(numeric_references(decode_utf8(m)))
    }
}

/// Whether `utf8_escape_replace` can rewrite the run `m`: it is a single
/// markup byte, or valid UTF-8.
pub open spec fn utf8_match_ok(m: Seq<u8>) -> bool {
    (m.len() == 1 && low_entity(m[0]) is Some) || valid_utf8(m)
}

/// Appends the numeric character reference of `c` to `out`.
fn push_numeric_reference(out: &mut Vec<char>, c: char)
    ensures
        final(out)@ == old(out)@ + numeric_reference(c),
{
    push_str(out, "&#");
    push_decimal(out, c as u32 as u64);
    push_str(out, ";");
    assert(final(out)@ =~= old(out)@ + numeric_reference(c));
}

/// The replacement for a text `m` of exactly one character: its named entity
/// when it is an ASCII markup character, else its numeric reference.
pub fn unicode_escape_replace(m: &str) -> (res: String)
    requires
        m@.len() == 1,
    ensures
        res@ == char_reference(m@[0]),
{
    let c = m.get_char(0);
    proof {
        assert(m@ =~= seq![c]);
        lemma_single_char_encoding(c);
    }
    if m.len() == 1 {
        if let Some(ret) = escape_low(c as u8) {
            return ret.to_owned();
        }
    }
    let mut out: Vec<char> = Vec::new();
    push_numeric_reference(&mut out, c);
    string_from_chars(&out)
}

/// The replacement for a run `m` of bytes matched in raw UTF-8 input: the
/// named entity when `m` is a single markup byte, else the numeric
/// references of the characters that `m` encodes.
pub fn utf8_escape_replace(m: &[u8]) -> (res: Vec<u8>)
    requires
        utf8_match_ok(m@),
    ensures
        res@ == utf8_match_reference(m@),
{
    if m.len() == 1 {
        if let Some(ret) = escape_low(m[0]) {
            return slice_to_vec(ret.as_bytes());
        }
    }
    match str_from_utf8(m) {
        Some(text) => {
            let mut out: Vec<char> = Vec::new();
            for c in it: text.chars()
                invariant
                    it.seq() == text@,
                    out@ == numeric_references(text@.take(it.index() as int)),
            {
                push_numeric_reference(&mut out, c);
                assert(text@.take(it.index() + 1).drop_last() =~= text@.take(it.index() as int));
            }
            assert(text@.take(text@.len() as int) =~= text@);
            let s = string_from_chars(&out);
            slice_to_vec(s.as_str().as_bytes())
        },
        None => {
            assert(false);
            Vec::new()
        },
    }
}

/// Whether `c` cannot stand in XML text: an ASCII control character other
/// than tab, line feed, carriage return and DEL, or U+FFFE, U+FFFF (the
/// surrogate range is tested too, though no `char` falls in it).
pub open spec fn invalid_xml_char(c: char) -> bool {
    let n = c as u32;
    !(c == '\t' || c == '\n' || c == '\r' || c == '\x7f') && ((n < 0x20 || n == 0x7f) || (0xD7FF
        < n && n < 0xE000) || (0xFFFD < n && n < 0x10000))
}

/// What `escape_invalid_chars` makes of one character.
pub open spec fn escape_invalid_piece(c: char) -> Seq<char> {
    if invalid_xml_char(c) {
        "\\x"@ + hex2((c as u32) as nat)
    } else {
        seq![c]
    }
}

/// `s` with each character that XML cannot carry written as `\x` and its
/// code point in (at least two) lower-case hexadecimal digits.
pub open spec fn escape_invalid(s: Seq<char>) -> Seq<char>
    decreases s.len(),
{
    if s.len() == 0 {
        seq![]
    } else {
        escape_invalid(s.drop_last()) + escape_invalid_piece(s.last())
    }
}

/// Rewrites each character of `message` that XML cannot carry as `\x`
/// followed by its code point in lower-case hexadecimal (two digits at
/// least); every other character is kept.
pub fn escape_invalid_chars(message: &str) -> (res: String)
    ensures
        res@ == escape_invalid(message@),
{
    let mut out: Vec<char> = Vec::new();
    for c in it: message.chars()
        invariant
            it.seq() == message@,
            out@ == escape_invalid(message@.take(it.index() as int)),
    {
        let ghost before = out@;
        let n = c as u32;
        if c == '\t' || c == '\n' || c == '\r' || c == '\x7f' {
            out.push(c);
        } else if (n < 0x20 || n == 0x7f) || (n > 0xD7FF && n < 0xE000) || (n > 0xFFFD && n
            < 0x10000) {
            push_str(&mut out, "\\x");
            push_hex2(&mut out, n);
        } else {
            out.push(c);
        }
        assert(out@ =~= before + escape_invalid_piece(c));
        assert(message@.take(it.index() + 1).drop_last() =~= message@.take(it.index() as int));
        assert(message@.take(it.index() + 1).last() == c);
        assert(out@ =~= escape_invalid(message@.take(it.index() + 1)));
    }
    assert(message@.take(message@.len() as int) =~= message@);
    string_from_chars(&out)
}

/// The pattern whose matches `encode_and_escape_string` replaces: one markup
/// character, or one character from U+007F to U+FFFF.
pub const UNICODE_ESCAPE_PATTERN: &'static str = r#"[&<>'"\u{007f}-\u{ffff}]"#;

/// The pattern whose matches `encode_and_escape_bytes` replaces: one markup
/// byte, or a run of bytes from 0x7F to 0xFF.
pub const UTF8_ESCAPE_PATTERN: &'static str = r#"(?-u)[&<>'"]|[\x7f-\xff]+"#;

/// Whether `regex::Regex::new` accepts `pattern`.
pub uninterp spec fn regex_compiles(pattern: Seq<char>) -> bool;

/// The byte ranges (start, end) of the successive matches that
/// `regex::Regex::find_iter` reports for `pattern` in the UTF-8 encoding of
/// `haystack`.
pub uninterp spec fn regex_matches(pattern: Seq<char>, haystack: Seq<char>) -> Seq<(usize, usize)>;

/// Whether `regex::bytes::Regex::new` accepts `pattern`.
pub uninterp spec fn bytes_regex_compiles(pattern: Seq<char>) -> bool;

/// The byte ranges (start, end) of the successive matches that
/// `regex::bytes::Regex::find_iter` reports for `pattern` in `haystack`.
pub uninterp spec fn bytes_regex_matches(pattern: Seq<char>, haystack: Seq<u8>) -> Seq<(usize, usize)>;

/// Byte ranges that lie within `0..len`, each starting no later than it
/// ends and no earlier than the previous one ends.
pub open spec fn spans_in_order(spans: Seq<(usize, usize)>, len: int) -> bool {
    &&& forall|k: int| 0 <= k < spans.len() ==> #[trigger] spans[k].0 <= spans[k].1 <= len
    &&& forall|k: int| 0 < k < spans.len() ==> spans[k - 1].1 <= #[trigger] spans[k].0
}

/// The bytes of the `k`-th span of `spans` in `hay`.
pub open spec fn span_bytes(hay: Seq<u8>, spans: Seq<(usize, usize)>, k: int) -> Seq<u8> {
    hay.subrange(spans[k].0 as int, spans[k].1 as int)
}

/// `regex::Regex::new(pattern)` and then `find_iter(haystack)`: `None` when
/// the pattern does not compile, else the byte ranges of the successive
/// matches. The ranges are named; the contract states what the crate's
/// documentation promises of them: each lies within the haystack, starts
/// no later than it ends and no earlier than the previous match ends, and
/// both its ends fall on character boundaries. For the character class
/// `UNICODE_ESCAPE_PATTERN` it states what the documented semantics of a
/// class and of successive leftmost non-overlapping matches give: the
/// pattern compiles, each match is one character of the class, and no
/// character of the class is left between the matches.
#[verifier::external_body]
fn regex_find_all(pattern: &str, haystack: &str) -> (res: Option<Vec<(usize, usize)>>)
    ensures
        res is Some <==> regex_compiles(pattern@),
        pattern@ == UNICODE_ESCAPE_PATTERN@ ==> res is Some,
        res matches Some(spans) ==> (pattern@ == UNICODE_ESCAPE_PATTERN@ ==> spans_single_chars(
            encode_utf8(haystack@),
            spans@,
        ) && spans_class_chars(encode_utf8(haystack@), spans@) && unicode_gaps_clear(
            encode_utf8(haystack@),
            spans@,
        )),
        res matches Some(spans) ==> {
            &&& spans@ == regex_matches(pattern@, haystack@)
            &&& spans_in_order(spans@, haystack.spec_bytes().len() as int)
            &&& forall|k: int|
                0 <= k < spans@.len() ==> is_char_boundary(haystack.spec_bytes(), #[trigger] spans@[k].0 as int)
                    && is_char_boundary(haystack.spec_bytes(), spans@[k].1 as int)
        },
{
    match regex::Regex::new(pattern) {
        Ok(re) => Some(re.find_iter(haystack).map(|m| (m.start(), m.end())).collect()),
        Err(_) => None,
    }
}

/// `regex::bytes::Regex::new(pattern)` and then `find_iter(haystack)`:
/// `None` when the pattern does not compile, else the byte ranges of the
/// successive matches. The ranges are named; the contract states what the
/// crate's documentation promises of them: each lies within the haystack,
/// starts no later than it ends and no earlier than the previous match ends.
/// For `UTF8_ESCAPE_PATTERN` on valid UTF-8 it states what the documented
/// semantics (leftmost-first alternation, greedy `+`, successive
/// non-overlapping matches) give: the pattern compiles, and each match is a
/// markup byte or a maximal run of bytes from 0x7F, so that the matches
/// fall on character boundaries, are valid UTF-8, and leave between them no
/// character whose bytes the pattern matches.
#[verifier::external_body]
fn bytes_regex_find_all(pattern: &str, haystack: &[u8]) -> (res: Option<Vec<(usize, usize)>>)
    ensures
        res is Some <==> bytes_regex_compiles(pattern@),
        pattern@ == UTF8_ESCAPE_PATTERN@ ==> res is Some,
        res matches Some(spans) ==> (pattern@ == UTF8_ESCAPE_PATTERN@ && valid_utf8(haystack@)
            ==> spans_on_boundaries(haystack@, spans@) && spans_utf8_ok(haystack@, spans@)
            && spans_high_runs(haystack@, spans@) && utf8_gaps_clear(haystack@, spans@)),
        res matches Some(spans) ==> {
            &&& spans@ == bytes_regex_matches(pattern@, haystack@)
            &&& spans_in_order(spans@, haystack@.len() as int)
        },
{
    match regex::bytes::Regex::new(pattern) {
        Ok(re) => Some(re.find_iter(haystack).map(|m| (m.start(), m.end())).collect()),
        Err(_) => None,
    }
}

/// Where the `k`-th gap starts: the end of the span before it, or 0.
pub open spec fn gap_start(spans: Seq<(usize, usize)>, k: int) -> int {
    if k <= 0 {
        0
    } else {
        spans[k - 1].1 as int
    }
}

/// The first `k` spans of `hay` replaced by `reps`, with the gaps before
/// them kept.
pub open spec fn splice_upto(
    hay: Seq<u8>,
    spans: Seq<(usize, usize)>,
    reps: Seq<Seq<u8>>,
    k: int,
) -> Seq<u8>
    decreases k,
{
    if k <= 0 {
        seq![]
    } else {
        splice_upto(hay, spans, reps, k - 1) + hay.subrange(gap_start(spans, k - 1), spans[k - 1].0 as int)
            + reps[k - 1]
    }
}

/// `hay` with the `k`-th span replaced by `reps[k]`, for each `k`.
pub open spec fn splice(hay: Seq<u8>, spans: Seq<(usize, usize)>, reps: Seq<Seq<u8>>) -> Seq<u8> {
    splice_upto(hay, spans, reps, spans.len() as int) + hay.subrange(
        gap_start(spans, spans.len() as int),
        hay.len() as int,
    )
}

fn push_range(out: &mut Vec<u8>, hay: &[u8], from: usize, to: usize)
    requires
        from <= to <= hay@.len(),
    ensures
        final(out)@ == old(out)@ + hay@.subrange(from as int, to as int),
{
    let mut i = from;
    while i < to
        invariant
            from <= i <= to <= hay@.len(),
            out@ == old(out)@ + hay@.subrange(from as int, i as int),
        decreases to - i,
    {
        out.push(hay[i]);
        i = i + 1;
        assert(out@ =~= old(out)@ + hay@.subrange(from as int, i as int));
    }
}

/// `hay` with each span of `spans` replaced by the matching entry of
/// `reps`, the bytes between the spans kept.
pub fn splice_matches(hay: &[u8], spans: &Vec<(usize, usize)>, reps: &Vec<Vec<u8>>) -> (res: Vec<u8>)
    requires
        spans_in_order(spans@, hay@.len() as int),
        reps@.len() == spans@.len(),
    ensures
        res@ == splice(hay@, spans@, crate::lines::byte_seqs(reps@)),
{
    let ghost rs = crate::lines::byte_seqs(reps@);
    let mut out: Vec<u8> = Vec::new();
    let mut pos: usize = 0;
    let mut k: usize = 0;
    while k < spans.len()
        invariant
            k <= spans@.len() == reps@.len(),
            spans_in_order(spans@, hay@.len() as int),
            rs == crate::lines::byte_seqs(reps@),
            pos == gap_start(spans@, k as int),
            pos <= hay@.len(),
            out@ == splice_upto(hay@, spans@, rs, k as int),
        decreases spans@.len() - k,
    {
        let (s, e) = spans[k];
        assert(spans@[k as int].0 <= spans@[k as int].1 <= hay@.len());
        if k > 0 {
            assert(spans@[k - 1].1 <= spans@[k as int].0);
        }
        push_range(&mut out, hay, pos, s);
        let ghost mid = out@;
        let r = &reps[k];
        let mut j: usize = 0;
        while j < r.len()
            invariant
                j <= r@.len(),
                out@ == mid + r@.subrange(0, j as int),
            decreases r@.len() - j,
        {
            out.push(r[j]);
            j = j + 1;
            assert(out@ =~= mid + r@.subrange(0, j as int));
        }
        assert(r@.subrange(0, r@.len() as int) =~= r@);
        assert(rs[k as int] == r@);
        pos = e;
        k = k + 1;
    }
    push_range(&mut out, hay, pos, hay.len());
    out
}

/// A stretch of valid UTF-8 between two character boundaries is valid UTF-8.
proof fn lemma_valid_between_boundaries(b: Seq<u8>, x: int, y: int)
    requires
        valid_utf8(b),
        is_char_boundary(b, x),
        is_char_boundary(b, y),
        0 <= x <= y <= b.len(),
    ensures
        valid_utf8(b.subrange(x, y)),
{
    let p = b.subrange(0, y);
    valid_utf8_split(b, y);
    if x == y {
        assert(b.subrange(x, y) =~= Seq::<u8>::empty());
    } else {
        is_char_boundary_iff_not_is_continuation_byte(b, x);
        is_char_boundary_iff_not_is_continuation_byte(p, x);
        assert(p[x] == b[x]);
        valid_utf8_split(p, x);
        assert(p.subrange(x, p.len() as int) =~= b.subrange(x, y));
    }
}

/// Replacing spans that start and end on character boundaries of valid
/// UTF-8 by valid UTF-8 gives valid UTF-8.
proof fn lemma_splice_valid(hay: Seq<u8>, spans: Seq<(usize, usize)>, reps: Seq<Seq<u8>>, k: int)
    requires
        valid_utf8(hay),
        spans_in_order(spans, hay.len() as int),
        forall|j: int|
            0 <= j < spans.len() ==> is_char_boundary(hay, #[trigger] spans[j].0 as int)
                && is_char_boundary(hay, spans[j].1 as int),
        reps.len() == spans.len(),
        forall|j: int| 0 <= j < reps.len() ==> valid_utf8(#[trigger] reps[j]),
        0 <= k <= spans.len(),
    ensures
        valid_utf8(splice_upto(hay, spans, reps, k)),
        k == spans.len() ==> valid_utf8(splice(hay, spans, reps)),
    decreases k,
{
    is_char_boundary_start_end_of_seq(hay);
    if k > 0 {
        lemma_splice_valid(hay, spans, reps, k - 1);
        let g = gap_start(spans, k - 1);
        assert(spans[k - 1].0 <= spans[k - 1].1);
        if k - 1 > 0 {
            assert(spans[k - 2].1 <= spans[k - 1].0);
            assert(is_char_boundary(hay, spans[k - 2].1 as int));
        }
        assert(is_char_boundary(hay, spans[k - 1].0 as int));
        lemma_valid_between_boundaries(hay, g, spans[k - 1].0 as int);
        assert(valid_utf8(reps[k - 1]));
        let a = splice_upto(hay, spans, reps, k - 1);
        let gap = hay.subrange(g, spans[k - 1].0 as int);
        valid_utf8_concat(a, gap);
        valid_utf8_concat(a + gap, reps[k - 1]);
    }
    if k == spans.len() {
        let g = gap_start(spans, k);
        if k > 0 {
            assert(is_char_boundary(hay, spans[k - 1].1 as int));
        }
        lemma_valid_between_boundaries(hay, g, hay.len() as int);
        valid_utf8_concat(splice_upto(hay, spans, reps, k), hay.subrange(g, hay.len() as int));
    }
}

/// Whether each span of `spans` in `hay` encodes exactly one character.
pub open spec fn spans_single_chars(hay: Seq<u8>, spans: Seq<(usize, usize)>) -> bool {
    forall|k: int| 0 <= k < spans.len() ==> decode_utf8(#[trigger] span_bytes(hay, spans, k)).len() == 1
}

/// The replacement of each one-character span: the UTF-8 encoding of its
/// character reference.
pub open spec fn char_reference_reps(hay: Seq<u8>, spans: Seq<(usize, usize)>) -> Seq<Seq<u8>> {
    Seq::new(
        spans.len(),
        |k: int| encode_utf8(char_reference(decode_utf8(span_bytes(hay, spans, k))[0])),
    )
}

/// The text that `encode_and_escape_string` gives for `text`: each match of
/// `UNICODE_ESCAPE_PATTERN` replaced by its character reference. Should the
/// pattern not compile, or a match not be a single character (neither of
/// which the pattern allows), the text is given back unchanged.
pub open spec fn escape_string(text: Seq<char>) -> Seq<char> {
    let pattern = UNICODE_ESCAPE_PATTERN@;
    let hay = encode_utf8(text);
    let spans = regex_matches(pattern, text);
    if regex_compiles(pattern) && spans_single_chars(hay, spans) {
        decode_utf8(splice(hay, spans, char_reference_reps(hay, spans)))
    } else {
        text
    }
}

/// Escapes `text` for XML: each markup character becomes its named entity
/// and each character from U+007F to U+FFFF its numeric character
/// reference; the matching is done by the `regex` crate.
pub fn encode_and_escape_string(text: &str) -> (res: String)
    ensures
        res@ == escape_string(text@),
        res@ == escape_text(text@),
        unicode_pattern_found(text@),
        unescape(res@) == text@,
        forall|i: int| 0 <= i < res@.len() ==> #[trigger] res@[i] == '&' || !unicode_escape_class(res@[i]),
{
    let bytes = text.as_bytes();
    let found = regex_find_all(UNICODE_ESCAPE_PATTERN, text);
    let spans = match found {
        None => {
            return text.to_owned();
        },
        Some(spans) => spans,
    };
    let ghost hay = bytes@;
    proof {
        assert(hay == encode_utf8(text@));
        assert(spans@ == regex_matches(UNICODE_ESCAPE_PATTERN@, text@));
        assert forall|j: int| 0 <= j < spans@.len() implies is_char_boundary(hay, #[trigger] spans@[j].0 as int)
            && is_char_boundary(hay, spans@[j].1 as int) by {
            assert(is_char_boundary(text.spec_bytes(), spans@[j].0 as int));
            assert(is_char_boundary(text.spec_bytes(), spans@[j].1 as int));
        }
        assert(unicode_pattern_found(text@));
        lemma_escape_string_roundtrip(text@);
        lemma_escaped_string_is_plain(text@);
        lemma_escape_string_is_map(text@);
    }
    let mut reps: Vec<Vec<u8>> = Vec::new();
    let mut k: usize = 0;
    while k < spans.len()
        invariant
            hay == bytes@,
            hay == encode_utf8(text@),
            valid_utf8(hay),
            spans@ == regex_matches(UNICODE_ESCAPE_PATTERN@, text@),
            spans_in_order(spans@, hay.len() as int),
            forall|j: int|
                0 <= j < spans@.len() ==> is_char_boundary(hay, #[trigger] spans@[j].0 as int)
                    && is_char_boundary(hay, spans@[j].1 as int),
            k <= spans@.len(),
            reps@.len() == k,
            spans_single_chars(hay, spans@),
            unicode_pattern_found(text@),
            escape_string(text@) == escape_text(text@),
            unescape(escape_string(text@)) == text@,
            forall|i: int|
                0 <= i < escape_string(text@).len() ==> #[trigger] escape_string(text@)[i] == '&'
                    || !unicode_escape_class(escape_string(text@)[i]),
            forall|j: int|
                0 <= j < k ==> decode_utf8(#[trigger] span_bytes(hay, spans@, j)).len() == 1,
            forall|j: int|
                0 <= j < k ==> #[trigger] reps@[j]@ == char_reference_reps(hay, spans@)[j],
        decreases spans@.len() - k,
    {
        let (s, e) = spans[k];
        assert(spans@[k as int].0 <= spans@[k as int].1 <= hay.len());
        assert(is_char_boundary(hay, spans@[k as int].0 as int));
        let m = vstd::slice::slice_subrange(bytes, s, e);
        proof {
            lemma_valid_between_boundaries(hay, s as int, e as int);
        }
        let ms = match str_from_utf8(m) {
            Some(ms) => ms,
            None => {
                return text.to_owned();
            },
        };
        assert(ms@ == decode_utf8(span_bytes(hay, spans@, k as int)));
        if ms.unicode_len() != 1 {
            return text.to_owned();
        }
        let r = unicode_escape_replace(ms);
        let rb = slice_to_vec(r.as_str().as_bytes());
        reps.push(rb);
        k = k + 1;
    }
    let ghost rs = crate::lines::byte_seqs(reps@);
    assert(rs =~= char_reference_reps(hay, spans@));
    let out = splice_matches(bytes, &spans, &reps);
    proof {
        lemma_splice_valid(hay, spans@, rs, spans@.len() as int);
    }
    match string_from_utf8(out) {
        Some(s) => s,
        None => text.to_owned(),
    }
}

/// Whether each span of `spans` in `data` can be rewritten by
/// `utf8_escape_replace`.
pub open spec fn spans_utf8_ok(data: Seq<u8>, spans: Seq<(usize, usize)>) -> bool {
    forall|k: int| 0 <= k < spans.len() ==> utf8_match_ok(#[trigger] span_bytes(data, spans, k))
}

/// The replacement of each span of raw UTF-8 input.
pub open spec fn utf8_match_reps(data: Seq<u8>, spans: Seq<(usize, usize)>) -> Seq<Seq<u8>> {
    Seq::new(spans.len(), |k: int| utf8_match_reference(span_bytes(data, spans, k)))
}

/// The text that `encode_and_escape_bytes` gives for the UTF-8 bytes
/// `data`: each match of `UTF8_ESCAPE_PATTERN` replaced by its references
/// and the result read as UTF-8 (lossily, should it not be valid, which it
/// is when the matches fall on character boundaries). Should the pattern
/// not compile, or a match be neither a markup byte nor valid UTF-8
/// (neither of which the pattern allows on valid input), the text that
/// `data` encodes is given back.
pub open spec fn escape_bytes(data: Seq<u8>) -> Seq<char> {
    let pattern = UTF8_ESCAPE_PATTERN@;
    let spans = bytes_regex_matches(pattern, data);
    if bytes_regex_compiles(pattern) && spans_utf8_ok(data, spans) {
        let out = splice(data, spans, utf8_match_reps(data, spans));
        if valid_utf8(out) {
            decode_utf8(out)
        } else {
            utf8_lossy(out)
        }
    } else {
        decode_utf8(data)
    }
}

/// Escapes UTF-8 encoded bytes for XML: each markup byte becomes its named
/// entity and each character outside ASCII, and DEL, its numeric character
/// reference; the matching is done by the `regex` crate.
pub fn encode_and_escape_bytes(data: &[u8]) -> (res: String)
    requires
        valid_utf8(data@),
    ensures
        res@ == escape_bytes(data@),
        res@ == escape_utf8_text(decode_utf8(data@)),
        utf8_pattern_found(data@),
        unescape(res@) == decode_utf8(data@),
        forall|i: int| 0 <= i < res@.len() ==> reference_safe(#[trigger] res@[i]),
{
    let found = bytes_regex_find_all(UTF8_ESCAPE_PATTERN, data);
    let spans = match found {
        None => {
            return string_from_utf8_lossy(data);
        },
        Some(spans) => spans,
    };
    proof {
        assert(spans@ == bytes_regex_matches(UTF8_ESCAPE_PATTERN@, data@));
        assert(utf8_pattern_found(data@));
        lemma_escape_bytes_roundtrip(data@);
        lemma_escaped_bytes_are_plain(data@);
        lemma_escape_bytes_is_map(data@);
    }
    let mut reps: Vec<Vec<u8>> = Vec::new();
    let mut k: usize = 0;
    while k < spans.len()
        invariant
            valid_utf8(data@),
            spans@ == bytes_regex_matches(UTF8_ESCAPE_PATTERN@, data@),
            spans_in_order(spans@, data@.len() as int),
            k <= spans@.len(),
            reps@.len() == k,
            spans_utf8_ok(data@, spans@),
            utf8_pattern_found(data@),
            escape_bytes(data@) == escape_utf8_text(decode_utf8(data@)),
            unescape(escape_bytes(data@)) == decode_utf8(data@),
            forall|i: int| 0 <= i < escape_bytes(data@).len() ==> reference_safe(#[trigger] escape_bytes(data@)[i]),
            forall|j: int| 0 <= j < k ==> utf8_match_ok(#[trigger] span_bytes(data@, spans@, j)),
            forall|j: int| 0 <= j < k ==> #[trigger] reps@[j]@ == utf8_match_reps(data@, spans@)[j],
        decreases spans@.len() - k,
    {
        let (s, e) = spans[k];
        assert(spans@[k as int].0 <= spans@[k as int].1 <= data@.len());
        let m = vstd::slice::slice_subrange(data, s, e);
        assert(m@ == span_bytes(data@, spans@, k as int));
        let ok = if m.len() == 1 && escape_low(m[0]).is_some() {
            true
        } else {
            str_from_utf8(m).is_some()
        };
        if !ok {
            return string_from_utf8_lossy(data);
        }
        let r = utf8_escape_replace(m);
        reps.push(r);
        k = k + 1;
    }
    let ghost rs = crate::lines::byte_seqs(reps@);
    assert(rs =~= utf8_match_reps(data@, spans@));
    let out = splice_matches(data, &spans, &reps);
    string_from_utf8_lossy(out.as_slice())
}

/// The character that an XML reference stands for: one of the five named
/// entities, or `&#`, decimal digits and `;`.
pub open spec fn reference_char(r: Seq<char>) -> Option<char> {
    if r == "&amp;"@ {
        Some('&')
    } else if r == "&apos;"@ {
        Some('\'')
    } else if r == "&quot;"@ {
        Some('"')
    } else if r == "&lt;"@ {
        Some('<')
    } else if r == "&gt;"@ {
        Some('>')
    } else if r.len() >= 4 && r[0] == '&' && r[1] == '#' && r.last() == ';' && all_digits(
        r.subrange(2, r.len() - 1),
    ) {
        Some((digits_value(r.subrange(2, r.len() - 1)) as u32) as char)
    } else {
        None
    }
}

/// Whether `c` is one of the characters that delimit XML markup.
pub open spec fn is_markup_char(c: char) -> bool {
    c == '&' || c == '<' || c == '>' || c == '"' || c == '\''
}

/// A numeric character reference gives back the character it was made
/// for; it is ASCII, and holds no markup character but the `&` it starts
/// with.
pub proof fn lemma_numeric_reference_roundtrip(c: char)
    ensures
        reference_char(numeric_reference(c)) == Some(c),
        is_ascii_chars(numeric_reference(c)),
        forall|i: int| 0 <= i < numeric_reference(c).len() ==> #[trigger] numeric_reference(c)[i] < '\x7f',
        numeric_reference(c)[0] == '&',
        numeric_reference(c).len() >= 4,
        numeric_reference(c).last() == ';',
        forall|i: int|
            0 < i < numeric_reference(c).len() ==> !is_markup_char(#[trigger] numeric_reference(c)[i]),
        forall|i: int|
            0 <= i < numeric_reference(c).len() - 1 ==> #[trigger] numeric_reference(c)[i] != ';',
{
    reveal_strlit("&amp;");
    reveal_strlit("&apos;");
    reveal_strlit("&quot;");
    reveal_strlit("&lt;");
    reveal_strlit("&gt;");
    reveal_strlit("&#");
    reveal_strlit(";");
    let v = c as u32;
    let r = numeric_reference(c);
    let n = v as nat;
    lemma_decimal_digits(n);
    let d = decimal(n);
    assert(r == "&#"@ + d + ";"@);
    assert(r.subrange(2, r.len() - 1) =~= d);
    assert(r[1] == '#');
    assert(r.len() >= 4);
    assert(r != "&amp;"@);
    assert(r != "&apos;"@);
    assert(r != "&quot;"@);
    assert(r != "&lt;"@);
    assert(r != "&gt;"@);
    assert(((n as int) as u32) == v);
    assert(digits_value(r.subrange(2, r.len() - 1)) == n);
    assert((v as char) == c);
    assert(reference_char(r) == Some(((n as int) as u32) as char));
    assert(reference_char(r) == Some(c));
    assert forall|i: int| 0 <= i < r.len() implies '\0' <= #[trigger] r[i] < '\u{7f}' && (i > 0
        ==> !is_markup_char(r[i])) && (i < r.len() - 1 ==> r[i] != ';') by {
        if 2 <= i < r.len() - 1 {
            assert(r[i] == d[i - 2]);
            assert('0' <= d[i - 2] <= '9');
        }
    }
}

/// A character reference gives back the character it was made for; it is
/// ASCII, and holds no markup character but the `&` it starts with.
pub proof fn lemma_char_reference_roundtrip(c: char)
    ensures
        reference_char(char_reference(c)) == Some(c),
        is_ascii_chars(char_reference(c)),
        forall|i: int| 0 <= i < char_reference(c).len() ==> #[trigger] char_reference(c)[i] < '\x7f',
        char_reference(c)[0] == '&',
        char_reference(c).len() >= 4,
        char_reference(c).last() == ';',
        forall|i: int|
            0 < i < char_reference(c).len() ==> !is_markup_char(#[trigger] char_reference(c)[i]),
        forall|i: int| 0 <= i < char_reference(c).len() - 1 ==> #[trigger] char_reference(c)[i] != ';',
{
    reveal_strlit("&amp;");
    reveal_strlit("&apos;");
    reveal_strlit("&quot;");
    reveal_strlit("&lt;");
    reveal_strlit("&gt;");
    reveal_strlit("&#");
    reveal_strlit(";");
    let v = c as u32;
    let r = char_reference(c);
    if v < 128 && low_entity(c as u8) is Some {
        assert(v as u8 == c as u8);
        assert((v as u8) as u32 == v) by (bit_vector)
            requires
                v < 128,
        ;
        if c as u8 == 38 {
            assert(v == 38);
            assert(c == '&');
            assert(r == "&amp;"@);
            assert(reference_char(r) == Some(c));
        } else if c as u8 == 39 {
            assert(v == 39);
            assert(c == '\'');
            assert(r == "&apos;"@);
            assert(reference_char(r) == Some(c));
        } else if c as u8 == 34 {
            assert(v == 34);
            assert(c == '"');
            assert(r == "&quot;"@);
            assert(r[1] != "&apos;"@[1]);
            assert(reference_char(r) == Some(c));
        } else if c as u8 == 60 {
            assert(v == 60);
            assert(c == '<');
            assert(r == "&lt;"@);
            assert(reference_char(r) == Some(c));
        } else {
            assert(v == 62);
            assert(c == '>');
            assert(r == "&gt;"@);
            assert(r[1] != "&lt;"@[1]);
            assert(reference_char(r) == Some(c));
        }
    } else {
        lemma_numeric_reference_roundtrip(c);
    }
}

proof fn lemma_hex_digits(n: nat)
    ensures
        forall|i: int| 0 <= i < digits(n, 16).len() ==> {
            let ch = #[trigger] digits(n, 16)[i];
            ('0' <= ch <= '9') || ('a' <= ch <= 'f')
        },
    decreases n,
{
    if n >= 16 {
        lemma_hex_digits(n / 16);
        assert forall|i: int| 0 <= i < digits(n, 16).len() implies {
            let ch = #[trigger] digits(n, 16)[i];
            ('0' <= ch <= '9') || ('a' <= ch <= 'f')
        } by {
            if i < digits(n / 16, 16).len() {
                assert(digits(n, 16)[i] == digits(n / 16, 16)[i]);
            }
        }
    }
}

/// The text that `escape_invalid_chars` gives holds no character that XML
/// cannot carry, and a text that holds none is given back unchanged.
pub proof fn lemma_escape_invalid_clean(s: Seq<char>)
    ensures
        forall|i: int|
            0 <= i < escape_invalid(s).len() ==> !invalid_xml_char(#[trigger] escape_invalid(s)[i]),
        (forall|i: int| 0 <= i < s.len() ==> !invalid_xml_char(#[trigger] s[i])) ==> escape_invalid(
            s,
        ) == s,
    decreases s.len(),
{
    if s.len() > 0 {
        let init = s.drop_last();
        let c = s.last();
        lemma_escape_invalid_clean(init);
        let piece = escape_invalid_piece(c);
        assert(escape_invalid(s) == escape_invalid(init) + piece);
        if invalid_xml_char(c) {
            reveal_strlit("\\x");
            let n = (c as u32) as nat;
            lemma_hex_digits(n);
            assert forall|i: int| 0 <= i < piece.len() implies !invalid_xml_char(#[trigger] piece[i]) by {
                if i >= 2 {
                    if n < 16 {
                        assert(piece[i] == hex2(n)[i - 2]);
                    } else {
                        assert(piece[i] == digits(n, 16)[i - 2]);
                    }
                }
            }
        }
        assert forall|i: int| 0 <= i < escape_invalid(s).len() implies !invalid_xml_char(
            #[trigger] escape_invalid(s)[i],
        ) by {
            if i >= escape_invalid(init).len() {
                assert(escape_invalid(s)[i] == piece[i - escape_invalid(init).len()]);
            } else {
                assert(escape_invalid(s)[i] == escape_invalid(init)[i]);
            }
        }
        if forall|i: int| 0 <= i < s.len() ==> !invalid_xml_char(#[trigger] s[i]) {
            assert forall|i: int| 0 <= i < init.len() implies !invalid_xml_char(#[trigger] init[i]) by {
                assert(init[i] == s[i]);
            }
            assert(!invalid_xml_char(s[s.len() - 1]));
            assert(escape_invalid(s) =~= s);
        }
    }
}

/// Rewriting the characters XML cannot carry twice is rewriting them once.
pub proof fn lemma_escape_invalid_idempotent(s: Seq<char>)
    ensures
        escape_invalid(escape_invalid(s)) == escape_invalid(s),
{
    lemma_escape_invalid_clean(s);
    lemma_escape_invalid_clean(escape_invalid(s));
}

/// Rewriting a text rewrites each of its characters on its own.
pub proof fn lemma_escape_invalid_concat(a: Seq<char>, b: Seq<char>)
    ensures
        escape_invalid(a + b) == escape_invalid(a) + escape_invalid(b),
    decreases b.len(),
{
    if b.len() == 0 {
        assert(a + b =~= a);
        assert(escape_invalid(a) + escape_invalid(b) =~= escape_invalid(a));
    } else {
        lemma_escape_invalid_concat(a, b.drop_last());
        assert((a + b).drop_last() =~= a + b.drop_last());
        assert((a + b).last() == b.last());
        assert(escape_invalid(a) + escape_invalid(b) =~= escape_invalid(a) + escape_invalid(
            b.drop_last(),
        ) + escape_invalid_piece(b.last()));
    }
}

/// Which characters are rewritten, and how: the C0 controls other than tab,
/// line feed and carriage return become `\x` and two lower-case hex
/// digits, U+FFFE and U+FFFF become `\xfffe` and `\xffff`, and every other
/// character (DEL, and all characters above U+FFFF among them) is kept.
pub proof fn lemma_escape_invalid_char(c: char)
    ensures
        (c == '\t' || c == '\n' || c == '\r' || ((c as u32) >= 0x20 && (c as u32) != 0xFFFE
            && (c as u32) != 0xFFFF)) ==> escape_invalid(seq![c]) == seq![c],
        ((c as u32) < 0x20 && c != '\t' && c != '\n' && c != '\r') ==> escape_invalid(seq![c])
            == seq!['\\', 'x', hex_digit_char((c as u32) as int / 16), hex_digit_char((c as u32) as int % 16)],
        (c as u32) == 0xFFFE ==> escape_invalid(seq![c]) == "\\xfffe"@,
        (c as u32) == 0xFFFF ==> escape_invalid(seq![c]) == "\\xffff"@,
{
    reveal_strlit("\\x");
    reveal_strlit("\\xfffe");
    reveal_strlit("\\xffff");
    assert(seq![c].drop_last() =~= Seq::<char>::empty());
    assert(seq![c].last() == c);
    assert(escape_invalid(seq![c]) =~= escape_invalid(Seq::<char>::empty()) + escape_invalid_piece(c));
    assert(escape_invalid(Seq::<char>::empty()) + escape_invalid_piece(c) =~= escape_invalid_piece(c));
    let n = (c as u32) as nat;
    if (c as u32) < 0x20 && c != '\t' && c != '\n' && c != '\r' {
        assert(n < 16 ==> (n / 16 == 0 && n % 16 == n));
        if n >= 16 {
            assert(n / 16 == 1);
            assert(digits(n, 16) == digits(n / 16, 16).push(hex_digit_char((n % 16) as int)));
            assert(digits(1, 16) == seq![hex_digit_char(1)]);
        }
        assert(escape_invalid_piece(c) =~= seq!['\\', 'x', hex_digit_char((c as u32) as int / 16), hex_digit_char((c as u32) as int % 16)]);
    }
    if (c as u32) == 0xFFFE || (c as u32) == 0xFFFF {
        reveal_with_fuel(digits, 5);
        assert(digits(n, 16) =~= seq!['f', 'f', 'f', if n == 0xFFFE { 'e' } else { 'f' }]);
        assert(escape_invalid_piece(c) =~= "\\x"@ + digits(n, 16));
    }
}

/// The byte-level and the character-level replacements agree: a match
/// that is the UTF-8 encoding of one character is replaced by the encoding
/// of that character's reference.
pub proof fn lemma_escape_replacements_agree(c: char)
    ensures
        utf8_match_ok(encode_utf8(seq![c])),
        utf8_match_reference(encode_utf8(seq![c])) == encode_utf8(char_reference(c)),
{
    let m = encode_utf8(seq![c]);
    lemma_single_char_encoding(c);
    assert(decode_utf8(m) == seq![c]);
    assert(seq![c].drop_last() =~= Seq::<char>::empty());
    assert(numeric_references(Seq::<char>::empty()) =~= Seq::<char>::empty());
    assert(seq![c].last() == c);
    assert(numeric_references(seq![c]) =~= numeric_references(Seq::<char>::empty()) + numeric_reference(c));
    assert(numeric_references(seq![c]) =~= numeric_reference(c));
    if (c as u32) < 128 {
        assert(m[0] == c as u8);
    }
}

/// Index of the first `;` in `s`, or `s.len()` when there is none.
pub open spec fn semicolon_index(s: Seq<char>) -> int
    decreases s.len(),
{
    if s.len() == 0 {
        0
    } else if s[0] == ';' {
        0
    } else {
        1 + semicolon_index(s.drop_first())
    }
}

/// What an XML reader makes of character data: each reference (from `&`
/// to the next `;`) that names a character is replaced by it; every other
/// character stands for itself.
pub open spec fn unescape(s: Seq<char>) -> Seq<char>
    decreases s.len(),
{
    if s.len() == 0 {
        seq![]
    } else if s[0] == '&' && semicolon_index(s) < s.len() && reference_char(
        s.subrange(0, semicolon_index(s) + 1),
    ) is Some {
        proof {
            lemma_semicolon_index_bound(s);
        }
        seq![reference_char(s.subrange(0, semicolon_index(s) + 1))->0] + unescape(
            s.subrange(semicolon_index(s) + 1, s.len() as int),
        )
    } else {
        seq![s[0]] + unescape(s.drop_first())
    }
}

/// The first `;` lies within the text, or just past its end.
pub proof fn lemma_semicolon_index_bound(s: Seq<char>)
    ensures
        0 <= semicolon_index(s) <= s.len(),
    decreases s.len(),
{
    if s.len() > 0 && s[0] != ';' {
        lemma_semicolon_index_bound(s.drop_first());
    }
}

proof fn lemma_semicolon_index_at(s: Seq<char>, j: int)
    requires
        0 <= j < s.len(),
        s[j] == ';',
        forall|i: int| 0 <= i < j ==> s[i] != ';',
    ensures
        semicolon_index(s) == j,
    decreases j,
{
    if j > 0 {
        lemma_semicolon_index_at(s.drop_first(), j - 1);
    }
}

/// Text free of `&` reads as itself, whatever follows it.
proof fn lemma_unescape_plain_prefix(a: Seq<char>, b: Seq<char>)
    requires
        forall|i: int| 0 <= i < a.len() ==> a[i] != '&',
    ensures
        unescape(a + b) == a + unescape(b),
    decreases a.len(),
{
    if a.len() > 0 {
        lemma_unescape_plain_prefix(a.drop_first(), b);
        assert((a + b).drop_first() =~= a.drop_first() + b);
        assert((a + b)[0] == a[0]);
        assert(a =~= seq![a[0]] + a.drop_first());
    } else {
        assert(a + b =~= b);
    }
}

/// Text free of `&` reads as itself.
pub proof fn lemma_unescape_plain(a: Seq<char>)
    requires
        forall|i: int| 0 <= i < a.len() ==> a[i] != '&',
    ensures
        unescape(a) == a,
{
    lemma_unescape_plain_prefix(a, Seq::<char>::empty());
    assert(unescape(Seq::<char>::empty()) =~= Seq::<char>::empty());
    assert(a + Seq::<char>::empty() =~= a);
}

/// A reference (from `&` to its only `;`, at its end) reads as its
/// character, whatever follows it.
proof fn lemma_unescape_any_reference_prefix(r: Seq<char>, c: char, b: Seq<char>)
    requires
        reference_char(r) == Some(c),
        r.len() > 0,
        r[0] == '&',
        r.last() == ';',
        forall|i: int| 0 <= i < r.len() - 1 ==> #[trigger] r[i] != ';',
    ensures
        unescape(r + b) == seq![c] + unescape(b),
{
    let s = r + b;
    lemma_semicolon_index_at(s, r.len() - 1);
    assert(s.subrange(0, r.len() as int) =~= r);
    assert(s.subrange(r.len() as int, s.len() as int) =~= b);
}

/// A character reference reads as its character, whatever follows it.
proof fn lemma_unescape_reference_prefix(c: char, b: Seq<char>)
    ensures
        unescape(char_reference(c) + b) == seq![c] + unescape(b),
{
    lemma_char_reference_roundtrip(c);
    lemma_unescape_any_reference_prefix(char_reference(c), c, b);
}

/// The numeric references of some characters read as those characters,
/// whatever follows them.
proof fn lemma_unescape_numeric_references(cs: Seq<char>, b: Seq<char>)
    ensures
        unescape(numeric_references(cs) + b) == cs + unescape(b),
    decreases cs.len(),
{
    if cs.len() == 0 {
        assert(numeric_references(cs) + b =~= b);
        assert(cs + unescape(b) =~= unescape(b));
    } else {
        let init = cs.drop_last();
        let c = cs.last();
        let r = numeric_reference(c);
        lemma_numeric_reference_roundtrip(c);
        lemma_unescape_any_reference_prefix(r, c, b);
        lemma_unescape_numeric_references(init, r + b);
        assert(numeric_references(cs) + b =~= numeric_references(init) + (r + b));
        assert(cs =~= init + seq![c]);
        assert(init + (seq![c] + unescape(b)) =~= cs + unescape(b));
    }
}

/// Whether no `&` lies between the matches: in the gaps before, between
/// and after the spans of `spans` in the UTF-8 text `hay`.
pub open spec fn gaps_free_of_ampersand(hay: Seq<u8>, spans: Seq<(usize, usize)>) -> bool {
    &&& forall|k: int|
        0 <= k <= spans.len() ==> forall|i: int|
            0 <= i < decode_utf8(#[trigger] gap_bytes(hay, spans, k)).len() ==> decode_utf8(
                gap_bytes(hay, spans, k),
            )[i] != '&'
}

/// The bytes of the `k`-th gap: those before the `k`-th span (or, for
/// `k == spans.len()`, before the end) and after the previous span.
pub open spec fn gap_bytes(hay: Seq<u8>, spans: Seq<(usize, usize)>, k: int) -> Seq<u8> {
    if k < spans.len() {
        hay.subrange(gap_start(spans, k), spans[k].0 as int)
    } else {
        hay.subrange(gap_start(spans, k), hay.len() as int)
    }
}

/// Whether `rep`, put in place of the bytes `m`, reads back as them: it is
/// valid UTF-8, and resolving the references of its text, followed by any
/// text, gives the text of `m` followed by the reading of the rest.
pub open spec fn reads_back(rep: Seq<u8>, m: Seq<u8>) -> bool {
    &&& valid_utf8(rep)
    &&& forall|rest: Seq<char>|
        #[trigger] unescape(decode_utf8(rep) + rest) == decode_utf8(m) + unescape(rest)
}

/// One step of the reading: a gap free of `&` followed by a replacement
/// reads as the gap followed by what was replaced.
proof fn lemma_splice_unescape_step(
    prev: Seq<u8>,
    p0: Seq<u8>,
    gap: Seq<u8>,
    m: Seq<u8>,
    rep: Seq<u8>,
    rest: Seq<char>,
)
    requires
        valid_utf8(prev),
        valid_utf8(p0),
        valid_utf8(gap),
        valid_utf8(m),
        reads_back(rep, m),
        forall|i: int| 0 <= i < decode_utf8(gap).len() ==> decode_utf8(gap)[i] != '&',
        unescape(decode_utf8(prev) + (decode_utf8(gap) + (decode_utf8(rep) + rest)))
            == decode_utf8(p0) + unescape(decode_utf8(gap) + (decode_utf8(rep) + rest)),
    ensures
        valid_utf8(prev + gap + rep),
        valid_utf8(p0 + gap + m),
        unescape(decode_utf8(prev + gap + rep) + rest) == decode_utf8(p0 + gap + m) + unescape(
            rest,
        ),
{
    let gc = decode_utf8(gap);
    let dr = decode_utf8(rep);
    crate::text::lemma_decode_utf8_concat(prev, gap);
    crate::text::lemma_decode_utf8_concat(prev + gap, rep);
    assert(decode_utf8(prev + gap + rep) + rest =~= decode_utf8(prev) + (gc + (dr + rest)));
    lemma_unescape_plain_prefix(gc, dr + rest);
    assert(unescape(dr + rest) == decode_utf8(m) + unescape(rest));
    crate::text::lemma_decode_utf8_concat(p0, gap);
    crate::text::lemma_decode_utf8_concat(p0 + gap, m);
    assert(decode_utf8(p0 + gap + m) =~= decode_utf8(p0) + gc + decode_utf8(m));
}

/// Reading the first `k` spans replaced, followed by any text, gives the
/// unreplaced text up to the end of the `k`-th span, followed by the reading
/// of the rest.
#[verifier::rlimit(40)]
proof fn lemma_splice_unescape_prefix(
    hay: Seq<u8>,
    spans: Seq<(usize, usize)>,
    reps: Seq<Seq<u8>>,
    k: int,
    rest: Seq<char>,
)
    requires
        valid_utf8(hay),
        spans_in_order(spans, hay.len() as int),
        forall|j: int|
            0 <= j < spans.len() ==> is_char_boundary(hay, #[trigger] spans[j].0 as int)
                && is_char_boundary(hay, spans[j].1 as int),
        gaps_free_of_ampersand(hay, spans),
        reps.len() == spans.len(),
        forall|j: int| 0 <= j < spans.len() ==> reads_back(#[trigger] reps[j], span_bytes(hay, spans, j)),
        0 <= k <= spans.len(),
    ensures
        valid_utf8(splice_upto(hay, spans, reps, k)),
        valid_utf8(hay.subrange(0, gap_start(spans, k))),
        unescape(decode_utf8(splice_upto(hay, spans, reps, k)) + rest) == decode_utf8(
            hay.subrange(0, gap_start(spans, k)),
        ) + unescape(rest),
    decreases k,
{
    is_char_boundary_start_end_of_seq(hay);
    assert forall|j: int| 0 <= j < reps.len() implies valid_utf8(#[trigger] reps[j]) by {
        assert(reads_back(reps[j], span_bytes(hay, spans, j)));
    }
    lemma_splice_valid(hay, spans, reps, k);
    if k == 0 {
        assert(hay.subrange(0, 0) =~= Seq::<u8>::empty());
        assert(splice_upto(hay, spans, reps, 0) =~= Seq::<u8>::empty());
        assert(decode_utf8(Seq::<u8>::empty()) =~= Seq::<char>::empty());
        assert(Seq::<char>::empty() + rest =~= rest);
    } else {
        let g0 = gap_start(spans, k - 1);
        let s = spans[k - 1].0 as int;
        let e = spans[k - 1].1 as int;
        assert(spans[k - 1].0 <= spans[k - 1].1);
        if k - 1 > 0 {
            assert(spans[k - 2].1 <= spans[k - 1].0);
            assert(is_char_boundary(hay, spans[k - 2].0 as int));
            assert(is_char_boundary(hay, spans[k - 2].1 as int));
        }
        assert(is_char_boundary(hay, s));
        let gap = hay.subrange(g0, s);
        let m = hay.subrange(s, e);
        lemma_valid_between_boundaries(hay, g0, s);
        lemma_valid_between_boundaries(hay, s, e);
        lemma_valid_between_boundaries(hay, 0, g0);
        let rep = reps[k - 1];
        assert(reads_back(rep, span_bytes(hay, spans, k - 1)));
        let prev = splice_upto(hay, spans, reps, k - 1);
        let gc = decode_utf8(gap);
        assert(gap == gap_bytes(hay, spans, k - 1));
        assert forall|i: int| 0 <= i < gc.len() implies gc[i] != '&' by {
            assert(decode_utf8(gap_bytes(hay, spans, k - 1))[i] != '&');
        }
        lemma_splice_unescape_prefix(hay, spans, reps, k - 1, gc + (decode_utf8(rep) + rest));
        let p0 = hay.subrange(0, g0);
        lemma_splice_unescape_step(prev, p0, gap, m, rep, rest);
        assert(splice_upto(hay, spans, reps, k) == prev + gap + rep);
        assert(hay.subrange(0, e) =~= p0 + gap + m);
    }
}

/// Replacing matches by texts that read back as them, with no `&` left
/// between the matches, gives a text that reads back as the text it was made from.
pub proof fn lemma_splice_reads_back(hay: Seq<u8>, spans: Seq<(usize, usize)>, reps: Seq<Seq<u8>>)
    requires
        valid_utf8(hay),
        spans_in_order(spans, hay.len() as int),
        forall|j: int|
            0 <= j < spans.len() ==> is_char_boundary(hay, #[trigger] spans[j].0 as int)
                && is_char_boundary(hay, spans[j].1 as int),
        gaps_free_of_ampersand(hay, spans),
        reps.len() == spans.len(),
        forall|j: int| 0 <= j < spans.len() ==> reads_back(#[trigger] reps[j], span_bytes(hay, spans, j)),
    ensures
        valid_utf8(splice(hay, spans, reps)),
        unescape(decode_utf8(splice(hay, spans, reps))) == decode_utf8(hay),
{
    let n = spans.len() as int;
    let g = gap_start(spans, n);
    let fin = hay.subrange(g, hay.len() as int);
    is_char_boundary_start_end_of_seq(hay);
    if n > 0 {
        assert(is_char_boundary(hay, spans[n - 1].0 as int));
        assert(is_char_boundary(hay, spans[n - 1].1 as int));
    }
    lemma_valid_between_boundaries(hay, g, hay.len() as int);
    let fc = decode_utf8(fin);
    assert(fin == gap_bytes(hay, spans, n));
    assert forall|i: int| 0 <= i < fc.len() implies fc[i] != '&' by {
        assert(decode_utf8(gap_bytes(hay, spans, n))[i] != '&');
    }
    lemma_splice_unescape_prefix(hay, spans, reps, n, fc);
    let prev = splice_upto(hay, spans, reps, n);
    crate::text::lemma_decode_utf8_concat(prev, fin);
    assert(splice(hay, spans, reps) == prev + fin);
    lemma_unescape_plain_prefix(fc, Seq::<char>::empty());
    assert(unescape(Seq::<char>::empty()) =~= Seq::<char>::empty());
    assert(fc + Seq::<char>::empty() =~= fc);
    let p0 = hay.subrange(0, g);
    crate::text::lemma_decode_utf8_concat(p0, fin);
    assert(p0 + fin =~= hay);
}

/// Whether `p` holds of every character of `s`.
pub open spec fn chars_satisfy(s: Seq<char>, p: spec_fn(char) -> bool) -> bool {
    forall|i: int| 0 <= i < s.len() ==> p(#[trigger] s[i])
}

/// Whether `p` holds of every character in the gaps around the spans of
/// `spans` in the UTF-8 text `hay`.
pub open spec fn gap_chars_satisfy(
    hay: Seq<u8>,
    spans: Seq<(usize, usize)>,
    p: spec_fn(char) -> bool,
) -> bool {
    forall|k: int|
        0 <= k <= spans.len() ==> chars_satisfy(decode_utf8(#[trigger] gap_bytes(hay, spans, k)), p)
}

/// The characters that `UNICODE_ESCAPE_PATTERN` matches: the markup
/// characters and those from U+007F to U+FFFF.
pub open spec fn unicode_escape_class(c: char) -> bool {
    is_markup_char(c) || ('\u{7f}' <= c && c <= '\u{ffff}')
}

/// The characters that `UTF8_ESCAPE_PATTERN` matches the bytes of: the
/// markup characters and all from U+007F up.
pub open spec fn utf8_escape_class(c: char) -> bool {
    is_markup_char(c) || '\u{7f}' <= c
}

/// Whether no character that `UNICODE_ESCAPE_PATTERN` matches lies in the
/// gaps around `spans` in `hay`.
pub open spec fn unicode_gaps_clear(hay: Seq<u8>, spans: Seq<(usize, usize)>) -> bool {
    gap_chars_satisfy(hay, spans, |c: char| !unicode_escape_class(c))
}

/// Whether no character whose bytes `UTF8_ESCAPE_PATTERN` matches lies in
/// the gaps around `spans` in `hay`.
pub open spec fn utf8_gaps_clear(hay: Seq<u8>, spans: Seq<(usize, usize)>) -> bool {
    gap_chars_satisfy(hay, spans, |c: char| !utf8_escape_class(c))
}

/// Whether the character that each span of `spans` in `hay` encodes is one
/// that `UNICODE_ESCAPE_PATTERN` matches.
pub open spec fn spans_class_chars(hay: Seq<u8>, spans: Seq<(usize, usize)>) -> bool {
    forall|k: int|
        0 <= k < spans.len() ==> unicode_escape_class(
            decode_utf8(#[trigger] span_bytes(hay, spans, k))[0],
        )
}

/// Whether each span of `spans` in `hay` is a markup byte or encodes
/// characters from DEL up only, as a run of bytes from 0x7F does.
pub open spec fn spans_high_runs(hay: Seq<u8>, spans: Seq<(usize, usize)>) -> bool {
    forall|k: int|
        0 <= k < spans.len() ==> ({
            let m = #[trigger] span_bytes(hay, spans, k);
            (m.len() == 1 && low_entity(m[0]) is Some) || forall|i: int|
                0 <= i < decode_utf8(m).len() ==> '\x7f' <= decode_utf8(m)[i]
        })
}

/// Whether each span of `spans` starts and ends on a character boundary of
/// `hay`.
pub open spec fn spans_on_boundaries(hay: Seq<u8>, spans: Seq<(usize, usize)>) -> bool {
    forall|k: int|
        0 <= k < spans.len() ==> is_char_boundary(hay, #[trigger] spans[k].0 as int)
            && is_char_boundary(hay, spans[k].1 as int)
}

proof fn lemma_gaps_free_of_ampersand(hay: Seq<u8>, spans: Seq<(usize, usize)>, p: spec_fn(char) -> bool)
    requires
        gap_chars_satisfy(hay, spans, p),
        forall|c: char| #[trigger] p(c) ==> c != '&',
    ensures
        gaps_free_of_ampersand(hay, spans),
{
    assert forall|k: int| 0 <= k <= spans.len() implies forall|i: int|
        0 <= i < decode_utf8(#[trigger] gap_bytes(hay, spans, k)).len() ==> decode_utf8(
            gap_bytes(hay, spans, k),
        )[i] != '&' by {
        assert(chars_satisfy(decode_utf8(gap_bytes(hay, spans, k)), p));
        assert forall|i: int| 0 <= i < decode_utf8(gap_bytes(hay, spans, k)).len() implies decode_utf8(
            gap_bytes(hay, spans, k),
        )[i] != '&' by {
            assert(p(decode_utf8(gap_bytes(hay, spans, k))[i]));
        }
    }
}

proof fn lemma_chars_satisfy_concat(a: Seq<char>, b: Seq<char>, p: spec_fn(char) -> bool)
    requires
        chars_satisfy(a, p),
        chars_satisfy(b, p),
    ensures
        chars_satisfy(a + b, p),
{
    assert forall|i: int| 0 <= i < (a + b).len() implies p(#[trigger] (a + b)[i]) by {
        if i < a.len() {
            assert((a + b)[i] == a[i]);
        } else {
            assert((a + b)[i] == b[i - a.len()]);
        }
    }
}

/// Replacing spans on character boundaries of valid UTF-8 by valid UTF-8
/// keeps a property that every character of the gaps and of the
/// replacements has.
proof fn lemma_splice_chars(
    hay: Seq<u8>,
    spans: Seq<(usize, usize)>,
    reps: Seq<Seq<u8>>,
    p: spec_fn(char) -> bool,
    k: int,
)
    requires
        valid_utf8(hay),
        spans_in_order(spans, hay.len() as int),
        forall|j: int|
            0 <= j < spans.len() ==> is_char_boundary(hay, #[trigger] spans[j].0 as int)
                && is_char_boundary(hay, spans[j].1 as int),
        gap_chars_satisfy(hay, spans, p),
        reps.len() == spans.len(),
        forall|j: int|
            0 <= j < reps.len() ==> valid_utf8(#[trigger] reps[j]) && chars_satisfy(
                decode_utf8(reps[j]),
                p,
            ),
        0 <= k <= spans.len(),
    ensures
        valid_utf8(splice_upto(hay, spans, reps, k)),
        chars_satisfy(decode_utf8(splice_upto(hay, spans, reps, k)), p),
        k == spans.len() ==> valid_utf8(splice(hay, spans, reps)) && chars_satisfy(
            decode_utf8(splice(hay, spans, reps)),
            p,
        ),
    decreases k,
{
    is_char_boundary_start_end_of_seq(hay);
    lemma_splice_valid(hay, spans, reps, k);
    if k > 0 {
        lemma_splice_chars(hay, spans, reps, p, k - 1);
        let g = gap_start(spans, k - 1);
        assert(spans[k - 1].0 <= spans[k - 1].1);
        if k - 1 > 0 {
            assert(spans[k - 2].1 <= spans[k - 1].0);
            assert(is_char_boundary(hay, spans[k - 2].0 as int));
            assert(is_char_boundary(hay, spans[k - 2].1 as int));
        }
        assert(is_char_boundary(hay, spans[k - 1].0 as int));
        lemma_valid_between_boundaries(hay, g, spans[k - 1].0 as int);
        let a = splice_upto(hay, spans, reps, k - 1);
        let gap = hay.subrange(g, spans[k - 1].0 as int);
        assert(gap == gap_bytes(hay, spans, k - 1));
        assert(chars_satisfy(decode_utf8(gap_bytes(hay, spans, k - 1)), p));
        assert(valid_utf8(reps[k - 1]) && chars_satisfy(decode_utf8(reps[k - 1]), p));
        crate::text::lemma_decode_utf8_concat(a, gap);
        crate::text::lemma_decode_utf8_concat(a + gap, reps[k - 1]);
        lemma_chars_satisfy_concat(decode_utf8(a), decode_utf8(gap), p);
        lemma_chars_satisfy_concat(decode_utf8(a) + decode_utf8(gap), decode_utf8(reps[k - 1]), p);
        assert(splice_upto(hay, spans, reps, k) == a + gap + reps[k - 1]);
    } else {
        assert(splice_upto(hay, spans, reps, 0) =~= Seq::<u8>::empty());
        assert(decode_utf8(Seq::<u8>::empty()) =~= Seq::<char>::empty());
    }
    if k == spans.len() {
        let g = gap_start(spans, k);
        if k > 0 {
            assert(is_char_boundary(hay, spans[k - 1].0 as int));
            assert(is_char_boundary(hay, spans[k - 1].1 as int));
        }
        lemma_valid_between_boundaries(hay, g, hay.len() as int);
        let a = splice_upto(hay, spans, reps, k);
        let fin = hay.subrange(g, hay.len() as int);
        assert(fin == gap_bytes(hay, spans, k));
        assert(chars_satisfy(decode_utf8(gap_bytes(hay, spans, k)), p));
        crate::text::lemma_decode_utf8_concat(a, fin);
        lemma_chars_satisfy_concat(decode_utf8(a), decode_utf8(fin), p);
        assert(splice(hay, spans, reps) == a + fin);
    }
}

/// Whether the regex finds in `text` what `UNICODE_ESCAPE_PATTERN` is
/// written to match: it compiles, and its matches come in order, fall on
/// character boundaries, are one character each, and leave between them
/// no character that the pattern matches.
pub open spec fn unicode_pattern_found(text: Seq<char>) -> bool {
    let hay = encode_utf8(text);
    let spans = regex_matches(UNICODE_ESCAPE_PATTERN@, text);
    &&& regex_compiles(UNICODE_ESCAPE_PATTERN@)
    &&& spans_in_order(spans, hay.len() as int)
    &&& forall|j: int|
        0 <= j < spans.len() ==> is_char_boundary(hay, #[trigger] spans[j].0 as int)
            && is_char_boundary(hay, spans[j].1 as int)
    &&& spans_single_chars(hay, spans)
    &&& spans_class_chars(hay, spans)
    &&& unicode_gaps_clear(hay, spans)
}

/// Reading the escaped text gives the text back, where the regex finds
/// what the pattern is written to match.
pub proof fn lemma_escape_string_roundtrip(text: Seq<char>)
    requires
        unicode_pattern_found(text),
    ensures
        unescape(escape_string(text)) == text,
{
    let hay = encode_utf8(text);
    let spans = regex_matches(UNICODE_ESCAPE_PATTERN@, text);
    let reps = char_reference_reps(hay, spans);
    lemma_gaps_free_of_ampersand(hay, spans, |c: char| !unicode_escape_class(c));
    assert forall|j: int| 0 <= j < spans.len() implies reads_back(#[trigger] reps[j], span_bytes(hay, spans, j)) by {
        let m = span_bytes(hay, spans, j);
        let c = decode_utf8(m)[0];
        assert(decode_utf8(m).len() == 1);
        assert(decode_utf8(m) =~= seq![c]);
        assert(reps[j] == encode_utf8(char_reference(c)));
        assert forall|rest: Seq<char>| #[trigger] unescape(decode_utf8(reps[j]) + rest) == decode_utf8(m) + unescape(rest) by {
            lemma_unescape_reference_prefix(c, rest);
        }
    }
    lemma_splice_reads_back(hay, spans, reps);
}

/// Whether the byte regex finds in `data` what `UTF8_ESCAPE_PATTERN` is
/// written to match: it compiles, and its matches come in order, fall on
/// character boundaries, are each a markup byte or valid UTF-8, and leave
/// between them no character whose bytes the pattern matches.
pub open spec fn utf8_pattern_found(data: Seq<u8>) -> bool {
    let spans = bytes_regex_matches(UTF8_ESCAPE_PATTERN@, data);
    &&& bytes_regex_compiles(UTF8_ESCAPE_PATTERN@)
    &&& spans_in_order(spans, data.len() as int)
    &&& spans_on_boundaries(data, spans)
    &&& spans_utf8_ok(data, spans)
    &&& spans_high_runs(data, spans)
    &&& utf8_gaps_clear(data, spans)
}

/// Reading the escaped bytes gives back the text they encode, where the
/// regex finds what the pattern is written to match.
pub proof fn lemma_escape_bytes_roundtrip(data: Seq<u8>)
    requires
        valid_utf8(data),
        utf8_pattern_found(data),
    ensures
        unescape(escape_bytes(data)) == decode_utf8(data),
{
    let spans = bytes_regex_matches(UTF8_ESCAPE_PATTERN@, data);
    let reps = utf8_match_reps(data, spans);
    lemma_gaps_free_of_ampersand(data, spans, |c: char| !utf8_escape_class(c));
    assert forall|j: int| 0 <= j < spans.len() implies reads_back(#[trigger] reps[j], span_bytes(data, spans, j)) by {
        let m = span_bytes(data, spans, j);
        assert(utf8_match_ok(m));
        if m.len() == 1 && low_entity(m[0]) is Some {
            let b = m[0];
            let c = b as char;
            assert((c as u32) < 128);
            assert(c as u8 == b);
            lemma_single_char_encoding(c);
            assert(m =~= seq![b]);
            assert(encode_utf8(seq![c]) == m);
            assert(decode_utf8(m) == seq![c]);
            assert(char_reference(c) == low_entity(b)->0);
            assert(reps[j] == encode_utf8(char_reference(c)));
            assert forall|rest: Seq<char>| #[trigger] unescape(decode_utf8(reps[j]) + rest) == decode_utf8(m) + unescape(rest) by {
                lemma_unescape_reference_prefix(c, rest);
            }
        } else {
            assert(valid_utf8(m));
            assert(reps[j] == encode_utf8(numeric_references(decode_utf8(m))));
            assert forall|rest: Seq<char>| #[trigger] unescape(decode_utf8(reps[j]) + rest) == decode_utf8(m) + unescape(rest) by {
                lemma_unescape_numeric_references(decode_utf8(m), rest);
            }
        }
    }
    lemma_splice_reads_back(data, spans, reps);
}

proof fn lemma_gap_chars_weaken(
    hay: Seq<u8>,
    spans: Seq<(usize, usize)>,
    p: spec_fn(char) -> bool,
    q: spec_fn(char) -> bool,
)
    requires
        gap_chars_satisfy(hay, spans, p),
        forall|c: char| #[trigger] p(c) ==> q(c),
    ensures
        gap_chars_satisfy(hay, spans, q),
{
    assert forall|k: int| 0 <= k <= spans.len() implies chars_satisfy(
        decode_utf8(#[trigger] gap_bytes(hay, spans, k)),
        q,
    ) by {
        let g = decode_utf8(gap_bytes(hay, spans, k));
        assert(chars_satisfy(g, p));
        assert forall|i: int| 0 <= i < g.len() implies q(#[trigger] g[i]) by {
            assert(p(g[i]));
        }
    }
}

/// The characters of a reference: below DEL, and no markup but `&`.
pub open spec fn reference_safe(c: char) -> bool {
    c < '\x7f' && (c == '&' || !is_markup_char(c))
}

proof fn lemma_numeric_references_safe(cs: Seq<char>)
    ensures
        chars_satisfy(numeric_references(cs), |c: char| reference_safe(c)),
    decreases cs.len(),
{
    if cs.len() > 0 {
        lemma_numeric_references_safe(cs.drop_last());
        let r = numeric_reference(cs.last());
        lemma_numeric_reference_roundtrip(cs.last());
        assert forall|i: int| 0 <= i < r.len() implies (|c: char| reference_safe(c))(#[trigger] r[i]) by {
            assert(r[i] < '\x7f');
            if i > 0 {
                assert(!is_markup_char(r[i]));
            }
        }
        lemma_chars_satisfy_concat(numeric_references(cs.drop_last()), r, |c: char| reference_safe(c));
    }
}

proof fn lemma_char_reference_safe(c: char)
    ensures
        chars_satisfy(char_reference(c), |c: char| reference_safe(c)),
{
    let r = char_reference(c);
    lemma_char_reference_roundtrip(c);
    assert forall|i: int| 0 <= i < r.len() implies (|c: char| reference_safe(c))(#[trigger] r[i]) by {
        assert(r[i] < '\x7f');
        if i > 0 {
            assert(!is_markup_char(r[i]));
        }
    }
}

/// The escaped text can stand in an XML attribute value or character
/// data: it holds no `<`, `>`, `"` or `'`, every `&` in it starts a
/// reference, and it holds no character from U+007F to U+FFFF; where the
/// regex finds what the pattern is written to match.
pub proof fn lemma_escaped_string_is_plain(text: Seq<char>)
    requires
        unicode_pattern_found(text),
    ensures
        forall|i: int|
            0 <= i < escape_string(text).len() ==> #[trigger] escape_string(text)[i] == '&'
                || !unicode_escape_class(escape_string(text)[i]),
{
    let hay = encode_utf8(text);
    let spans = regex_matches(UNICODE_ESCAPE_PATTERN@, text);
    let reps = char_reference_reps(hay, spans);
    let p = |c: char| c == '&' || !unicode_escape_class(c);
    lemma_gap_chars_weaken(hay, spans, |c: char| !unicode_escape_class(c), p);
    assert forall|j: int| 0 <= j < reps.len() implies valid_utf8(#[trigger] reps[j]) && chars_satisfy(
        decode_utf8(reps[j]),
        p,
    ) by {
        let m = span_bytes(hay, spans, j);
        let c = decode_utf8(m)[0];
        let r = char_reference(c);
        assert(reps[j] == encode_utf8(r));
        lemma_char_reference_safe(c);
        assert forall|i: int| 0 <= i < r.len() implies p(#[trigger] r[i]) by {
            assert(reference_safe(r[i]));
        }
    }
    lemma_splice_chars(hay, spans, reps, p, spans.len() as int);
    let out = escape_string(text);
    assert forall|i: int| 0 <= i < out.len() implies #[trigger] out[i] == '&' || !unicode_escape_class(out[i]) by {
        assert(p(out[i]));
    }
}

/// The escaped bytes read as ASCII text below DEL that holds no `<`, `>`,
/// `"` or `'`, every `&` in it starting a reference; where the regex finds
/// what the pattern is written to match.
pub proof fn lemma_escaped_bytes_are_plain(data: Seq<u8>)
    requires
        valid_utf8(data),
        utf8_pattern_found(data),
    ensures
        forall|i: int| 0 <= i < escape_bytes(data).len() ==> reference_safe(#[trigger] escape_bytes(data)[i]),
{
    let spans = bytes_regex_matches(UTF8_ESCAPE_PATTERN@, data);
    let reps = utf8_match_reps(data, spans);
    let p = |c: char| reference_safe(c);
    lemma_gap_chars_weaken(data, spans, |c: char| !utf8_escape_class(c), p);
    assert forall|j: int| 0 <= j < reps.len() implies valid_utf8(#[trigger] reps[j]) && chars_satisfy(
        decode_utf8(reps[j]),
        p,
    ) by {
        let m = span_bytes(data, spans, j);
        assert(utf8_match_ok(m));
        if m.len() == 1 && low_entity(m[0]) is Some {
            let b = m[0];
            let c = b as char;
            assert((c as u32) < 128);
            assert(c as u8 == b);
            assert(char_reference(c) == low_entity(b)->0);
            lemma_char_reference_safe(c);
        } else {
            lemma_numeric_references_safe(decode_utf8(m));
        }
    }
    lemma_splice_chars(data, spans, reps, p, spans.len() as int);
    let out = escape_bytes(data);
    assert forall|i: int| 0 <= i < out.len() implies reference_safe(#[trigger] out[i]) by {
        assert(p(out[i]));
    }
}

/// What escaping makes of one character: its reference when the class
/// `cls` holds it, else the character itself.
pub open spec fn escape_char_in(c: char, cls: spec_fn(char) -> bool) -> Seq<char> {
    if cls(c) {
        char_reference(c)
    } else {
        seq![c]
    }
}

/// Each character of `s` escaped, one after another, where the class `cls`
/// holds the characters that are replaced by their references.
pub open spec fn escape_map_in(s: Seq<char>, cls: spec_fn(char) -> bool) -> Seq<char>
    decreases s.len(),
{
    if s.len() == 0 {
        seq![]
    } else {
        escape_map_in(s.drop_last(), cls) + escape_char_in(s.last(), cls)
    }
}

/// `text` with each character that `UNICODE_ESCAPE_PATTERN` matches (the
/// markup characters and U+007F to U+FFFF) replaced by its reference.
pub open spec fn escape_text(text: Seq<char>) -> Seq<char> {
    escape_map_in(text, |c: char| unicode_escape_class(c))
}

/// `text` with each character whose bytes `UTF8_ESCAPE_PATTERN` matches
/// (the markup characters and all from U+007F up) replaced by its
/// reference.
pub open spec fn escape_utf8_text(text: Seq<char>) -> Seq<char> {
    escape_map_in(text, |c: char| utf8_escape_class(c))
}

proof fn lemma_escape_map_concat(a: Seq<char>, b: Seq<char>, cls: spec_fn(char) -> bool)
    ensures
        escape_map_in(a + b, cls) == escape_map_in(a, cls) + escape_map_in(b, cls),
    decreases b.len(),
{
    if b.len() == 0 {
        assert(a + b =~= a);
        assert(escape_map_in(a, cls) + escape_map_in(b, cls) =~= escape_map_in(a, cls));
    } else {
        lemma_escape_map_concat(a, b.drop_last(), cls);
        assert((a + b).drop_last() =~= a + b.drop_last());
        assert((a + b).last() == b.last());
        assert(escape_map_in(a, cls) + escape_map_in(b, cls) =~= escape_map_in(a, cls)
            + escape_map_in(b.drop_last(), cls) + escape_char_in(b.last(), cls));
    }
}

proof fn lemma_escape_map_plain(a: Seq<char>, cls: spec_fn(char) -> bool)
    requires
        forall|i: int| 0 <= i < a.len() ==> !cls(#[trigger] a[i]),
    ensures
        escape_map_in(a, cls) == a,
    decreases a.len(),
{
    if a.len() > 0 {
        lemma_escape_map_plain(a.drop_last(), cls);
        assert(!cls(a[a.len() - 1]));
        assert(a =~= a.drop_last() + seq![a.last()]);
    }
}

proof fn lemma_escape_map_single(c: char, cls: spec_fn(char) -> bool)
    ensures
        escape_map_in(seq![c], cls) == escape_char_in(c, cls),
{
    assert(seq![c].drop_last() =~= Seq::<char>::empty());
    assert(seq![c].last() == c);
    assert(escape_map_in(Seq::<char>::empty(), cls) + escape_char_in(c, cls) =~= escape_char_in(c, cls));
}

/// A character with a named entity is a markup character.
proof fn lemma_named_entity_is_markup(c: char)
    requires
        (c as u32) < 128,
        low_entity(c as u8) is Some,
    ensures
        is_markup_char(c),
{
    reveal_strlit("&amp;");
    reveal_strlit("&apos;");
    reveal_strlit("&quot;");
    reveal_strlit("&lt;");
    reveal_strlit("&gt;");
    lemma_char_reference_roundtrip(c);
    let r = char_reference(c);
    let b = c as u8;
    if b == 38 {
        assert(r == "&amp;"@);
    } else if b == 39 {
        assert(r == "&apos;"@);
    } else if b == 34 {
        assert(r == "&quot;"@);
        assert(r[1] != "&apos;"@[1]);
    } else if b == 60 {
        assert(r == "&lt;"@);
    } else {
        assert(r == "&gt;"@);
        assert(r[1] != "&lt;"@[1]);
    }
}

proof fn lemma_escape_map_numeric(cs: Seq<char>)
    requires
        forall|i: int| 0 <= i < cs.len() ==> '\x7f' <= #[trigger] cs[i],
    ensures
        escape_utf8_text(cs) == numeric_references(cs),
    decreases cs.len(),
{
    if cs.len() > 0 {
        lemma_escape_map_numeric(cs.drop_last());
        let c = cs.last();
        assert('\x7f' <= cs[cs.len() - 1]);
        assert(utf8_escape_class(c));
        if (c as u32) < 128 && low_entity(c as u8) is Some {
            lemma_named_entity_is_markup(c);
        }
        assert(escape_char_in(c, |c: char| utf8_escape_class(c)) == numeric_reference(c));
    }
}

proof fn lemma_escape_map_step(
    prev: Seq<u8>,
    p0: Seq<u8>,
    gap: Seq<u8>,
    m: Seq<u8>,
    rep: Seq<u8>,
    cls: spec_fn(char) -> bool,
)
    requires
        valid_utf8(prev),
        valid_utf8(p0),
        valid_utf8(gap),
        valid_utf8(m),
        valid_utf8(rep),
        decode_utf8(prev) == escape_map_in(decode_utf8(p0), cls),
        decode_utf8(rep) == escape_map_in(decode_utf8(m), cls),
        forall|i: int| 0 <= i < decode_utf8(gap).len() ==> !cls(#[trigger] decode_utf8(gap)[i]),
    ensures
        valid_utf8(prev + gap + rep),
        valid_utf8(p0 + gap + m),
        decode_utf8(prev + gap + rep) == escape_map_in(decode_utf8(p0 + gap + m), cls),
{
    let gc = decode_utf8(gap);
    lemma_escape_map_plain(gc, cls);
    crate::text::lemma_decode_utf8_concat(prev, gap);
    crate::text::lemma_decode_utf8_concat(prev + gap, rep);
    crate::text::lemma_decode_utf8_concat(p0, gap);
    crate::text::lemma_decode_utf8_concat(p0 + gap, m);
    lemma_escape_map_concat(decode_utf8(p0), gc, cls);
    lemma_escape_map_concat(decode_utf8(p0) + gc, decode_utf8(m), cls);
}

/// Whether no character in the gaps around `spans` in `hay` is in `cls`.
pub open spec fn gaps_outside(hay: Seq<u8>, spans: Seq<(usize, usize)>, cls: spec_fn(char) -> bool) -> bool {
    forall|k: int, i: int|
        0 <= k <= spans.len() && 0 <= i < decode_utf8(gap_bytes(hay, spans, k)).len() ==> !cls(
            #[trigger] decode_utf8(#[trigger] gap_bytes(hay, spans, k))[i],
        )
}

/// Replacing spans on character boundaries by texts that are the escaped
/// form of what they replace, with no character of the class in the gaps,
/// gives the escaped form of the whole text (of its first `k` spans and
/// the gaps before them).
#[verifier::rlimit(40)]
proof fn lemma_splice_escape_map(
    hay: Seq<u8>,
    spans: Seq<(usize, usize)>,
    reps: Seq<Seq<u8>>,
    cls: spec_fn(char) -> bool,
    k: int,
)
    requires
        valid_utf8(hay),
        spans_in_order(spans, hay.len() as int),
        forall|j: int|
            0 <= j < spans.len() ==> is_char_boundary(hay, #[trigger] spans[j].0 as int)
                && is_char_boundary(hay, spans[j].1 as int),
        gaps_outside(hay, spans, cls),
        reps.len() == spans.len(),
        forall|j: int|
            0 <= j < reps.len() ==> valid_utf8(#[trigger] reps[j]) && decode_utf8(reps[j])
                == escape_map_in(decode_utf8(span_bytes(hay, spans, j)), cls),
        0 <= k <= spans.len(),
    ensures
        valid_utf8(splice_upto(hay, spans, reps, k)),
        valid_utf8(hay.subrange(0, gap_start(spans, k))),
        decode_utf8(splice_upto(hay, spans, reps, k)) == escape_map_in(
            decode_utf8(hay.subrange(0, gap_start(spans, k))),
            cls,
        ),
        k == spans.len() ==> valid_utf8(splice(hay, spans, reps)) && decode_utf8(
            splice(hay, spans, reps),
        ) == escape_map_in(decode_utf8(hay), cls),
    decreases k,
{
    is_char_boundary_start_end_of_seq(hay);
    assert forall|j: int| 0 <= j < reps.len() implies valid_utf8(#[trigger] reps[j]) by {}
    lemma_splice_valid(hay, spans, reps, k);
    if k > 0 {
        lemma_splice_escape_map(hay, spans, reps, cls, k - 1);
        let g0 = gap_start(spans, k - 1);
        let s = spans[k - 1].0 as int;
        let e = spans[k - 1].1 as int;
        assert(spans[k - 1].0 <= spans[k - 1].1);
        if k - 1 > 0 {
            assert(spans[k - 2].1 <= spans[k - 1].0);
            assert(is_char_boundary(hay, spans[k - 2].0 as int));
            assert(is_char_boundary(hay, spans[k - 2].1 as int));
        }
        assert(is_char_boundary(hay, s));
        assert(is_char_boundary(hay, e));
        lemma_valid_between_boundaries(hay, 0, g0);
        lemma_valid_between_boundaries(hay, g0, s);
        lemma_valid_between_boundaries(hay, s, e);
        let p0 = hay.subrange(0, g0);
        let gap = hay.subrange(g0, s);
        let m = hay.subrange(s, e);
        let prev = splice_upto(hay, spans, reps, k - 1);
        let rep = reps[k - 1];
        assert(valid_utf8(rep) && decode_utf8(rep) == escape_map_in(decode_utf8(span_bytes(hay, spans, k - 1)), cls));
        assert(gap == gap_bytes(hay, spans, k - 1));
        assert forall|i: int| 0 <= i < decode_utf8(gap).len() implies !cls(#[trigger] decode_utf8(gap)[i]) by {
            assert(!cls(decode_utf8(gap_bytes(hay, spans, k - 1))[i]));
        }
        lemma_escape_map_step(prev, p0, gap, m, rep, cls);
        assert(splice_upto(hay, spans, reps, k) == prev + gap + rep);
        assert(hay.subrange(0, e) =~= p0 + gap + m);
    } else {
        assert(splice_upto(hay, spans, reps, 0) =~= Seq::<u8>::empty());
        assert(hay.subrange(0, 0) =~= Seq::<u8>::empty());
        assert(decode_utf8(Seq::<u8>::empty()) =~= Seq::<char>::empty());
        assert(escape_map_in(Seq::<char>::empty(), cls) =~= Seq::<char>::empty());
    }
    if k == spans.len() {
        let g = gap_start(spans, k);
        if k > 0 {
            assert(is_char_boundary(hay, spans[k - 1].0 as int));
            assert(is_char_boundary(hay, spans[k - 1].1 as int));
        }
        lemma_valid_between_boundaries(hay, g, hay.len() as int);
        let a = splice_upto(hay, spans, reps, k);
        let p0 = hay.subrange(0, g);
        let fin = hay.subrange(g, hay.len() as int);
        assert(fin == gap_bytes(hay, spans, k));
        let fc = decode_utf8(fin);
        assert forall|i: int| 0 <= i < fc.len() implies !cls(#[trigger] fc[i]) by {
            assert(!cls(decode_utf8(gap_bytes(hay, spans, k))[i]));
        }
        lemma_escape_map_plain(fc, cls);
        crate::text::lemma_decode_utf8_concat(a, fin);
        crate::text::lemma_decode_utf8_concat(p0, fin);
        lemma_escape_map_concat(decode_utf8(p0), fc, cls);
        assert(splice(hay, spans, reps) == a + fin);
        assert(p0 + fin =~= hay);
    }
}

/// Where the regex finds what `UNICODE_ESCAPE_PATTERN` is written to match,
/// escaping a text replaces exactly the characters of the pattern's class
/// by their references.
pub proof fn lemma_escape_string_is_map(text: Seq<char>)
    requires
        unicode_pattern_found(text),
    ensures
        escape_string(text) == escape_text(text),
{
    let hay = encode_utf8(text);
    let spans = regex_matches(UNICODE_ESCAPE_PATTERN@, text);
    let reps = char_reference_reps(hay, spans);
    let cls = |c: char| unicode_escape_class(c);
    assert forall|k: int, i: int|
        0 <= k <= spans.len() && 0 <= i < decode_utf8(gap_bytes(hay, spans, k)).len() implies !cls(
        #[trigger] decode_utf8(#[trigger] gap_bytes(hay, spans, k))[i],
    ) by {
        let g = decode_utf8(gap_bytes(hay, spans, k));
        assert(chars_satisfy(g, |c: char| !unicode_escape_class(c)));
        assert((|c: char| !unicode_escape_class(c))(g[i]));
    }
    assert forall|j: int| 0 <= j < reps.len() implies valid_utf8(#[trigger] reps[j]) && decode_utf8(
        reps[j],
    ) == escape_map_in(decode_utf8(span_bytes(hay, spans, j)), cls) by {
        let m = span_bytes(hay, spans, j);
        let c = decode_utf8(m)[0];
        assert(decode_utf8(m).len() == 1);
        assert(decode_utf8(m) =~= seq![c]);
        assert(unicode_escape_class(c));
        lemma_escape_map_single(c, cls);
        assert(reps[j] == encode_utf8(char_reference(c)));
    }
    lemma_splice_escape_map(hay, spans, reps, cls, spans.len() as int);
}

/// Where the byte regex finds what `UTF8_ESCAPE_PATTERN` is written to
/// match, escaping UTF-8 bytes gives the text they encode with exactly the
/// characters of the pattern's class replaced by their references.
pub proof fn lemma_escape_bytes_is_map(data: Seq<u8>)
    requires
        valid_utf8(data),
        utf8_pattern_found(data),
    ensures
        escape_bytes(data) == escape_utf8_text(decode_utf8(data)),
{
    let spans = bytes_regex_matches(UTF8_ESCAPE_PATTERN@, data);
    let reps = utf8_match_reps(data, spans);
    let cls = |c: char| utf8_escape_class(c);
    assert forall|k: int, i: int|
        0 <= k <= spans.len() && 0 <= i < decode_utf8(gap_bytes(data, spans, k)).len() implies !cls(
        #[trigger] decode_utf8(#[trigger] gap_bytes(data, spans, k))[i],
    ) by {
        let g = decode_utf8(gap_bytes(data, spans, k));
        assert(chars_satisfy(g, |c: char| !utf8_escape_class(c)));
        assert((|c: char| !utf8_escape_class(c))(g[i]));
    }
    assert forall|j: int| 0 <= j < reps.len() implies valid_utf8(#[trigger] reps[j]) && decode_utf8(
        reps[j],
    ) == escape_map_in(decode_utf8(span_bytes(data, spans, j)), cls) by {
        let m = span_bytes(data, spans, j);
        assert(utf8_match_ok(m));
        if m.len() == 1 && low_entity(m[0]) is Some {
            let b = m[0];
            let c = b as char;
            assert((c as u32) < 128);
            assert(c as u8 == b);
            lemma_single_char_encoding(c);
            assert(m =~= seq![b]);
            assert(encode_utf8(seq![c]) == m);
            assert(decode_utf8(m) == seq![c]);
            assert(char_reference(c) == low_entity(b)->0);
            lemma_named_entity_is_markup(c);
            lemma_escape_map_single(c, cls);
            assert(reps[j] == encode_utf8(char_reference(c)));
        } else {
            let cs = decode_utf8(m);
            assert(forall|i: int| 0 <= i < cs.len() ==> '\x7f' <= #[trigger] cs[i]);
            lemma_escape_map_numeric(cs);
            assert(reps[j] == encode_utf8(numeric_references(cs)));
        }
    }
    lemma_splice_escape_map(data, spans, reps, cls, spans.len() as int);
}

/// The two escapers agree on text without characters above U+FFFF: the
/// byte escaper replaces what the text escaper replaces, and only it.
pub proof fn lemma_escapers_agree(text: Seq<char>)
    requires
        forall|i: int| 0 <= i < text.len() ==> #[trigger] text[i] <= '\u{ffff}',
    ensures
        escape_utf8_text(text) == escape_text(text),
    decreases text.len(),
{
    if text.len() > 0 {
        let init = text.drop_last();
        assert forall|i: int| 0 <= i < init.len() implies #[trigger] init[i] <= '\u{ffff}' by {
            assert(init[i] == text[i]);
        }
        lemma_escapers_agree(init);
        let c = text.last();
        assert(text[text.len() - 1] <= '\u{ffff}');
        assert(utf8_escape_class(c) == unicode_escape_class(c));
    }
}

} // verus!
