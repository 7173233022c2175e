//! Splitting a stream of byte chunks into lines.
//!
//! A line is a maximal run of bytes that ends just after a `\n`, or the bytes
//! left after the last `\n` at the end of the stream. Chunk boundaries carry no
//! meaning: the lines of a stream depend only on the concatenation of its
//! chunks.

use vstd::prelude::*;
use vstd::slice::slice_to_vec;

verus! {

/// The newline byte.
pub open spec fn newline() -> u8 {
    10u8
}

/// Index of the first `\n` in `s`, or `s.len()` when there is none.
pub open spec fn newline_index(s: Seq<u8>) -> int
    decreases s.len(),
{
    if s.len() == 0 {
        0
    } else if s[0] == newline() {
        0
    } else {
        1 + newline_index(s.drop_first())
    }
}

/// End (exclusive) of the first line of `s`: just after the first `\n`, or
/// the end of `s` when it holds no `\n`.
pub open spec fn first_line_end(s: Seq<u8>) -> int {
    if newline_index(s) < s.len() {
        newline_index(s) + 1
    } else {
        s.len() as int
    }
}

/// The lines of `s`, in order.
pub open spec fn lines(s: Seq<u8>) -> Seq<Seq<u8>>
    decreases s.len(),
{
    if s.len() == 0 {
        seq![]
    } else {
        proof {
            lemma_newline_index(s);
        }
        seq![s.subrange(0, first_line_end(s))] + lines(s.subrange(first_line_end(s), s.len() as int))
    }
}

/// The concatenation of the chunks `s[i]`, `s[i + 1]`, ... up to the end.
pub open spec fn concat_from(s: Seq<Seq<u8>>, i: int) -> Seq<u8>
    decreases s.len() - i,
{
    if i < 0 || i >= s.len() {
        seq![]
    } else {
        s[i] + concat_from(s, i + 1)
    }
}

/// The concatenation of all the chunks of `s`.
pub open spec fn concat(s: Seq<Seq<u8>>) -> Seq<u8> {
    concat_from(s, 0)
}

/// The contents of a vector of byte vectors.
pub open spec fn byte_seqs(v: Seq<Vec<u8>>) -> Seq<Seq<u8>> {
    v.map_values(|c: Vec<u8>| c@)
}

/// What `newline_index` denotes: the first `\n`, if any.
pub proof fn lemma_newline_index(s: Seq<u8>)
    ensures
        0 <= newline_index(s) <= s.len(),
        newline_index(s) < s.len() ==> s[newline_index(s)] == newline(),
        forall|j: int| 0 <= j < newline_index(s) ==> s[j] != newline(),
    decreases s.len(),
{
    if s.len() > 0 && s[0] != newline() {
        lemma_newline_index(s.drop_first());
        assert forall|j: int| 0 <= j < newline_index(s) implies s[j] != newline() by {
            if j > 0 {
                assert(s[j] == s.drop_first()[j - 1]);
            }
        }
    }
}

/// The first `\n` of `p + r` is that of `p` when `p` holds one.
proof fn lemma_newline_index_concat(p: Seq<u8>, r: Seq<u8>)
    ensures
        newline_index(p) < p.len() ==> newline_index(p + r) == newline_index(p),
        newline_index(p) == p.len() ==> newline_index(p + r) == p.len() + newline_index(r),
    decreases p.len(),
{
    lemma_newline_index(p);
    if p.len() == 0 {
        assert(p + r =~= r);
    } else if p[0] != newline() {
        lemma_newline_index_concat(p.drop_first(), r);
        assert((p + r).drop_first() =~= p.drop_first() + r);
    }
}

/// When `p` holds a `\n`, the first line of `p + r` is that of `p`, and the
/// remaining lines are those of what follows it.
proof fn lemma_lines_prefix(p: Seq<u8>, r: Seq<u8>)
    requires
        newline_index(p) < p.len(),
    ensures
        lines(p + r) == seq![p.subrange(0, first_line_end(p))] + lines(
            p.subrange(first_line_end(p), p.len() as int) + r,
        ),
{
    lemma_newline_index(p);
    lemma_newline_index_concat(p, r);
    let k = first_line_end(p);
    assert((p + r).subrange(0, k) =~= p.subrange(0, k));
    assert((p + r).subrange(k, (p + r).len() as int) =~= p.subrange(k, p.len() as int) + r);
}

/// The concatenation of a sequence of lines.
pub open spec fn join(ls: Seq<Seq<u8>>) -> Seq<u8> {
    concat(ls)
}

proof fn lemma_concat_from_prepend(x: Seq<u8>, s: Seq<Seq<u8>>)
    ensures
        concat(seq![x] + s) == x + concat(s),
{
    let t = seq![x] + s;
    assert forall|i: int| 0 <= i <= s.len() implies #[trigger] concat_from(t, i + 1) == concat_from(s, i) by {
        lemma_concat_from_shift(x, s, i);
    }
    assert(concat_from(t, 1) == concat_from(s, 0));
}

proof fn lemma_concat_from_shift(x: Seq<u8>, s: Seq<Seq<u8>>, i: int)
    requires
        0 <= i <= s.len(),
    ensures
        concat_from(seq![x] + s, i + 1) == concat_from(s, i),
    decreases s.len() - i,
{
    if i < s.len() {
        lemma_concat_from_shift(x, s, i + 1);
        assert((seq![x] + s)[i + 1] == s[i]);
    }
}

/// The lines of a byte sequence give it back when joined; none is empty;
/// each holds no `\n` but possibly as its last byte; and each but the last
/// ends with `\n`.
pub proof fn lemma_lines_reassemble(s: Seq<u8>)
    ensures
        join(lines(s)) == s,
        forall|i: int| 0 <= i < lines(s).len() ==> #[trigger] lines(s)[i].len() > 0,
        forall|i: int, j: int|
            0 <= i < lines(s).len() && 0 <= j < lines(s)[i].len() - 1 ==> #[trigger] lines(s)[i][j]
                != newline(),
        forall|i: int|
            0 <= i < lines(s).len() - 1 ==> #[trigger] lines(s)[i].last() == newline(),
        s.len() > 0 && s.last() == newline() ==> lines(s).len() > 0 && lines(s).last().last()
            == newline(),
    decreases s.len(),
{
    if s.len() > 0 {
        lemma_newline_index(s);
        let k = first_line_end(s);
        let head = s.subrange(0, k);
        let rest = s.subrange(k, s.len() as int);
        lemma_lines_reassemble(rest);
        lemma_concat_from_prepend(head, lines(rest));
        assert(head + rest =~= s);
        let ls = lines(s);
        assert(ls == seq![head] + lines(rest));
        assert forall|i: int, j: int|
            0 <= i < ls.len() && 0 <= j < ls[i].len() - 1 implies #[trigger] ls[i][j] != newline() by {
            if i > 0 {
                assert(ls[i] == lines(rest)[i - 1]);
            }
        }
        assert forall|i: int| 0 <= i < ls.len() - 1 implies #[trigger] ls[i].last() == newline() by {
            if i > 0 {
                assert(ls[i] == lines(rest)[i - 1]);
            } else {
                assert(rest.len() > 0);
                assert(newline_index(s) < s.len());
            }
        }
        assert forall|i: int| 0 <= i < ls.len() implies #[trigger] ls[i].len() > 0 by {
            if i > 0 {
                assert(ls[i] == lines(rest)[i - 1]);
            }
        }
        if s.last() == newline() {
            if rest.len() > 0 {
                assert(rest.last() == s.last());
                assert(ls.last() == lines(rest).last());
            } else {
                assert(k == s.len());
                assert(head.last() == s.last());
            }
        }
    } else {
        assert(concat_from(lines(s), 0) == Seq::<u8>::empty());
    }
}

/// `memchr::memchr`: the index of the first occurrence of `needle` in
/// `haystack`, or `None` when it does not occur. Its documentation promises
/// exactly that.
#[verifier::external_body]
fn find_byte(needle: u8, haystack: &[u8]) -> (res: Option<usize>)
    ensures
        match res {
            Some(i) => i < haystack@.len() && haystack@[i as int] == needle && forall|j: int|
                0 <= j < i ==> haystack@[j] != needle,
            None => forall|j: int| 0 <= j < haystack@.len() ==> haystack@[j] != needle,
        },
{
    memchr::memchr(needle, haystack)
}

/// What a step of the line splitter reports.
pub enum LineStep {
    /// The next line.
    Line(Vec<u8>),
    /// No complete line is pending: the caller hands over the next chunk.
    NeedChunk,
    /// The chunks are exhausted and no bytes are pending.
    Exhausted,
}

/// Splits a stream of chunks, handed over one at a time, into lines. It
/// holds the bytes received but not yet returned as a line.
pub struct ChunksToLinesIterator {
    tail: Option<Vec<u8>>,
}

impl ChunksToLinesIterator {
    /// The bytes received and not yet returned.
    pub closed spec fn pending(&self) -> Seq<u8> {
        match self.tail {
            Some(t) => t@,
            None => seq![],
        }
    }

    /// A splitter that has received nothing.
    pub fn new() -> (res: Self)
        ensures
            res.pending() == Seq::<u8>::empty(),
    {
        ChunksToLinesIterator { tail: None }
    }

    /// Takes the first line of the pending bytes when it is complete (ends
    /// with `\n`); otherwise asks for the next chunk and keeps the bytes.
    pub fn resume(&mut self) -> (res: LineStep)
        ensures
            newline_index(old(self).pending()) < old(self).pending().len() ==> {
                &&& res matches LineStep::Line(l) && l@ == old(self).pending().subrange(
                    0,
                    first_line_end(old(self).pending()),
                )
                &&& final(self).pending() == old(self).pending().subrange(
                    first_line_end(old(self).pending()),
                    old(self).pending().len() as int,
                )
            },
            newline_index(old(self).pending()) == old(self).pending().len() ==> {
                &&& res is NeedChunk
                &&& final(self).pending() == old(self).pending()
            },
    {
        proof {
            lemma_newline_index(self.pending());
        }
        match self.tail.take() {
            None => LineStep::NeedChunk,
            Some(mut chunk) => {
                match find_byte(10u8, chunk.as_slice()) {
                    Some(nl) => {
                        if nl == chunk.len() - 1 {
                            LineStep::Line(chunk)
                        } else {
                            let rest = chunk.split_off(nl + 1);
                            self.tail = Some(rest);
                            LineStep::Line(chunk)
                        }
                    },
                    None => {
                        self.tail = Some(chunk);
                        LineStep::NeedChunk
                    },
                }
            },
        }
    }

    /// Hands over the next chunk, or `None` at the end of the stream, and
    /// takes the next line if one can be given. At the end of the stream the
    /// pending bytes form a line though they lack a final `\n`.
    pub fn feed(&mut self, next: Option<Vec<u8>>) -> (res: LineStep)
        ensures
            ({
                let p = match next {
                    Some(c) => old(self).pending() + c@,
                    None => old(self).pending(),
                };
                if p.len() == 0 && next is None {
                    &&& res is Exhausted
                    &&& final(self).pending() == p
                } else if newline_index(p) < p.len() || next is None {
                    &&& res matches LineStep::Line(l) && l@ == p.subrange(0, first_line_end(p))
                    &&& final(self).pending() == p.subrange(first_line_end(p), p.len() as int)
                } else {
                    &&& res is NeedChunk
                    &&& final(self).pending() == p
                }
            }),
    {
        proof {
            lemma_newline_index(old(self).pending());
            if next is Some {
                lemma_newline_index(old(self).pending() + next->0@);
            }
        }
        match next {
            Some(mut c) => {
                let ghost c0 = c@;
                match self.tail.take() {
                    Some(mut chunk) => {
                        chunk.append(&mut c);
                        self.tail = Some(chunk);
                    },
                    None => {
                        if c.len() > 0 {
                            self.tail = Some(c);
                        }
                    },
                }
                assert(self.pending() =~= old(self).pending() + c0);
                self.resume()
            },
            None => {
                match self.tail.take() {
                    None => LineStep::Exhausted,
                    Some(chunk) => {
                        if chunk.len() == 0 {
                            LineStep::Exhausted
                        } else {
                            self.tail = Some(chunk);
                            let res = self.resume();
                            match res {
                                LineStep::NeedChunk => {
                                    match self.tail.take() {
                                        Some(rest) => {
                                            assert(rest@.subrange(0, rest@.len() as int) =~= rest@);
                                            assert(self.pending() =~= rest@.subrange(rest@.len() as int, rest@.len() as int));
                                            LineStep::Line(rest)
                                        },
                                        None => LineStep::Exhausted,
                                    }
                                },
                                other => other,
                            }
                        }
                    },
                }
            },
        }
    }
}

/// The lines of the concatenation of `chunks`, as the splitter gives them
/// when it is handed the chunks in order and then the end of the stream.
pub fn chunks_to_lines(chunks: &Vec<Vec<u8>>) -> (res: Vec<Vec<u8>>)
    ensures
        byte_seqs(res@) == lines(concat(byte_seqs(chunks@))),
{
    let ghost cs = byte_seqs(chunks@);
    let mut it = ChunksToLinesIterator::new();
    let mut out: Vec<Vec<u8>> = Vec::new();
    let mut i: usize = 0;
    let n = chunks.len();
    assert(it.pending() + concat_from(cs, 0) =~= concat(cs));
    loop
        invariant
            i <= n,
            n == chunks@.len(),
            cs == byte_seqs(chunks@),
            byte_seqs(out@) + lines(it.pending() + concat_from(cs, i as int)) == lines(concat(cs)),
        ensures
            byte_seqs(out@) == lines(concat(cs)),
        decreases n - i, it.pending().len(),
    {
        let ghost p0 = it.pending();
        let ghost r0 = concat_from(cs, i as int);
        proof {
            lemma_newline_index(p0);
        }
        match it.resume() {
            LineStep::Line(l) => {
                proof {
                    lemma_lines_prefix(p0, r0);
                }
                let ghost before = byte_seqs(out@);
                out.push(l);
                assert(byte_seqs(out@) =~= before.push(l@));
                assert(byte_seqs(out@) + lines(it.pending() + r0) =~= before + lines(p0 + r0));
            },
            _ => {
                if i < n {
                    let c = slice_to_vec(chunks[i].as_slice());
                    assert(c@ == cs[i as int]);
                    let ghost r1 = concat_from(cs, i + 1);
                    assert(r0 == cs[i as int] + r1);
                    let ghost p = p0 + c@;
                    assert(p + r1 =~= p0 + r0);
                    i = i + 1;
                    proof {
                        lemma_newline_index(p);
                    }
                    match it.feed(Some(c)) {
                        LineStep::Line(l) => {
                            proof {
                                lemma_lines_prefix(p, r1);
                            }
                            let ghost before = byte_seqs(out@);
                            out.push(l);
                            assert(byte_seqs(out@) =~= before.push(l@));
                            assert(byte_seqs(out@) + lines(it.pending() + r1) =~= before + lines(p + r1));
                        },
                        _ => {},
                    }
                } else {
                    assert(r0 =~= Seq::<u8>::empty());
                    assert(p0 + r0 =~= p0);
                    match it.feed(None) {
                        LineStep::Line(l) => {
                            let ghost before = byte_seqs(out@);
                            out.push(l);
                            assert(byte_seqs(out@) =~= before.push(l@));
                            assert(it.pending() + r0 =~= it.pending());
                            assert(byte_seqs(out@) + lines(it.pending() + r0) =~= before + lines(p0 + r0));
                        },
                        _ => {
                            assert(lines(p0 + r0) =~= Seq::<Seq<u8>>::empty());
                            assert(byte_seqs(out@) + lines(p0 + r0) =~= byte_seqs(out@));
                            break;
                        },
                    }
                }
            },
        }
    }
    out
}

/// The lines of `data`.
pub fn split_lines(data: &[u8]) -> (res: Vec<Vec<u8>>)
    ensures
        byte_seqs(res@) == lines(data@),
{
    let mut chunks: Vec<Vec<u8>> = Vec::new();
    chunks.push(slice_to_vec(data));
    let res = chunks_to_lines(&chunks);
    assert(byte_seqs(chunks@) =~= seq![data@]);
    assert(concat_from(seq![data@], 1) =~= Seq::<u8>::empty());
    assert(concat(seq![data@]) =~= data@);
    res
}

/// Taking the first line of a byte sequence loses nothing: the line and
/// what is left make up the sequence again; the line is not empty when the
/// sequence is not, and holds no `\n` but possibly as its last byte.
pub proof fn lemma_first_line_conserves_bytes(p: Seq<u8>)
    ensures
        p.subrange(0, first_line_end(p)) + p.subrange(first_line_end(p), p.len() as int) == p,
        p.len() > 0 ==> first_line_end(p) > 0,
        forall|j: int| 0 <= j < first_line_end(p) - 1 ==> p[j] != newline(),
        first_line_end(p) < p.len() ==> p[first_line_end(p) - 1] == newline(),
{
    lemma_newline_index(p);
    assert(p.subrange(0, first_line_end(p)) + p.subrange(first_line_end(p), p.len() as int) =~= p);
}

/// The number of `\n` bytes in `s`.
pub open spec fn count_newlines(s: Seq<u8>) -> nat
    decreases s.len(),
{
    if s.len() == 0 {
        0
    } else {
        (if s[0] == newline() { 1nat } else { 0nat }) + count_newlines(s.drop_first())
    }
}

proof fn lemma_count_newlines_concat(a: Seq<u8>, b: Seq<u8>)
    ensures
        count_newlines(a + b) == count_newlines(a) + count_newlines(b),
    decreases a.len(),
{
    if a.len() == 0 {
        assert(a + b =~= b);
    } else {
        lemma_count_newlines_concat(a.drop_first(), b);
        assert((a + b).drop_first() =~= a.drop_first() + b);
        assert((a + b)[0] == a[0]);
    }
}

/// A line that ends with `\n` and holds no other holds one `\n`.
proof fn lemma_count_newlines_line(l: Seq<u8>)
    requires
        l.len() > 0,
        l.last() == newline(),
        forall|j: int| 0 <= j < l.len() - 1 ==> l[j] != newline(),
    ensures
        count_newlines(l) == 1,
    decreases l.len(),
{
    if l.len() > 1 {
        let t = l.drop_first();
        assert forall|j: int| 0 <= j < t.len() - 1 implies t[j] != newline() by {
            assert(t[j] == l[j + 1]);
        }
        assert(t.last() == l.last());
        lemma_count_newlines_line(t);
        assert(l[0] != newline());
    } else {
        assert(l.drop_first() =~= Seq::<u8>::empty());
        assert(count_newlines(l.drop_first()) == 0);
        assert(l[0] == l.last());
    }
}

/// A byte sequence that is empty or ends with `\n` splits into as many
/// lines as it holds `\n` bytes.
pub proof fn lemma_lines_count(s: Seq<u8>)
    requires
        s.len() == 0 || s.last() == newline(),
    ensures
        lines(s).len() == count_newlines(s),
    decreases s.len(),
{
    if s.len() > 0 {
        lemma_newline_index(s);
        let k = first_line_end(s);
        let head = s.subrange(0, k);
        let rest = s.subrange(k, s.len() as int);
        assert(newline_index(s) < s.len());
        assert(head.last() == newline());
        assert forall|j: int| 0 <= j < head.len() - 1 implies head[j] != newline() by {
            assert(head[j] == s[j]);
        }
        lemma_count_newlines_line(head);
        if rest.len() > 0 {
            assert(rest.last() == s.last());
        }
        lemma_lines_count(rest);
        assert(head + rest =~= s);
        lemma_count_newlines_concat(head, rest);
    }
}

} // verus!
