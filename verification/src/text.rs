//! Character and byte sequence helpers shared by the serialisers: decimal
//! and hexadecimal rendering, UTF-8 conversions and string comparison.

use vstd::prelude::*;
use vstd::utf8::*;

verus! {

broadcast use vstd::utf8::group_utf8_lib;

/// The character for the hexadecimal digit `d` (`0`-`9`, then `a`-`f`).
pub open spec fn hex_digit_char(d: int) -> char {
    if d <= 0 { '0' } else if d == 1 { '1' } else if d == 2 { '2' } else if d == 3 { '3' }
    else if d == 4 { '4' } else if d == 5 { '5' } else if d == 6 { '6' } else if d == 7 { '7' }
    else if d == 8 { '8' } else if d == 9 { '9' } else if d == 10 { 'a' } else if d == 11 { 'b' }
    else if d == 12 { 'c' } else if d == 13 { 'd' } else if d == 14 { 'e' } else { 'f' }
}

/// Representation of `n` in base `base` (10 or 16), most significant digit
/// first, without leading zeros.
pub open spec fn digits(n: nat, base: nat) -> Seq<char>
    recommends
        base == 10 || base == 16,
    decreases n,
{
    if n < base || base < 2 {
        seq![hex_digit_char(n as int)]
    } else {
        proof {
            assert(n / base < n) by (nonlinear_arith)
                requires
                    n >= base,
                    base >= 2,
            ;
        }
        digits(n / base, base).push(hex_digit_char((n % base) as int))
    }
}

/// Decimal representation of a natural number, as `{}` formats it.
pub open spec fn decimal(n: nat) -> Seq<char> {
    digits(n, 10)
}

/// Decimal representation of a signed integer, as `{}` formats it.
pub open spec fn decimal_signed(n: int) -> Seq<char> {
    if n < 0 {
        seq!['-'] + decimal((-n) as nat)
    } else {
        decimal(n as nat)
    }
}

/// Lower-case hexadecimal representation of `n`, zero-padded to at least two
/// digits, as `{:02x}` formats it.
pub open spec fn hex2(n: nat) -> Seq<char> {
    if n < 16 {
        seq!['0', hex_digit_char(n as int)]
    } else {
        digits(n, 16)
    }
}

fn digit_to_char(d: u64) -> (c: char)
    requires
        d < 16,
    ensures
        c == hex_digit_char(d as int),
{
    if d == 0 { '0' } else if d == 1 { '1' } else if d == 2 { '2' } else if d == 3 { '3' }
    else if d == 4 { '4' } else if d == 5 { '5' } else if d == 6 { '6' } else if d == 7 { '7' }
    else if d == 8 { '8' } else if d == 9 { '9' } else if d == 10 { 'a' } else if d == 11 { 'b' }
    else if d == 12 { 'c' } else if d == 13 { 'd' } else if d == 14 { 'e' } else { 'f' }
}

/// Appends the digits of `n` in base `base` to `out`.
fn push_digits(out: &mut Vec<char>, n: u64, base: u64)
    requires
        base == 10 || base == 16,
    ensures
        final(out)@ == old(out)@ + digits(n as nat, base as nat),
    decreases n,
{
    if n < base {
        let c = digit_to_char(n);
        out.push(c);
        assert(final(out)@ =~= old(out)@ + digits(n as nat, base as nat));
    } else {
        push_digits(out, n / base, base);
        let c = digit_to_char(n % base);
        out.push(c);
        assert(final(out)@ =~= old(out)@ + digits(n as nat, base as nat));
    }
}

/// Appends the decimal representation of `n` to `out`.
pub fn push_decimal(out: &mut Vec<char>, n: u64)
    ensures
        final(out)@ == old(out)@ + decimal(n as nat),
{
    push_digits(out, n, 10);
}

/// Appends the decimal representation of the signed `n` to `out`.
pub fn push_decimal_signed(out: &mut Vec<char>, n: i32)
    ensures
        final(out)@ == old(out)@ + decimal_signed(n as int),
{
    if n < 0 {
        out.push('-');
        let m: i64 = -(n as i64);
        push_decimal(out, m as u64);
        assert(final(out)@ =~= old(out)@ + decimal_signed(n as int));
    } else {
        push_decimal(out, n as u64);
    }
}

/// Appends `n` in lower-case hexadecimal, padded to two digits, to `out`.
pub fn push_hex2(out: &mut Vec<char>, n: u32)
    ensures
        final(out)@ == old(out)@ + hex2(n as nat),
{
    if n < 16 {
        out.push('0');
        let c = digit_to_char(n as u64);
        out.push(c);
        assert(final(out)@ =~= old(out)@ + hex2(n as nat));
    } else {
        push_digits(out, n as u64, 16);
    }
}

/// Appends the characters of `s` to `out`.
pub fn push_str(out: &mut Vec<char>, s: &str)
    ensures
        final(out)@ == old(out)@ + s@,
{
    let ghost start = out@;
    for c in it: s.chars()
        invariant
            out@ == start + s@.take(it.index() as int),
            it.seq() == s@,
    {
        out.push(c);
        assert(out@ =~= start + s@.take(it.index() + 1));
    }
    assert(s@.take(s@.len() as int) =~= s@);
}

/// A `String` holding the characters of `chars`.
#[verifier::external_body]
pub(crate) fn string_from_chars(chars: &Vec<char>) -> (res: String)
    ensures
        res@ == chars@,
{
    chars.iter().collect::<String>()
}

/// `std::str::from_utf8`: the text that `bytes` encode, or `None` when they
/// are not valid UTF-8. Its documentation promises exactly that.
#[verifier::external_body]
pub(crate) fn str_from_utf8(bytes: &[u8]) -> (res: Option<&str>)
    ensures
        res is Some <==> valid_utf8(bytes@),
        res matches Some(s) ==> s@ == decode_utf8(bytes@),
{
    std::str::from_utf8(bytes).ok()
}

/// `String::from_utf8`: the text that `bytes` encode, or `None` when they
/// are not valid UTF-8. Its documentation promises exactly that.
#[verifier::external_body]
pub(crate) fn string_from_utf8(bytes: Vec<u8>) -> (res: Option<String>)
    ensures
        res is Some <==> valid_utf8(bytes@),
        res matches Some(s) ==> s@ == decode_utf8(bytes@),
{
    String::from_utf8(bytes).ok()
}

/// The text that `String::from_utf8_lossy` makes of `bytes`.
pub uninterp spec fn utf8_lossy(bytes: Seq<u8>) -> Seq<char>;

/// `String::from_utf8_lossy`: the text that `bytes` encode, each invalid
/// sequence replaced by U+FFFD. The contract names the result, and states
/// the one case its documentation spells out: valid UTF-8 is decoded as it
/// is. Where the replacements go is left unsaid.
#[verifier::external_body]
pub(crate) fn string_from_utf8_lossy(bytes: &[u8]) -> (res: String)
    ensures
        res@ == utf8_lossy(bytes@),
        valid_utf8(bytes@) ==> res@ == decode_utf8(bytes@),
{
    String::from_utf8_lossy(bytes).into_owned()
}

/// A text of one character is encoded in one byte exactly when that
/// character is ASCII.
pub proof fn lemma_single_char_encoding(c: char)
    ensures
        encode_utf8(seq![c]) == encode_scalar(c as u32),
        encode_utf8(seq![c]).len() == 1 <==> (c as u32) < 128,
        (c as u32) < 128 ==> encode_utf8(seq![c]) == seq![c as u8],
{
    assert(seq![c].drop_first() =~= Seq::<char>::empty());
    assert(encode_utf8(Seq::<char>::empty()) =~= Seq::<u8>::empty());
    assert(encode_utf8(seq![c]) =~= encode_scalar(c as u32) + encode_utf8(Seq::<char>::empty()));
    assert(encode_utf8(seq![c]) =~= encode_scalar(c as u32));
    let v = c as u32;
    if v < 128 {
        assert((v & 0x7F) as u8 == v as u8) by (bit_vector)
            requires
                v < 128,
        ;
        assert(v as u8 == c as u8);
    }
}

/// Whether two texts hold the same characters.
pub fn str_eq(a: &str, b: &str) -> (res: bool)
    ensures
        res == (a@ == b@),
{
    let x = a.as_bytes();
    let y = b.as_bytes();
    proof {
        assert(decode_utf8(encode_utf8(a@)) == a@);
        assert(decode_utf8(encode_utf8(b@)) == b@);
    }
    if x.len() != y.len() {
        return false;
    }
    let mut i: usize = 0;
    while i < x.len()
        invariant
            x@ == encode_utf8(a@),
            y@ == encode_utf8(b@),
            x@.len() == y@.len(),
            i <= x@.len(),
            forall|j: int| 0 <= j < i ==> x@[j] == y@[j],
        decreases x@.len() - i,
    {
        if x[i] != y[i] {
            return false;
        }
        i = i + 1;
    }
    assert(x@ =~= y@);
    true
}

/// Whether every character of `s` is an ASCII decimal digit.
pub open spec fn all_digits(s: Seq<char>) -> bool {
    forall|i: int| 0 <= i < s.len() ==> '0' <= #[trigger] s[i] <= '9'
}

/// The value of the decimal digits `s`.
pub open spec fn digits_value(s: Seq<char>) -> int
    decreases s.len(),
{
    if s.len() == 0 {
        0
    } else {
        digits_value(s.drop_last()) * 10 + (s.last() as int - '0' as int)
    }
}

/// The `i32` that `s` denotes in the syntax `str::parse::<i32>` accepts: an
/// optional `+` or `-`, then one or more decimal digits, the value within
/// range; `None` for any other text.
pub open spec fn parse_i32(s: Seq<char>) -> Option<i32> {
    if s.len() == 0 {
        None
    } else {
        let neg = s[0] == '-';
        let ds = if s[0] == '-' || s[0] == '+' {
            s.drop_first()
        } else {
            s
        };
        if ds.len() == 0 || !all_digits(ds) {
            None
        } else {
            let v = if neg {
                -digits_value(ds)
            } else {
                digits_value(ds)
            };
            if i32::MIN <= v <= i32::MAX {
                Some(v as i32)
            } else {
                None
            }
        }
    }
}

/// Appending digits never lowers the value of a run of digits.
proof fn lemma_digits_value_grows(s: Seq<char>, j: int)
    requires
        all_digits(s),
        0 <= j <= s.len(),
    ensures
        0 <= digits_value(s.take(j)) <= digits_value(s),
    decreases s.len() - j,
{
    if j < s.len() {
        lemma_digits_value_grows(s, j + 1);
        assert(s.take(j + 1).drop_last() =~= s.take(j));
        assert(s.take(j + 1).last() == s[j]);
    } else {
        assert(s.take(j) =~= s);
        lemma_digits_value_nonneg(s);
    }
}

proof fn lemma_digits_value_nonneg(s: Seq<char>)
    requires
        all_digits(s),
    ensures
        digits_value(s) >= 0,
    decreases s.len(),
{
    if s.len() > 0 {
        assert(all_digits(s.drop_last()));
        lemma_digits_value_nonneg(s.drop_last());
    }
}

/// Parses `s` as `str::parse::<i32>` does: an optional `+` or `-`, then one
/// or more decimal digits; `None` when the text has another form or its
/// value does not fit in an `i32`.
pub fn parse_i32_text(s: &str) -> (res: Option<i32>)
    ensures
        res == parse_i32(s@),
{
    let mut cs: Vec<char> = Vec::new();
    push_str(&mut cs, s);
    assert(cs@ =~= s@);
    if cs.len() == 0 {
        return None;
    }
    let neg = cs[0] == '-';
    let start: usize = if cs[0] == '-' || cs[0] == '+' { 1 } else { 0 };
    let ghost ds = if s@[0] == '-' || s@[0] == '+' { s@.drop_first() } else { s@ };
    assert(ds =~= s@.subrange(start as int, s@.len() as int));
    if start == cs.len() {
        return None;
    }
    let mut acc: i64 = 0;
    let mut i: usize = start;
    while i < cs.len()
        invariant
            cs@ == s@,
            s@.len() > 0,
            neg == (s@[0] == '-'),
            ds == (if s@[0] == '-' || s@[0] == '+' {
                s@.drop_first()
            } else {
                s@
            }),
            start <= i <= cs@.len(),
            ds == cs@.subrange(start as int, cs@.len() as int),
            all_digits(ds.take(i - start)),
            acc as int == digits_value(ds.take(i - start)),
            0 <= acc <= 2147483648,
        decreases cs@.len() - i,
    {
        let c = cs[i];
        if c < '0' || c > '9' {
            assert(ds[i - start] == c);
            assert(!all_digits(ds));
            assert(ds.len() > 0);
            assert(parse_i32(s@) is None);
            return None;
        }
        let d = (c as u32 - '0' as u32) as i64;
        assert(ds.take(i - start + 1).drop_last() =~= ds.take(i - start));
        assert(ds.take(i - start + 1).last() == c);
        acc = acc * 10 + d;
        i = i + 1;
        assert(all_digits(ds.take(i - start)));
        if acc > 2147483648 {
            proof {
                let k = (i - start) as int;
                if all_digits(ds) {
                    lemma_digits_value_grows(ds, k);
                    assert(digits_value(ds) > 2147483648);
                }
                assert(parse_i32(s@) is None);
            }
            return None;
        }
    }
    assert(ds.take(i - start) =~= ds);
    if neg {
        let v: i64 = -acc;
        Some(v as i32)
    } else if acc > 2147483647 {
        None
    } else {
        Some(acc as i32)
    }
}

/// The UTF-8 encoding of two texts one after the other is the encoding of
/// the first followed by that of the second.
pub proof fn lemma_encode_utf8_concat(a: Seq<char>, b: Seq<char>)
    ensures
        encode_utf8(a + b) == encode_utf8(a) + encode_utf8(b),
    decreases a.len(),
{
    if a.len() == 0 {
        assert(a + b =~= b);
        assert(encode_utf8(a) =~= Seq::<u8>::empty());
        assert(encode_utf8(a) + encode_utf8(b) =~= encode_utf8(b));
    } else {
        lemma_encode_utf8_concat(a.drop_first(), b);
        assert((a + b).drop_first() =~= a.drop_first() + b);
        assert((a + b)[0] == a[0]);
        assert(encode_utf8(a + b) =~= encode_scalar(a[0] as u32) + encode_utf8(a.drop_first() + b));
    }
}

/// Decoding two valid UTF-8 sequences one after the other gives the two
/// texts one after the other.
pub proof fn lemma_decode_utf8_concat(a: Seq<u8>, b: Seq<u8>)
    requires
        valid_utf8(a),
        valid_utf8(b),
    ensures
        valid_utf8(a + b),
        decode_utf8(a + b) == decode_utf8(a) + decode_utf8(b),
{
    let x = decode_utf8(a);
    let y = decode_utf8(b);
    lemma_encode_utf8_concat(x, y);
    assert(encode_utf8(x) == a);
    assert(encode_utf8(y) == b);
    assert(decode_utf8(encode_utf8(x + y)) == x + y);
}

/// The decimal representation of `n` is a non-empty run of digits whose
/// value is `n`.
pub proof fn lemma_decimal_digits(n: nat)
    ensures
        all_digits(decimal(n)),
        digits_value(decimal(n)) == n,
        decimal(n).len() > 0,
    decreases n,
{
    let x = hex_digit_char((n % 10) as int);
    assert('0' <= x <= '9');
    assert(x as int - '0' as int == n % 10);
    if n >= 10 {
        lemma_decimal_digits(n / 10);
        let d = decimal(n / 10);
        assert(decimal(n) == d.push(x));
        assert(decimal(n).drop_last() =~= d);
        assert(decimal(n).last() == x);
        assert(digits_value(decimal(n)) == digits_value(d) * 10 + (x as int - '0' as int));
        assert forall|i: int| 0 <= i < decimal(n).len() implies '0' <= #[trigger] decimal(n)[i] <= '9' by {
            if i < d.len() {
                assert(decimal(n)[i] == d[i]);
            }
        }
    } else {
        assert(n % 10 == n);
        assert(decimal(n) == seq![x]);
        assert(decimal(n).drop_last() =~= Seq::<char>::empty());
        assert(digits_value(Seq::<char>::empty()) == 0);
        assert(digits_value(decimal(n)) == 0 * 10 + (x as int - '0' as int));
    }
}

/// The decimal representation of an `i32` parses back to it, and holds
/// nothing but digits and a leading `-`.
pub proof fn lemma_decimal_signed_parses(z: i32)
    ensures
        parse_i32(decimal_signed(z as int)) == Some(z),
        forall|i: int|
            0 <= i < decimal_signed(z as int).len() ==> ('0' <= #[trigger] decimal_signed(z as int)[i]
                <= '9') || (i == 0 && decimal_signed(z as int)[i] == '-'),
{
    let s = decimal_signed(z as int);
    if z < 0 {
        let n = (-(z as int)) as nat;
        lemma_decimal_digits(n);
        let d = decimal(n);
        assert(s == seq!['-'] + d);
        assert(s.drop_first() =~= d);
        assert(s[0] == '-');
        assert forall|i: int| 0 <= i < s.len() implies ('0' <= #[trigger] s[i] <= '9') || (i == 0
            && s[i] == '-') by {
            if i > 0 {
                assert(s[i] == d[i - 1]);
            }
        }
    } else {
        let n = z as nat;
        lemma_decimal_digits(n);
        assert(s == decimal(n));
        assert('0' <= s[0] <= '9');
    }
}

/// Whether `c` is `w` up to ASCII case, `w` being a lower-case letter.
pub open spec fn ci_char_eq(c: char, w: char) -> bool {
    c == w || ('a' <= w && w <= 'z' && (c as u32) + 32 == (w as u32))
}

/// Whether `b` is the lower-case word `w` up to ASCII case.
pub open spec fn ci_word(b: Seq<char>, w: Seq<char>) -> bool {
    b.len() == w.len() && forall|i: int| 0 <= i < b.len() ==> ci_char_eq(#[trigger] b[i], w[i])
}

/// Whether `c` is an ASCII decimal digit.
pub open spec fn is_digit(c: char) -> bool {
    '0' <= c && c <= '9'
}

/// Index of the first `e` or `E` in `b`, or `b.len()` when there is none.
pub open spec fn exp_index(b: Seq<char>) -> int
    decreases b.len(),
{
    if b.len() == 0 {
        0
    } else if b[0] == 'e' || b[0] == 'E' {
        0
    } else {
        1 + exp_index(b.drop_first())
    }
}

/// Digits with at most one `.` among them, and at least one digit.
pub open spec fn mantissa_syntax(m: Seq<char>) -> bool {
    &&& forall|i: int| 0 <= i < m.len() ==> is_digit(#[trigger] m[i]) || m[i] == '.'
    &&& forall|i: int, j: int| 0 <= i < j < m.len() ==> !(#[trigger] m[i] == '.' && #[trigger] m[j] == '.')
    &&& exists|i: int| 0 <= i < m.len() && is_digit(#[trigger] m[i])
}

/// An optional sign and one or more digits.
pub open spec fn exponent_syntax(x: Seq<char>) -> bool {
    let d = if x.len() > 0 && (x[0] == '+' || x[0] == '-') {
        x.drop_first()
    } else {
        x
    };
    d.len() > 0 && all_digits(d)
}

/// `Number ::= (Digit+ | Digit+ '.' Digit* | Digit* '.' Digit+) Exp?` with
/// `Exp ::= [eE] Sign? Digit+`.
pub open spec fn number_syntax(b: Seq<char>) -> bool {
    let k = exp_index(b);
    mantissa_syntax(b.take(k)) && (k == b.len() || exponent_syntax(b.skip(k + 1)))
}

/// `s` without its leading sign, if it has one.
pub open spec fn unsigned_part(s: Seq<char>) -> Seq<char> {
    if s.len() > 0 && (s[0] == '+' || s[0] == '-') {
        s.drop_first()
    } else {
        s
    }
}

/// Whether `str::parse::<f64>` accepts `s`: the grammar that `f64`'s
/// `FromStr` documents, `Sign? ('inf' | 'infinity' | 'nan' | Number)`, the
/// words in any ASCII case; no surrounding whitespace.
pub open spec fn float_syntax(s: Seq<char>) -> bool {
    let b = unsigned_part(s);
    ||| ci_word(b, "inf"@)
    ||| ci_word(b, "infinity"@)
    ||| ci_word(b, "nan"@)
    ||| number_syntax(b)
}

proof fn lemma_exp_index(b: Seq<char>)
    ensures
        0 <= exp_index(b) <= b.len(),
        exp_index(b) < b.len() ==> (b[exp_index(b)] == 'e' || b[exp_index(b)] == 'E'),
        forall|j: int| 0 <= j < exp_index(b) ==> #[trigger] b[j] != 'e' && b[j] != 'E',
    decreases b.len(),
{
    if b.len() > 0 && b[0] != 'e' && b[0] != 'E' {
        lemma_exp_index(b.drop_first());
        assert forall|j: int| 0 <= j < exp_index(b) implies #[trigger] b[j] != 'e' && b[j] != 'E' by {
            if j > 0 {
                assert(b[j] == b.drop_first()[j - 1]);
            }
        }
    }
}

/// The first `e` or `E` of `b` is at `k` when none comes before and `k`
/// holds one or is the end.
pub proof fn lemma_exp_index_at(b: Seq<char>, k: int)
    requires
        0 <= k <= b.len(),
        k < b.len() ==> (b[k] == 'e' || b[k] == 'E'),
        forall|j: int| 0 <= j < k ==> b[j] != 'e' && b[j] != 'E',
    ensures
        exp_index(b) == k,
    decreases k,
{
    if k > 0 {
        assert(b[0] != 'e' && b[0] != 'E');
        assert forall|j: int| 0 <= j < k - 1 implies b.drop_first()[j] != 'e' && b.drop_first()[j] != 'E' by {
            assert(b.drop_first()[j] == b[j + 1]);
        }
        lemma_exp_index_at(b.drop_first(), k - 1);
    }
}

/// Whether `cs[from..]` is the lower-case word `w` up to ASCII case.
fn ci_word_at(cs: &Vec<char>, from: usize, w: &str) -> (res: bool)
    requires
        from <= cs@.len(),
        forall|i: int| 0 <= i < w@.len() ==> 'a' <= #[trigger] w@[i] <= 'z',
    ensures
        res == ci_word(cs@.skip(from as int), w@),
{
    let mut wv: Vec<char> = Vec::new();
    push_str(&mut wv, w);
    assert(wv@ =~= w@);
    let ghost b = cs@.skip(from as int);
    if cs.len() - from != wv.len() {
        return false;
    }
    let mut i: usize = 0;
    let mut k: usize = from;
    while k < cs.len()
        invariant
            wv@ == w@,
            b == cs@.skip(from as int),
            from <= k <= cs@.len(),
            i == k - from,
            b.len() == wv@.len(),
            forall|j: int| 0 <= j < w@.len() ==> 'a' <= #[trigger] w@[j] <= 'z',
            forall|j: int| 0 <= j < i ==> ci_char_eq(#[trigger] b[j], w@[j]),
        decreases cs@.len() - k,
    {
        let c = cs[k];
        let x = wv[i];
        assert(b[i as int] == c);
        assert('a' <= w@[i as int] <= 'z');
        if !(c == x || (c as u32) == (x as u32) - 32) {
            return false;
        }
        i = i + 1;
        k = k + 1;
    }
    true
}

/// Whether `cs[from..]` is an optional sign and one or more digits.
fn exponent_at(cs: &Vec<char>, from: usize) -> (res: bool)
    requires
        from <= cs@.len(),
    ensures
        res == exponent_syntax(cs@.skip(from as int)),
{
    let ghost x = cs@.skip(from as int);
    let n = cs.len();
    let mut j: usize = from;
    if j < n && (cs[j] == '+' || cs[j] == '-') {
        j = j + 1;
    }
    let ghost d = if x.len() > 0 && (x[0] == '+' || x[0] == '-') { x.drop_first() } else { x };
    assert(d =~= cs@.skip(j as int));
    if j == n {
        return false;
    }
    let j0 = j;
    while j < n
        invariant
            n == cs@.len(),
            j0 <= j <= n,
            j0 < n,
            d == cs@.skip(j0 as int),
            x == cs@.skip(from as int),
            d == (if x.len() > 0 && (x[0] == '+' || x[0] == '-') { x.drop_first() } else { x }),
            forall|i: int| 0 <= i < j - j0 ==> '0' <= #[trigger] d[i] <= '9',
        decreases n - j,
    {
        let c = cs[j];
        assert(d[j - j0] == c);
        if !('0' <= c && c <= '9') {
            return false;
        }
        j = j + 1;
    }
    true
}

/// Whether `cs[start..]` is a number in the syntax of `number_syntax`.
fn number_at(cs: &Vec<char>, start: usize) -> (res: bool)
    requires
        start <= cs@.len(),
    ensures
        res == number_syntax(cs@.skip(start as int)),
{
    let ghost b = cs@.skip(start as int);
    let n = cs.len();
    let mut k: usize = start;
    let mut digit = false;
    let mut dot = false;
    while k < n && cs[k] != 'e' && cs[k] != 'E'
        invariant
            n == cs@.len(),
            b == cs@.skip(start as int),
            start <= k <= n,
            forall|j: int| 0 <= j < k - start ==> #[trigger] b[j] != 'e' && b[j] != 'E',
            forall|j: int| 0 <= j < k - start ==> is_digit(#[trigger] b[j]) || b[j] == '.',
            forall|i: int, j: int|
                0 <= i < j < k - start ==> !(#[trigger] b[i] == '.' && #[trigger] b[j] == '.'),
            dot == (exists|j: int| 0 <= j < k - start && #[trigger] b[j] == '.'),
            digit == (exists|j: int| 0 <= j < k - start && is_digit(#[trigger] b[j])),
        decreases n - k,
    {
        let c = cs[k];
        assert(b[k - start] == c);
        if '0' <= c && c <= '9' {
            digit = true;
        } else if c == '.' && !dot {
            dot = true;
        } else {
            proof {
                let e = exp_index(b);
                lemma_exp_index(b);
                if e <= k - start {
                    assert(b[e] == 'e' || b[e] == 'E');
                    assert(false);
                }
                assert(b.take(e)[k - start] == c);
                if c == '.' {
                    let j = choose|j: int| 0 <= j < k - start && #[trigger] b[j] == '.';
                    assert(b.take(e)[j] == '.');
                }
                assert(!mantissa_syntax(b.take(e)));
            }
            return false;
        }
        k = k + 1;
    }
    let ghost e = (k - start) as int;
    proof {
        lemma_exp_index_at(b, e);
    }
    if !digit {
        proof {
            assert forall|i: int| 0 <= i < b.take(e).len() implies !is_digit(#[trigger] b.take(e)[i]) by {
                assert(b.take(e)[i] == b[i]);
            }
        }
        return false;
    }
    proof {
        let m = b.take(e);
        assert forall|i: int| 0 <= i < m.len() implies is_digit(#[trigger] m[i]) || m[i] == '.' by {
            assert(m[i] == b[i]);
        }
        assert forall|i: int, j: int| 0 <= i < j < m.len() implies !(#[trigger] m[i] == '.'
            && #[trigger] m[j] == '.') by {
            assert(m[i] == b[i] && m[j] == b[j]);
        }
        let j = choose|j: int| 0 <= j < k - start && is_digit(#[trigger] b[j]);
        assert(m[j] == b[j]);
        assert(mantissa_syntax(m));
    }
    if k == n {
        return true;
    }
    assert(b.skip(e + 1) =~= cs@.skip(k + 1));
    exponent_at(cs, k + 1)
}

/// Whether `str::parse::<f64>` accepts `s` (see `float_syntax`).
pub fn parses_as_float(s: &str) -> (res: bool)
    ensures
        res == float_syntax(s@),
{
    proof {
        reveal_strlit("inf");
        reveal_strlit("infinity");
        reveal_strlit("nan");
    }
    let mut cs: Vec<char> = Vec::new();
    push_str(&mut cs, s);
    assert(cs@ =~= s@);
    let n = cs.len();
    let start: usize = if n > 0 && (cs[0] == '+' || cs[0] == '-') { 1 } else { 0 };
    assert(unsigned_part(s@) =~= cs@.skip(start as int));
    if ci_word_at(&cs, start, "inf") || ci_word_at(&cs, start, "infinity") || ci_word_at(&cs, start, "nan") {
        return true;
    }
    number_at(&cs, start)
}

} // verus!
