//! Text helpers: UTF-8 decoding, character search, line and whitespace
//! splitting, integer parsing and decimal formatting.

use vstd::prelude::*;
use vstd::utf8::*;
use vstd::string::*;
use crate::scan;

verus! {

broadcast use vstd::utf8::group_utf8_lib;

/// Decodes `bytes` as UTF-8 text.
///
/// Trusted: calls `std::str::from_utf8`, which, as its documentation says,
/// succeeds exactly when `bytes` is well-formed UTF-8 and then gives the string
/// slice made of those same bytes.
#[verifier::external_body]
pub(crate) fn str_from_utf8(bytes: &[u8]) -> (r: Option<&str>)
    ensures
        r is Some <==> valid_utf8(bytes@),
        r matches Some(s) ==> s.spec_bytes() == bytes@,
{
    std::str::from_utf8(bytes).ok()
}

/// Appends one character to a string.
///
/// Trusted: calls `String::push`, which, as its documentation says, appends
/// the given `char` to the end of the string.
#[verifier::external_body]
pub(crate) fn push_char(s: &mut String, c: char)
    ensures
        final(s)@ == old(s)@.push(c),
{
    s.push(c)
}

/// The characters of `s`, in order.
pub fn chars_of(s: &str) -> (v: Vec<char>)
    ensures
        v@ == s@,
{
    let mut v: Vec<char> = Vec::new();
    for c in it: s.chars()
        invariant
            v@ == it.seq().take(it.index() as int),
    {
        v.push(c);
    }
    v
}

/// Decodes UTF-8 text into its characters; `None` when `bytes` is not UTF-8.
pub fn decode_chars(bytes: &[u8]) -> (r: Option<Vec<char>>)
    ensures
        r is Some <==> valid_utf8(bytes@),
        r matches Some(v) ==> v@ == decode_utf8(bytes@),
{
    match str_from_utf8(bytes) {
        Some(s) => {
            let v = chars_of(s);
            proof {
                assert(decode_utf8(encode_utf8(s@)) == s@);
            }
            Some(v)
        },
        None => None,
    }
}

/// The UTF-8 text `bytes` as a string; `None` when `bytes` is not UTF-8.
pub fn utf8_string(bytes: &[u8]) -> (r: Option<String>)
    ensures
        r is Some <==> valid_utf8(bytes@),
        r matches Some(s) ==> encode_utf8(s@) == bytes@ && s@ == decode_utf8(bytes@),
{
    match str_from_utf8(bytes) {
        Some(t) => {
            proof {
                assert(decode_utf8(encode_utf8(t@)) == t@);
            }
            Some(String::from_str(t))
        },
        None => None,
    }
}

/// The characters that the bytes stand for, one character per byte
/// (the reading of ASCII text).
pub open spec fn ascii_chars(bytes: Seq<u8>) -> Seq<char> {
    bytes.map_values(|b: u8| b as char)
}

/// The characters that `bytes` stand for, one character per byte.
pub fn ascii_char_vec(bytes: &[u8]) -> (v: Vec<char>)
    ensures
        v@ == ascii_chars(bytes@),
{
    let mut v: Vec<char> = Vec::new();
    let mut i: usize = 0;
    while i < bytes.len()
        invariant
            i <= bytes@.len(),
            v@ == ascii_chars(bytes@.take(i as int)),
        decreases bytes@.len() - i,
    {
        v.push(bytes[i] as char);
        proof {
            assert(ascii_chars(bytes@.take(i + 1)) =~= ascii_chars(bytes@.take(i as int)).push(
                bytes@[i as int] as char,
            ));
        }
        i = i + 1;
    }
    assert(bytes@.take(i as int) =~= bytes@);
    v
}

/// Every byte is a visible ASCII character, a space or a tab.
pub open spec fn is_visible_ascii(b: u8) -> bool {
    (32 <= b && b < 127) || b == 9
}

/// ASCII bytes decode, as UTF-8, to one character per byte.
pub proof fn lemma_ascii_utf8(bytes: Seq<u8>)
    requires
        forall|i: int| 0 <= i < bytes.len() ==> bytes[i] < 128,
    ensures
        valid_utf8(bytes),
        decode_utf8(bytes) == ascii_chars(bytes),
{
    let cs = ascii_chars(bytes);
    assert(is_ascii_chars(cs));
    is_ascii_chars_encode_utf8(cs);
    assert(encode_utf8(cs) =~= bytes);
}

/// Reads ASCII bytes as text.
pub fn ascii_string(bytes: &[u8]) -> (s: String)
    requires
        forall|i: int| 0 <= i < bytes@.len() ==> bytes@[i] < 128,
    ensures
        s@ == ascii_chars(bytes@),
{
    proof {
        lemma_ascii_utf8(bytes@);
    }
    match str_from_utf8(bytes) {
        Some(t) => {
            proof {
                assert(decode_utf8(encode_utf8(t@)) == t@);
            }
            String::from_str(t)
        },
        None => String::new(),
    }
}

/// Whether `pat` occurs in the part `lo..hi` of `hay` at offset `i` of that part.
pub fn chars_occur_at(hay: &[char], lo: usize, hi: usize, pat: &[char], i: usize) -> (b: bool)
    requires
        lo <= hi <= hay@.len(),
    ensures
        b == scan::occurs_at(hay@.subrange(lo as int, hi as int), pat@, i as int),
{
    let ghost part = hay@.subrange(lo as int, hi as int);
    if i > hi - lo || pat.len() > hi - lo - i {
        return false;
    }
    let mut k: usize = 0;
    while k < pat.len()
        invariant
            lo <= hi <= hay@.len(),
            i + pat@.len() <= hi - lo,
            part == hay@.subrange(lo as int, hi as int),
            k <= pat.len(),
            forall|j: int| 0 <= j < k ==> part[i + j] == pat@[j],
        decreases pat.len() - k,
    {
        if hay[lo + i + k] != pat[k] {
            assert(part.subrange(i as int, i + pat.len())[k as int] != pat@[k as int]);
            return false;
        }
        k = k + 1;
    }
    assert(part.subrange(i as int, i + pat.len()) =~= pat@);
    true
}

/// The first offset in the part `lo..hi` of `hay` where `pat` occurs.
pub fn find_in(hay: &[char], lo: usize, hi: usize, pat: &[char]) -> (r: Option<usize>)
    requires
        lo <= hi <= hay@.len(),
    ensures
        match r {
            Some(i) => scan::find(hay@.subrange(lo as int, hi as int), pat@) == Some(i as int),
            None => scan::find(hay@.subrange(lo as int, hi as int), pat@) is None,
        },
{
    let ghost part = hay@.subrange(lo as int, hi as int);
    let n = hi - lo;
    let mut i: usize = 0;
    while i < n
        invariant
            lo <= hi <= hay@.len(),
            n == hi - lo,
            part == hay@.subrange(lo as int, hi as int),
            i <= n,
            scan::find(part, pat@) == scan::find_from(part, pat@, i as int),
        decreases n - i,
    {
        if pat.len() > n - i {
            return None;
        }
        if chars_occur_at(hay, lo, hi, pat, i) {
            return Some(i);
        }
        i = i + 1;
    }
    if pat.len() == 0 {
        assert(part.subrange(i as int, i as int) =~= pat@);
        Some(i)
    } else {
        None
    }
}

/// The characters with the Unicode `White_Space` property, which is what
/// `char::is_whitespace` tests for.
pub open spec fn is_whitespace(c: char) -> bool {
    ||| ('\u{9}' <= c && c <= '\u{d}')
    ||| c == ' '
    ||| c == '\u{85}'
    ||| c == '\u{a0}'
    ||| c == '\u{1680}'
    ||| ('\u{2000}' <= c && c <= '\u{200a}')
    ||| c == '\u{2028}'
    ||| c == '\u{2029}'
    ||| c == '\u{202f}'
    ||| c == '\u{205f}'
    ||| c == '\u{3000}'
}

/// Whether `c` is white space in the sense of Unicode.
pub fn char_is_whitespace(c: char) -> (b: bool)
    ensures
        b == is_whitespace(c),
{
    ('\u{9}' <= c && c <= '\u{d}') || c == ' ' || c == '\u{85}' || c == '\u{a0}' || c
        == '\u{1680}' || ('\u{2000}' <= c && c <= '\u{200a}') || c == '\u{2028}' || c
        == '\u{2029}' || c == '\u{202f}' || c == '\u{205f}' || c == '\u{3000}'
}

/// The number of characters before the first white space.
pub open spec fn word_len(s: Seq<char>) -> nat
    decreases s.len(),
{
    if s.len() == 0 || is_whitespace(s[0]) {
        0
    } else {
        1 + word_len(s.drop_first())
    }
}

pub proof fn lemma_word_len_bounds(s: Seq<char>)
    ensures
        word_len(s) <= s.len(),
        s.len() > 0 && !is_whitespace(s[0]) ==> word_len(s) >= 1,
    decreases s.len(),
{
    if s.len() > 0 && !is_whitespace(s[0]) {
        lemma_word_len_bounds(s.drop_first());
    }
}

/// A run of `k` non-white characters ended by white space or by the end of
/// `s` has length `k`.
pub proof fn lemma_word_len_exact(s: Seq<char>, k: int)
    requires
        0 <= k <= s.len(),
        forall|j: int| 0 <= j < k ==> !is_whitespace(#[trigger] s[j]),
        k == s.len() || is_whitespace(s[k]),
    ensures
        word_len(s) == k,
    decreases k,
{
    if k > 0 {
        let t = s.drop_first();
        assert forall|j: int| 0 <= j < k - 1 implies !is_whitespace(#[trigger] t[j]) by {
            assert(t[j] == s[j + 1]);
        }
        if k < s.len() {
            assert(t[k - 1] == s[k]);
        }
        lemma_word_len_exact(t, k - 1);
    }
}

/// The maximal runs of non-white characters, in order: what
/// `str::split_whitespace` yields.
pub open spec fn words(s: Seq<char>) -> Seq<Seq<char>>
    decreases s.len(),
{
    if s.len() == 0 {
        seq![]
    } else if is_whitespace(s[0]) {
        words(s.drop_first())
    } else {
        proof {
            lemma_word_len_bounds(s);
        }
        seq![s.take(word_len(s) as int)] + words(s.skip(word_len(s) as int))
    }
}

/// A word standing alone is the only word.
pub proof fn lemma_words_single(d: Seq<char>)
    requires
        d.len() > 0,
        forall|j: int| 0 <= j < d.len() ==> !is_whitespace(#[trigger] d[j]),
    ensures
        words(d) == seq![d],
{
    lemma_word_len_exact(d, d.len() as int);
    assert(d.take(d.len() as int) =~= d);
    assert(d.skip(d.len() as int) =~= Seq::<char>::empty());
    assert(words(d.skip(d.len() as int)) =~= Seq::<Seq<char>>::empty());
    assert(words(d) =~= seq![d]);
}

/// Two words joined by one space are those two words.
pub proof fn lemma_words_two(a: Seq<char>, d: Seq<char>)
    requires
        a.len() > 0,
        d.len() > 0,
        forall|j: int| 0 <= j < a.len() ==> !is_whitespace(#[trigger] a[j]),
        forall|j: int| 0 <= j < d.len() ==> !is_whitespace(#[trigger] d[j]),
    ensures
        words(a + seq![' '] + d) == seq![a, d],
{
    let s = a + seq![' '] + d;
    assert forall|j: int| 0 <= j < a.len() implies !is_whitespace(#[trigger] s[j]) by {
        assert(s[j] == a[j]);
    }
    assert(s[a.len() as int] == ' ');
    lemma_word_len_exact(s, a.len() as int);
    assert(!is_whitespace(s[0]));
    assert(s.take(a.len() as int) =~= a);
    let t = s.skip(a.len() as int);
    assert(t =~= seq![' '] + d);
    assert(t.drop_first() =~= d);
    lemma_words_single(d);
    assert(words(t) == words(d));
    assert(words(s) =~= seq![a] + words(t));
    assert(words(s) =~= seq![a, d]);
}

/// Where the `n`-th white-space separated word of `s` lies (counting from 0).
pub fn word_bounds(s: &[char], n: usize) -> (r: Option<(usize, usize)>)
    ensures
        match r {
            Some((a, b)) => {
                &&& a <= b <= s@.len()
                &&& n < words(s@).len()
                &&& words(s@)[n as int] == s@.subrange(a as int, b as int)
            },
            None => words(s@).len() <= n,
        },
{
    let mut p: usize = 0;
    let mut cnt: usize = 0;
    assert(s@.skip(0) =~= s@);
    assert(words(s@).skip(0) =~= words(s@));
    while p < s.len()
        invariant
            p <= s@.len(),
            cnt <= n,
            cnt <= words(s@).len(),
            words(s@).skip(cnt as int) == words(s@.skip(p as int)),
        decreases s@.len() - p,
    {
        let ghost t = s@.skip(p as int);
        if char_is_whitespace(s[p]) {
            assert(t.drop_first() =~= s@.skip(p + 1));
            p = p + 1;
        } else {
            let mut q: usize = p + 1;
            while q < s.len() && !char_is_whitespace(s[q])
                invariant
                    p < q <= s@.len(),
                    forall|j: int| p <= j < q ==> !is_whitespace(#[trigger] s@[j]),
                decreases s@.len() - q,
            {
                q = q + 1;
            }
            proof {
                assert forall|j: int| 0 <= j < q - p implies !is_whitespace(#[trigger] t[j]) by {
                    assert(t[j] == s@[p + j]);
                }
                if q < s.len() {
                    assert(t[q - p] == s@[q as int]);
                }
                lemma_word_len_exact(t, q - p);
                assert(t.take(q - p) =~= s@.subrange(p as int, q as int));
                assert(t.skip(q - p) =~= s@.skip(q as int));
                assert(words(t) == seq![s@.subrange(p as int, q as int)] + words(s@.skip(
                    q as int,
                )));
                let w = words(s@);
                assert(w.skip(cnt as int).len() > 0);
                assert(w.skip(cnt as int)[0] == w[cnt as int]);
                assert(w.skip(cnt + 1) =~= w.skip(cnt as int).drop_first());
                assert((seq![s@.subrange(p as int, q as int)] + words(s@.skip(
                    q as int,
                ))).drop_first() =~= words(s@.skip(q as int)));
            }
            if cnt == n {
                return Some((p, q));
            }
            cnt = cnt + 1;
            p = q;
        }
    }
    assert(s@.skip(p as int) =~= Seq::<char>::empty());
    None
}

/// `c` is an ASCII decimal digit.
pub open spec fn is_digit(c: char) -> bool {
    '0' <= c && c <= '9'
}

/// The numeric value of a decimal digit character.
pub open spec fn digit_value(c: char) -> int {
    c as int - '0' as int
}

/// Every character of `s` is a decimal digit.
pub open spec fn all_digits(s: Seq<char>) -> bool {
    forall|i: int| 0 <= i < s.len() ==> is_digit(#[trigger] s[i])
}

/// The number that the decimal digits `s` spell.
pub open spec fn digits_value(s: Seq<char>) -> int
    decreases s.len(),
{
    if s.len() == 0 {
        0
    } else {
        digits_value(s.drop_last()) * 10 + digit_value(s.last())
    }
}

/// What `str::parse::<i32>` gives: an optional `+` or `-` sign followed by at
/// least one decimal digit and nothing else, whose value fits in an `i32`.
pub open spec fn parse_i32(s: Seq<char>) -> Option<i32> {
    let signed = s.len() > 0 && (s[0] == '-' || s[0] == '+');
    let negative = s.len() > 0 && s[0] == '-';
    let d = if signed {
        s.drop_first()
    } else {
        s
    };
    if d.len() == 0 || !all_digits(d) {
        None
    } else {
        let v = if negative {
            -digits_value(d)
        } else {
            digits_value(d)
        };
        if i32::MIN <= v <= i32::MAX {
            Some(v as i32)
        } else {
            None
        }
    }
}

pub proof fn lemma_digits_value_nonneg(s: Seq<char>)
    requires
        all_digits(s),
    ensures
        digits_value(s) >= 0,
    decreases s.len(),
{
    if s.len() > 0 {
        assert(all_digits(s.drop_last()));
        lemma_digits_value_nonneg(s.drop_last());
        assert(is_digit(s[s.len() - 1]));
    }
}

/// A prefix of a run of digits is worth no more than the whole run.
pub proof fn lemma_digits_value_prefix(s: Seq<char>, k: int)
    requires
        all_digits(s),
        0 <= k <= s.len(),
    ensures
        digits_value(s.take(k)) <= digits_value(s),
    decreases s.len(),
{
    if k == s.len() {
        assert(s.take(k) =~= s);
    } else {
        let d = s.drop_last();
        assert(all_digits(d));
        assert(d.take(k) =~= s.take(k));
        lemma_digits_value_prefix(d, k);
        lemma_digits_value_nonneg(d);
        assert(is_digit(s[s.len() - 1]));
    }
}

/// Parses the part `a..b` of `s` as an `i32` the way `str::parse` does.
pub fn parse_i32_chars(s: &[char], a: usize, b: usize) -> (r: Option<i32>)
    requires
        a <= b <= s@.len(),
    ensures
        r == parse_i32(s@.subrange(a as int, b as int)),
{
    let ghost t = s@.subrange(a as int, b as int);
    let signed = a < b && (s[a] == '-' || s[a] == '+');
    let negative = a < b && s[a] == '-';
    let start = if signed {
        a + 1
    } else {
        a
    };
    let ghost d = s@.subrange(start as int, b as int);
    assert(d =~= (if signed {
        t.drop_first()
    } else {
        t
    }));
    if start == b {
        return None;
    }
    let mut acc: i64 = 0;
    let mut k: usize = start;
    assert(d.take(0) =~= Seq::<char>::empty());
    while k < b
        invariant
            a <= start <= k <= b <= s@.len(),
            start < b,
            t == s@.subrange(a as int, b as int),
            signed == (t.len() > 0 && (t[0] == '-' || t[0] == '+')),
            negative == (t.len() > 0 && t[0] == '-'),
            d == (if signed {
                t.drop_first()
            } else {
                t
            }),
            d == s@.subrange(start as int, b as int),
            all_digits(d.take(k - start)),
            acc == digits_value(d.take(k - start)),
            0 <= acc <= 2147483648,
        decreases b - k,
    {
        let c = s[k];
        if !('0' <= c && c <= '9') {
            assert(d[k - start] == c);
            return None;
        }
        let ghost prev = d.take(k - start);
        let next = acc * 10 + ((c as u32) - ('0' as u32)) as i64;
        proof {
            let cur = d.take(k - start + 1);
            assert(cur.drop_last() =~= prev);
            assert(cur.last() == c);
            assert(all_digits(cur)) by {
                assert forall|i: int| 0 <= i < cur.len() implies is_digit(#[trigger] cur[i]) by {
                    if i < cur.len() - 1 {
                        assert(cur[i] == prev[i]);
                    }
                }
            }
        }
        k = k + 1;
        if next > 2147483648 {
            proof {
                let cur = d.take(k - start);
                if all_digits(d) {
                    lemma_digits_value_prefix(d, k - start);
                }
            }
            return None;
        }
        acc = next;
    }
    assert(d.take(k - start) =~= d);
    if negative {
        Some((0 - acc) as i32)
    } else if acc <= 2147483647 {
        Some(acc as i32)
    } else {
        None
    }
}

/// The character of a decimal digit.
pub open spec fn digit_char(d: nat) -> char {
    ((48 + d) as u8) as char
}

/// The decimal numeral of `n`, without sign or leading zeros: what
/// `to_string` gives for an unsigned integer.
pub open spec fn decimal(n: nat) -> Seq<char>
    decreases n,
{
    if n < 10 {
        seq![digit_char(n)]
    } else {
        decimal(n / 10).push(digit_char(n % 10))
    }
}

/// The decimal numeral of `n`.
pub fn decimal_string(n: u64) -> (s: String)
    ensures
        s@ == decimal(n as nat),
    decreases n,
{
    if n < 10 {
        let mut s = String::new();
        push_char(&mut s, ((n as u8) + 48) as char);
        s
    } else {
        let mut s = decimal_string(n / 10);
        push_char(&mut s, (((n % 10) as u8) + 48) as char);
        s
    }
}

/// The decimal numeral of `n` is a non-empty run of digits spelling `n`.
pub proof fn lemma_decimal_digits(n: nat)
    ensures
        decimal(n).len() >= 1,
        all_digits(decimal(n)),
        digits_value(decimal(n)) == n,
    decreases n,
{
    if n < 10 {
        let d = decimal(n);
        assert(d.drop_last() =~= Seq::<char>::empty());
        assert(d.last() == digit_char(n));
        assert(digit_char(n) as int == 48 + n);
        assert(digit_value(d.last()) == n);
        assert(digits_value(d) == digits_value(d.drop_last()) * 10 + digit_value(d.last()));
    } else {
        lemma_decimal_digits(n / 10);
        let d = decimal(n);
        assert(d.drop_last() =~= decimal(n / 10));
        assert(d.last() == digit_char(n % 10));
        assert(digit_char(n % 10) as int == 48 + n % 10);
        assert(digit_value(d.last()) == n % 10);
        assert(digits_value(d) == digits_value(d.drop_last()) * 10 + digit_value(d.last()));
        assert(n == (n / 10) * 10 + n % 10) by (nonlinear_arith);
        assert forall|i: int| 0 <= i < d.len() implies is_digit(#[trigger] d[i]) by {
            if i < d.len() - 1 {
                assert(d[i] == decimal(n / 10)[i]);
            }
        }
    }
}

/// The decimal numeral of `n` is the canonical one: digits only, spelling
/// `n`, with no leading zero unless `n` is 0, which is the single digit `0`.
pub proof fn lemma_decimal_canonical(n: nat)
    ensures
        decimal(n).len() >= 1,
        forall|j: int| 0 <= j < decimal(n).len() ==> '0' <= #[trigger] decimal(n)[j] <= '9',
        digits_value(decimal(n)) == n,
        n > 0 ==> decimal(n)[0] != '0',
        n == 0 ==> decimal(n) == seq!['0'],
    decreases n,
{
    lemma_decimal_digits(n);
    if n >= 10 {
        lemma_decimal_canonical(n / 10);
        assert(decimal(n)[0] == decimal(n / 10)[0]);
    } else if n == 0 {
        assert(decimal(0) =~= seq!['0']);
    }
}

/// Reading back the decimal numeral of an `i32`-sized number gives the number.
pub proof fn lemma_parse_decimal(n: nat)
    requires
        n <= i32::MAX,
    ensures
        parse_i32(decimal(n)) == Some(n as i32),
{
    lemma_decimal_digits(n);
    let d = decimal(n);
    assert(is_digit(d[0]));
}

/// The line separator that `str::split("\r\n")` splits at.
pub open spec fn crlf() -> Seq<char> {
    seq!['\r', '\n']
}

/// The pieces of `s` between line separators, in order: what
/// `str::split("\r\n")` yields.
pub open spec fn lines(s: Seq<char>) -> Seq<Seq<char>>
    decreases s.len(),
{
    match scan::find(s, crlf()) {
        Some(i) => {
            proof {
                scan::lemma_find_from(s, crlf(), 0);
            }
            seq![s.take(i)] + lines(s.skip(i + 2))
        },
        None => seq![s],
    }
}

/// The first of `ls` in which `key` occurs.
pub open spec fn first_containing(ls: Seq<Seq<char>>, key: Seq<char>) -> Option<Seq<char>>
    decreases ls.len(),
{
    if ls.len() == 0 {
        None
    } else if scan::contains(ls[0], key) {
        Some(ls[0])
    } else {
        first_containing(ls.drop_first(), key)
    }
}

/// Where the first line of `t` that contains `key` lies.
pub fn first_line_containing(t: &[char], key: &[char]) -> (r: Option<(usize, usize)>)
    ensures
        match r {
            Some((a, b)) => a <= b <= t@.len() && first_containing(lines(t@), key@) == Some(
                t@.subrange(a as int, b as int),
            ),
            None => first_containing(lines(t@), key@) is None,
        },
{
    let sep: Vec<char> = vec!['\r', '\n'];
    assert(sep@ =~= crlf());
    let mut pos: usize = 0;
    assert(t@.skip(0) =~= t@);
    loop
        invariant
            pos <= t@.len(),
            sep@ == crlf(),
            first_containing(lines(t@), key@) == first_containing(lines(t@.skip(pos as int)), key@),
        decreases t@.len() - pos,
    {
        let ghost u = t@.skip(pos as int);
        assert(t@.subrange(pos as int, t@.len() as int) =~= u);
        match find_in(t, pos, t.len(), sep.as_slice()) {
            Some(k) => {
                proof {
                    scan::lemma_find_from(u, crlf(), 0);
                    assert(u.take(k as int) =~= t@.subrange(pos as int, pos + k));
                    assert(u.skip(k + 2) =~= t@.skip(pos + k + 2));
                    let ls = lines(u);
                    assert(ls[0] == u.take(k as int));
                    assert(ls.drop_first() =~= lines(u.skip(k + 2)));
                }
                if find_in(t, pos, pos + k, key).is_some() {
                    return Some((pos, pos + k));
                }
                pos = pos + k + 2;
            },
            None => {
                proof {
                    assert(lines(u) == seq![u]);
                    assert(lines(u).drop_first() =~= Seq::<Seq<char>>::empty());
                    assert(first_containing(lines(u).drop_first(), key@) is None);
                }
                if find_in(t, pos, t.len(), key).is_some() {
                    return Some((pos, t.len()));
                }
                return None;
            },
        }
    }
}

} // verus!
