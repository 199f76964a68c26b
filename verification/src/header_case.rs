//! Writing header names in header case: `x-consul-index` becomes
//! `X-Consul-Index`.

use vstd::prelude::*;
use vstd::string::*;
use crate::text;

verus! {

/// `c` with an ASCII lower-case letter turned upper case; every other
/// character is kept (what `char::to_ascii_uppercase` does).
pub open spec fn ascii_upper(c: char) -> char {
    if 'a' <= c && c <= 'z' {
        (((c as u8) - 32) as u8) as char
    } else {
        c
    }
}

/// `s` with its first character turned upper case.
pub open spec fn titlecase_spec(s: Seq<char>) -> Seq<char> {
    if s.len() == 0 {
        s
    } else {
        seq![ascii_upper(s[0])] + s.drop_first()
    }
}

/// `s` with the first character and every character after a `-` turned
/// upper case.
pub open spec fn header_case(s: Seq<char>) -> Seq<char> {
    Seq::new(
        s.len(),
        |i: int|
            if i == 0 || s[i - 1] == '-' {
                ascii_upper(s[i])
            } else {
                s[i]
            },
    )
}

fn to_ascii_upper(c: char) -> (u: char)
    ensures
        u == ascii_upper(c),
{
    if 'a' <= c && c <= 'z' {
        ((c as u8) - 32) as char
    } else {
        c
    }
}

/// The header with its first character turned upper case
/// (`consul` becomes `Consul`).
pub fn titlecase(header: &str) -> (result: String)
    ensures
        result@ == titlecase_spec(header@),
{
    let chars = text::chars_of(header);
    let mut result = String::new();
    let mut capitalize_next = true;
    let mut i: usize = 0;
    while i < chars.len()
        invariant
            chars@ == header@,
            i <= chars@.len(),
            capitalize_next == (i == 0),
            result@ == titlecase_spec(header@).take(i as int),
        decreases chars@.len() - i,
    {
        let c = chars[i];
        if capitalize_next {
            text::push_char(&mut result, to_ascii_upper(c));
            capitalize_next = false;
        } else {
            text::push_char(&mut result, c);
        }
        proof {
            let t = titlecase_spec(header@);
            assert(t[i as int] == if i == 0 {
                ascii_upper(header@[0])
            } else {
                header@[i as int]
            });
            assert(t.take(i + 1) =~= t.take(i as int).push(t[i as int]));
        }
        i = i + 1;
    }
    assert(titlecase_spec(header@).take(i as int) =~= titlecase_spec(header@));
    result
}

/// A part of a header that starts the header or follows a `-`, and holds no
/// `-`, is written in header case by capitalising its first character.
proof fn lemma_part_header_case(h: Seq<char>, start: int, end: int)
    requires
        0 <= start <= end <= h.len(),
        start == 0 || h[start - 1] == '-',
        forall|j: int| start <= j < end ==> h[j] != '-',
    ensures
        titlecase_spec(h.subrange(start, end)) =~= header_case(h).subrange(start, end),
{
    let p = h.subrange(start, end);
    assert forall|j: int| 0 <= j < end - start implies titlecase_spec(p)[j] == header_case(h)[start
        + j] by {
        if j > 0 {
            assert(h[start + j - 1] != '-');
        }
    }
}

/// The header in header case: each `-`-separated part capitalised
/// (`x-consul-index` becomes `X-Consul-Index`).
pub fn convert_to_header_case(header: &str) -> (joined: String)
    ensures
        joined@ == header_case(header@),
{
    let chars = text::chars_of(header);
    let n = chars.len();
    let mut joined = String::new();
    let mut start: usize = 0;
    let mut i: usize = 0;
    while i < n
        invariant
            chars@ == header@,
            n == header@.len(),
            start <= i <= n,
            start == 0 || header@[start - 1] == '-',
            forall|j: int| start <= j < i ==> header@[j] != '-',
            joined@ == header_case(header@).take(start as int),
        decreases n - i,
    {
        if chars[i] == '-' {
            let part = header.substring_char(start, i);
            let out_str = titlecase(part);
            joined.append(out_str.as_str());
            text::push_char(&mut joined, '-');
            proof {
                let hc = header_case(header@);
                lemma_part_header_case(header@, start as int, i as int);
                assert(hc[i as int] == '-');
                assert(hc.take(i + 1) =~= hc.take(start as int) + hc.subrange(start as int, i as int)
                    + seq!['-']);
            }
            start = i + 1;
        }
        i = i + 1;
    }
    let part = header.substring_char(start, n);
    let out_str = titlecase(part);
    joined.append(out_str.as_str());
    proof {
        let hc = header_case(header@);
        lemma_part_header_case(header@, start as int, n as int);
        assert(hc =~= hc.take(start as int) + hc.subrange(start as int, n as int));
    }
    joined
}

/// Header case raises exactly the lower-case ASCII letters that start the
/// header or follow a `-`, and keeps every other character.
pub proof fn lemma_header_case_chars(s: Seq<char>)
    ensures
        header_case(s).len() == s.len(),
        forall|i: int|
            0 <= i < s.len() ==> #[trigger] header_case(s)[i] == if (i == 0 || s[i - 1] == '-') && 'a'
                <= s[i] <= 'z' {
                (((s[i] as u8) - 32) as u8) as char
            } else {
                s[i]
            },
{
}

/// Titlecase raises a lower-case ASCII first letter and keeps the rest.
pub proof fn lemma_titlecase_chars(s: Seq<char>)
    ensures
        titlecase_spec(s).len() == s.len(),
        forall|i: int|
            0 <= i < s.len() ==> #[trigger] titlecase_spec(s)[i] == if i == 0 && 'a' <= s[i] <= 'z' {
                (((s[i] as u8) - 32) as u8) as char
            } else {
                s[i]
            },
{
}

/// Header case is stable: writing a header in header case a second time
/// changes nothing.
pub proof fn lemma_header_case_idempotent(s: Seq<char>)
    ensures
        header_case(header_case(s)) == header_case(s),
{
    let h = header_case(s);
    assert forall|i: int| 0 <= i < s.len() implies #[trigger] header_case(h)[i] == h[i] by {
        if i > 0 {
            assert(h[i - 1] == '-' <==> s[i - 1] == '-');
        }
    }
    assert(header_case(h) =~= h);
}

/// Header case keeps the length and every `-` of a header, and changes no
/// character but ASCII lower-case letters.
pub proof fn lemma_header_case_shape(s: Seq<char>)
    ensures
        header_case(s).len() == s.len(),
        forall|i: int| 0 <= i < s.len() ==> (#[trigger] header_case(s)[i] == '-' <==> s[i] == '-'),
        forall|i: int|
            0 <= i < s.len() && !('a' <= s[i] && s[i] <= 'z') ==> #[trigger] header_case(s)[i] == s[i],
{
}

} // verus!
