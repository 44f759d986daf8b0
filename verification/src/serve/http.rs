//! As much of HTTP as the viewer speaks: the request line, the length of the body, where
//! a request goes, and the head of a response.

use vstd::prelude::*;
use crate::text;

verus! {

/// Largest request body accepted, in bytes.
pub const MAX_BODY: usize = 1_048_576;

/// Whether a character has the Unicode property `White_Space`: the tabulators, line and
/// page breaks, the spaces of every width, and the two separators.
pub open spec fn white_space(c: char) -> bool {
    let code = c as u32;
    ||| 0x9 <= code <= 0xd
    ||| code == 0x20
    ||| code == 0x85
    ||| code == 0xa0
    ||| code == 0x1680
    ||| 0x2000 <= code <= 0x200a
    ||| code == 0x2028
    ||| code == 0x2029
    ||| code == 0x202f
    ||| code == 0x205f
    ||| code == 0x3000
}

/// `char::is_whitespace` of std: whether a character has the Unicode property
/// `White_Space`.
pub assume_specification[ char::is_whitespace ](c: char) -> (r: bool)
    ensures
        r == white_space(c),
;

/// Where a request goes.
#[derive(Debug, Clone, Copy, PartialEq, Eq, Structural)]
pub enum Route {
    /// The page of the viewer.
    Page,
    /// A task to design.
    Design,
    /// A task whose text is too large.
    TooLarge,
    /// Anything else.
    NotFound,
}

/// What a header line says.
#[derive(Debug, Clone, Copy, PartialEq, Eq, Structural)]
pub enum Header {
    /// The blank line after the headers.
    End,
    /// The length of the body.
    Length(usize),
    /// Anything else.
    Other,
}

/// The first place from `i` on that holds no white space.
pub open spec fn word_start(s: Seq<char>, i: int) -> int
    decreases s.len() - i,
{
    if 0 <= i < s.len() && white_space(s[i]) {
        word_start(s, i + 1)
    } else {
        i
    }
}

/// The first place from `i` on that holds white space, or the end.
pub open spec fn word_end(s: Seq<char>, i: int) -> int
    decreases s.len() - i,
{
    if 0 <= i < s.len() && !white_space(s[i]) {
        word_end(s, i + 1)
    } else {
        i
    }
}

/// The place after the last character of the first `k` that is no white space.
pub open spec fn trimmed_end(s: Seq<char>, k: int) -> int
    decreases k,
{
    if 0 < k <= s.len() && white_space(s[k - 1]) {
        trimmed_end(s, k - 1)
    } else {
        k
    }
}

/// The first two words of a line.
pub open spec fn first_words(s: Seq<char>) -> Option<(Seq<char>, Seq<char>)> {
    let a = word_start(s, 0);
    let b = word_end(s, a);
    let c = word_start(s, b);
    let d = word_end(s, c);
    if a < b && c < d {
        Some((s.subrange(a, b), s.subrange(c, d)))
    } else {
        None
    }
}

/// Whether two texts are the same but for the case of Latin letters.
pub open spec fn same_but_case(a: Seq<char>, b: Seq<char>) -> bool {
    a.len() == b.len() && forall|i: int| 0 <= i < a.len() ==> text::lowercase(a[i]) == text::lowercase(#[trigger] b[i])
}

/// The first colon from `i` on, or the end.
pub open spec fn colon_from(s: Seq<char>, i: int) -> int
    decreases s.len() - i,
{
    if 0 <= i < s.len() && s[i] != ':' {
        colon_from(s, i + 1)
    } else {
        i
    }
}

/// The value of decimal digits, if all are digits.
pub open spec fn digits_value(s: Seq<char>) -> Option<nat>
    decreases s.len(),
{
    if s.len() == 0 {
        Some(0)
    } else {
        match digits_value(s.drop_last()) {
            None => None,
            Some(v) => if '0' <= s.last() <= '9' {
                Some(v * 10 + (s.last() as nat - '0' as nat) as nat)
            } else {
                None
            },
        }
    }
}

/// The digits of a numeral: what follows a plus sign, or all of it.
pub open spec fn without_plus(s: Seq<char>) -> Seq<char> {
    if s.len() > 0 && s[0] == '+' {
        s.subrange(1, s.len() as int)
    } else {
        s
    }
}

/// The number a text stands for, or zero where it is no number that fits a machine word.
pub open spec fn length_of(s: Seq<char>) -> nat {
    let digits = without_plus(s);
    match digits_value(digits) {
        Some(v) => if digits.len() > 0 && v <= usize::MAX {
            v
        } else {
            0
        },
        None => 0,
    }
}

/// What a header line says: nothing more once it is blank, the length of the body under
/// its name in any case, or something else.
pub open spec fn header_of(line: Seq<char>) -> Header {
    let s = line.subrange(0, trimmed_end(line, line.len() as int));
    let colon = colon_from(s, 0);
    if s.len() == 0 {
        Header::End
    } else if colon < s.len() && same_but_case(s.subrange(0, colon), "content-length"@) {
        let rest = s.subrange(colon + 1, s.len() as int);
        let from = word_start(rest, 0);
        Header::Length(length_of(rest.subrange(from, rest.len() as int)) as usize)
    } else {
        Header::Other
    }
}

/// Where a request goes.
pub open spec fn route_of(method: Seq<char>, path: Seq<char>, body_len: nat) -> Route {
    if method == "GET"@ && path == "/"@ {
        Route::Page
    } else if method == "POST"@ && path == "/api/design"@ {
        if body_len >= MAX_BODY {
            Route::TooLarge
        } else {
            Route::Design
        }
    } else {
        Route::NotFound
    }
}

/// The head of a response.
pub open spec fn head_text(status: Seq<char>, content_type: Seq<char>, len: nat) -> Seq<char> {
    "HTTP/1.1 "@ + status + "\r\nContent-Type: "@ + content_type + "\r\nContent-Length: "@
        + text::decimal(len) + "\r\nCache-Control: no-store\r\nConnection: close\r\n\r\n"@
}

fn skip_space(s: &Vec<char>, from: usize) -> (r: usize)
    requires
        from <= s@.len(),
    ensures
        r == word_start(s@, from as int),
        from <= r <= s@.len(),
{
    let mut i: usize = from;
    while i < s.len() && s[i].is_whitespace()
        invariant
            from <= i <= s@.len(),
            word_start(s@, i as int) == word_start(s@, from as int),
        decreases s@.len() - i,
    {
        i = i + 1;
    }
    i
}

fn skip_word(s: &Vec<char>, from: usize) -> (r: usize)
    requires
        from <= s@.len(),
    ensures
        r == word_end(s@, from as int),
        from <= r <= s@.len(),
{
    let mut i: usize = from;
    while i < s.len() && !s[i].is_whitespace()
        invariant
            from <= i <= s@.len(),
            word_end(s@, i as int) == word_end(s@, from as int),
        decreases s@.len() - i,
    {
        i = i + 1;
    }
    i
}

fn trim_end(s: &Vec<char>) -> (r: usize)
    ensures
        r == trimmed_end(s@, s@.len() as int),
        r <= s@.len(),
{
    let mut k: usize = s.len();
    while k > 0 && s[k - 1].is_whitespace()
        invariant
            k <= s@.len(),
            trimmed_end(s@, k as int) == trimmed_end(s@, s@.len() as int),
        decreases k,
    {
        k = k - 1;
    }
    k
}

/// The method and the path of a request, or `None` where the line holds fewer than two
/// words.
pub fn parse_request_line(line: &str) -> (r: Option<(String, String)>)
    ensures
        r is Some <==> first_words(line@) is Some,
        r matches Some(w) ==> Some((w.0@, w.1@)) == first_words(line@),
{
    let s = text::characters(line);
    let a = skip_space(&s, 0);
    let b = skip_word(&s, a);
    let c = skip_space(&s, b);
    let d = skip_word(&s, c);
    if a < b && c < d {
        Some((text::piece(&s, a, b), text::piece(&s, c, d)))
    } else {
        None
    }
}

fn names_length(s: &Vec<char>, colon: usize) -> (r: bool)
    requires
        colon <= s@.len(),
    ensures
        r == same_but_case(s@.subrange(0, colon as int), "content-length"@),
{
    let name = text::characters("content-length");
    if colon != name.len() {
        return false;
    }
    let mut i: usize = 0;
    while i < colon
        invariant
            colon <= s@.len(),
            name@ == "content-length"@,
            colon == name@.len(),
            i <= colon,
            forall|j: int| 0 <= j < i ==> text::lowercase(s@[j]) == text::lowercase(#[trigger] name@[j]),
        decreases colon - i,
    {
        if text::to_lowercase(s[i]) != text::to_lowercase(name[i]) {
            proof {
                let a = s@.subrange(0, colon as int);
                assert(text::lowercase(a[i as int]) != text::lowercase(name@[i as int]));
            }
            return false;
        }
        i = i + 1;
    }
    true
}

/// Digits that are no number, or too large a one, stay so however they go on.
proof fn lemma_digits_prefix(s: Seq<char>, k: int)
    requires
        0 <= k <= s.len(),
    ensures
        digits_value(s.take(k)) is None ==> digits_value(s) is None,
        digits_value(s) matches Some(v) ==> digits_value(s.take(k)) is Some && digits_value(
            s.take(k),
        )->0 <= v,
    decreases s.len(),
{
    if k < s.len() {
        lemma_digits_prefix(s.drop_last(), k);
        assert(s.drop_last().take(k) =~= s.take(k));
    } else {
        assert(s.take(k) =~= s);
    }
}

fn parse_length(s: &Vec<char>) -> (r: usize)
    ensures
        r == length_of(s@),
{
    let from: usize = if s.len() > 0 && s[0] == '+' {
        1
    } else {
        0
    };
    let ghost digits = without_plus(s@);
    assert(digits =~= s@.subrange(from as int, s@.len() as int));
    if from == s.len() {
        return 0;
    }
    let mut value: usize = 0;
    let mut i: usize = from;
    assert(digits.take(0).len() == 0);
    while i < s.len()
        invariant
            from <= i <= s@.len(),
            digits == s@.subrange(from as int, s@.len() as int),
            digits == without_plus(s@),
            digits.len() > 0,
            digits_value(digits.take(i - from)) == Some(value as nat),
        decreases s@.len() - i,
    {
        let c = s[i];
        proof {
            let now = digits.take(i + 1 - from);
            assert(now.drop_last() =~= digits.take(i - from));
            assert(now.last() == c);
            lemma_digits_prefix(digits, i + 1 - from);
        }
        if c < '0' || c > '9' {
            return 0;
        }
        let d: usize = (c as u32 - '0' as u32) as usize;
        match value.checked_mul(10) {
            None => {
                return 0;
            },
            Some(tens) => match tens.checked_add(d) {
                None => {
                    return 0;
                },
                Some(next) => {
                    value = next;
                },
            },
        }
        i = i + 1;
    }
    assert(digits.take(digits.len() as int) =~= digits);
    value
}

/// Read one header line.
pub fn parse_header(line: &str) -> (r: Header)
    ensures
        r == header_of(line@),
{
    let mut s = text::characters(line);
    let end = trim_end(&s);
    s.truncate(end);
    assert(s@ =~= line@.subrange(0, trimmed_end(line@, line@.len() as int)));
    if s.len() == 0 {
        return Header::End;
    }
    let mut colon: usize = 0;
    while colon < s.len() && s[colon] != ':'
        invariant
            colon <= s@.len(),
            colon_from(s@, colon as int) == colon_from(s@, 0),
        decreases s@.len() - colon,
    {
        colon = colon + 1;
    }
    if colon < s.len() && names_length(&s, colon) {
        let rest = text::slice(&s, colon + 1, s.len());
        let from = skip_space(&rest, 0);
        let value = text::slice(&rest, from, rest.len());
        return Header::Length(parse_length(&value));
    }
    Header::Other
}

/// How much of an advertised body is read: no more than the largest one accepted.
pub fn body_limit(length: usize) -> (r: usize)
    ensures
        r == if length < MAX_BODY {
            length
        } else {
            MAX_BODY
        },
{
    if length < MAX_BODY {
        length
    } else {
        MAX_BODY
    }
}

/// Where a request goes.
pub fn route(method: &str, path: &str, body_len: usize) -> (r: Route)
    ensures
        r == route_of(method@, path@, body_len as nat),
{
    if text::same(method, "GET") && text::same(path, "/") {
        Route::Page
    } else if text::same(method, "POST") && text::same(path, "/api/design") {
        if body_len >= MAX_BODY {
            Route::TooLarge
        } else {
            Route::Design
        }
    } else {
        Route::NotFound
    }
}

/// The head of a response with a body of a given length.
pub fn response_head(status: &str, content_type: &str, len: usize) -> (r: String)
    ensures
        r@ == head_text(status@, content_type@, len as nat),
{
    let mut s = text::begin("HTTP/1.1 ");
    text::push(&mut s, status);
    text::push(&mut s, "\r\nContent-Type: ");
    text::push(&mut s, content_type);
    text::push(&mut s, "\r\nContent-Length: ");
    text::push_number(&mut s, len);
    text::push(&mut s, "\r\nCache-Control: no-store\r\nConnection: close\r\n\r\n");
    s
}

} // verus!
