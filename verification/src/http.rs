//! The little of HTTP that the daemon understands.
use crate::text;
use crate::text::{chars_of, push_decimal};
use vstd::prelude::*;

verus! {

/// The longest body that is read, in bytes.
pub const MAX_BODY: usize = 65536;

/// Whether a character is white space, as Unicode has it.
pub open spec fn is_white(c: char) -> bool {
    let v = c as u32;
    ||| 0x09 <= v <= 0x0D
    ||| v == 0x20
    ||| v == 0x85
    ||| v == 0xA0
    ||| v == 0x1680
    ||| 0x2000 <= v <= 0x200A
    ||| v == 0x2028
    ||| v == 0x2029
    ||| v == 0x202F
    ||| v == 0x205F
    ||| v == 0x3000
}

fn white(c: char) -> (r: bool)
    ensures
        r == is_white(c),
{
    let v: u32 = c as u32;
    (0x09 <= v && v <= 0x0D) || v == 0x20 || v == 0x85 || v == 0xA0 || v == 0x1680 || (0x2000 <= v
        && v <= 0x200A) || v == 0x2028 || v == 0x2029 || v == 0x202F || v == 0x205F || v == 0x3000
}

/// How many characters of white space a text starts with.
pub open spec fn white_before(s: Seq<char>) -> nat
    decreases s.len(),
{
    if s.len() == 0 || !is_white(s[0]) {
        0
    } else {
        1 + white_before(s.drop_first())
    }
}

/// A text without the white space at its end.
pub open spec fn trim_end(s: Seq<char>) -> Seq<char>
    decreases s.len(),
{
    if s.len() == 0 || !is_white(s.last()) {
        s
    } else {
        trim_end(s.drop_last())
    }
}

/// A text without the white space around it.
pub open spec fn trimmed(s: Seq<char>) -> Seq<char> {
    let t = trim_end(s);
    t.skip(white_before(t) as int)
}

/// Drops the white space around a text.
fn trim(v: &[char]) -> (r: Vec<char>)
    ensures
        r@ == trimmed(v@),
{
    let mut end: usize = v.len();
    assert(v@.subrange(0, end as int) =~= v@);
    while end > 0 && white(v[end - 1])
        invariant
            end <= v@.len(),
            trim_end(v@.subrange(0, end as int)) == trim_end(v@),
        decreases end,
    {
        assert(v@.subrange(0, end as int).drop_last() =~= v@.subrange(0, end - 1));
        end = end - 1;
    }
    let ghost t = v@.subrange(0, end as int);
    assert(trim_end(t) == t);
    let mut start: usize = 0;
    assert(t.skip(0) =~= t);
    while start < end && white(v[start])
        invariant
            start <= end <= v@.len(),
            t == v@.subrange(0, end as int),
            start + white_before(t.skip(start as int)) == white_before(t),
        decreases end - start,
    {
        assert(t.skip(start as int).drop_first() =~= t.skip(start + 1));
        start = start + 1;
    }
    assert(white_before(t.skip(start as int)) == 0);
    let mut r: Vec<char> = Vec::new();
    let mut i: usize = start;
    while i < end
        invariant
            start <= i <= end <= v@.len(),
            r@ == v@.subrange(start as int, i as int),
        decreases end - i,
    {
        r.push(v[i]);
        i = i + 1;
        assert(r@ =~= v@.subrange(start as int, i as int));
    }
    assert(r@ =~= t.skip(start as int));
    r
}

/// Whether a character is a decimal digit.
pub open spec fn is_digit(c: char) -> bool {
    0x30 <= c as u32 <= 0x39
}

/// The number that decimal digits stand for.
pub open spec fn digits_value(s: Seq<char>) -> nat
    decreases s.len(),
{
    if s.len() == 0 {
        0
    } else {
        digits_value(s.drop_last()) * 10 + ((s.last() as u32) - 0x30) as nat
    }
}

/// Decimal digits, without the plus sign that may stand before them.
pub open spec fn without_plus(s: Seq<char>) -> Seq<char> {
    if s.len() > 0 && s[0] == '+' {
        s.drop_first()
    } else {
        s
    }
}

/// The length that a text stands for: one or more decimal digits, with or without a
/// plus sign, that fit into a machine word; and 0 for any other text.
pub open spec fn length_of(s: Seq<char>) -> nat {
    let d = without_plus(s);
    if d.len() > 0 && (forall|i: int| 0 <= i < d.len() ==> is_digit(#[trigger] d[i]))
        && digits_value(d) <= usize::MAX {
        digits_value(d)
    } else {
        0
    }
}

proof fn lemma_digits_grow(s: Seq<char>, i: int)
    requires
        0 <= i <= s.len(),
        forall|j: int| 0 <= j < s.len() ==> is_digit(#[trigger] s[j]),
    ensures
        digits_value(s.subrange(0, i)) <= digits_value(s),
    decreases s.len(),
{
    if i == s.len() {
        assert(s.subrange(0, i) =~= s);
    } else {
        let t = s.drop_last();
        assert forall|j: int| 0 <= j < t.len() implies is_digit(#[trigger] t[j]) by {
            assert(is_digit(s[j]));
        }
        lemma_digits_grow(t, i);
        assert(t.subrange(0, i) =~= s.subrange(0, i));
    }
}

/// The length that a text stands for.
fn parse_length(s: &[char]) -> (n: usize)
    ensures
        n == length_of(s@),
{
    let start: usize = if s.len() > 0 && s[0] == '+' {
        1
    } else {
        0
    };
    let ghost d = without_plus(s@);
    assert(d =~= s@.skip(start as int));
    if start == s.len() {
        return 0;
    }
    let mut n: usize = 0;
    let mut i: usize = start;
    assert(d.subrange(0, 0) =~= Seq::empty());
    while i < s.len()
        invariant
            start <= i <= s@.len(),
            d == s@.skip(start as int),
            d == without_plus(s@),
            n == digits_value(d.subrange(0, i - start)),
            forall|j: int| 0 <= j < i - start ==> is_digit(#[trigger] d[j]),
        decreases s@.len() - i,
    {
        let c: u32 = s[i] as u32;
        let ghost k = i - start;
        assert(d[k] == s@[i as int]);
        if c < 0x30 || c > 0x39 {
            assert(!is_digit(d[k]));
            return 0;
        }
        let digit: usize = (c - 0x30) as usize;
        proof {
            assert(d.subrange(0, k + 1).drop_last() =~= d.subrange(0, k));
            assert(d.subrange(0, k + 1).last() == d[k]);
            if forall|j: int| 0 <= j < d.len() ==> is_digit(#[trigger] d[j]) {
                lemma_digits_grow(d, k + 1);
            }
        }
        if n > (usize::MAX - digit) / 10 {
            assert(digits_value(d.subrange(0, k + 1)) > usize::MAX);
            return 0;
        }
        n = n * 10 + digit;
        i = i + 1;
    }
    assert(d.subrange(0, i - start) =~= d);
    n
}

/// A line of the head of a request.
#[derive(Clone, Copy, Debug, PartialEq, Eq, Structural)]
pub enum HeadLine {
    /// The head ends here.
    End,
    /// The body has so many bytes.
    ContentLength(usize),
    /// Something else.
    Other,
}

/// A letter from A to Z as a small one.
pub open spec fn small(c: char) -> char {
    if 0x41 <= c as u32 <= 0x5A {
        ((c as u32) + 0x20) as char
    } else {
        c
    }
}

/// Whether a line names the length of the body.
pub open spec fn names_length(line: Seq<char>) -> bool {
    let name = "content-length:"@;
    line.len() >= name.len() && forall|i: int|
        0 <= i < name.len() ==> small(#[trigger] line[i]) == name[i]
}

/// What a line of the head says. White space around it and capital letters do not
/// matter.
pub open spec fn head_line_of(line: Seq<char>) -> HeadLine {
    let t = trimmed(line);
    if t.len() == 0 {
        HeadLine::End
    } else if names_length(t) {
        HeadLine::ContentLength(
            length_of(trimmed(t.skip("content-length:"@.len() as int))) as usize,
        )
    } else {
        HeadLine::Other
    }
}

/// Reads a line of the head of a request.
pub fn head_line(line: &str) -> (r: HeadLine)
    ensures
        r == head_line_of(line@),
{
    let all: Vec<char> = chars_of(line);
    let t: Vec<char> = trim(all.as_slice());
    if t.len() == 0 {
        return HeadLine::End;
    }
    let name: Vec<char> = chars_of("content-length:");
    if t.len() < name.len() {
        return HeadLine::Other;
    }
    let mut i: usize = 0;
    while i < name.len()
        invariant
            i <= name@.len() <= t@.len(),
            name@ == "content-length:"@,
            t@ == trimmed(line@),
            t@.len() > 0,
            forall|j: int| 0 <= j < i ==> small(#[trigger] t@[j]) == name@[j],
        decreases name@.len() - i,
    {
        let c: char = t[i];
        let v: u32 = c as u32;
        let low: char = if 0x41 <= v && v <= 0x5A {
            (v as u8 + 0x20) as char
        } else {
            c
        };
        assert(low == small(t@[i as int]));
        if low != name[i] {
            assert(!names_length(t@));
            return HeadLine::Other;
        }
        i = i + 1;
    }
    let rest: &[char] = &t.as_slice()[name.len()..t.len()];
    assert(rest@ =~= t@.skip(name@.len() as int));
    let value: Vec<char> = trim(rest);
    HeadLine::ContentLength(parse_length(value.as_slice()))
}

/// The head of a request: how long it says that the body is.
#[derive(Debug)]
pub struct RequestHead {
    pub content_length: usize,
}

impl RequestHead {
    /// A head of which nothing has been read: there is no body.
    pub fn new() -> (r: Self)
        ensures
            r.content_length == 0,
    {
        RequestHead { content_length: 0 }
    }

    /// Takes a line in, and says whether the head ends with it. The last line that
    /// names a length holds.
    pub fn take_line(&mut self, line: &str) -> (end: bool)
        ensures
            end == (head_line_of(line@) == HeadLine::End),
            final(self).content_length == match head_line_of(line@) {
                HeadLine::ContentLength(n) => n,
                _ => old(self).content_length,
            },
    {
        match head_line(line) {
            HeadLine::End => true,
            HeadLine::ContentLength(n) => {
                self.content_length = n;
                false
            },
            HeadLine::Other => false,
        }
    }

    /// How many bytes of the body are read.
    pub fn body_len(&self) -> (n: usize)
        ensures
            n <= 65536,
            self.content_length <= 65536 ==> n == self.content_length,
            self.content_length > 65536 ==> n == 65536,
            n == if self.content_length < MAX_BODY {
                self.content_length
            } else {
                MAX_BODY
            },
    {
        if self.content_length < MAX_BODY {
            self.content_length
        } else {
            MAX_BODY
        }
    }
}

/// The answer that holds a text in JSON, with its length in bytes.
pub open spec fn response_text(json: Seq<char>) -> Seq<char> {
    "HTTP/1.1 200 OK\r\nContent-Type: application/json\r\nContent-Length: "@ + text::decimal(
        vstd::utf8::encode_utf8(json).len(),
    ) + "\r\n\r\n"@ + json
}

/// The answer that holds a text in JSON.
pub fn response(json: &str) -> (r: String)
    ensures
        r@ == response_text(json@),
{
    let mut r: String =
        "HTTP/1.1 200 OK\r\nContent-Type: application/json\r\nContent-Length: ".to_string();
    push_decimal(&mut r, json.as_bytes().len() as u64);
    r.push_str("\r\n\r\n");
    r.push_str(json);
    r
}

/// The digits of a number stand for it.
proof fn lemma_decimal_value(n: nat)
    ensures
        digits_value(text::decimal(n)) == n,
        text::decimal(n).len() > 0,
        forall|i: int| 0 <= i < text::decimal(n).len() ==> is_digit(#[trigger] text::decimal(n)[i]),
    decreases n,
{
    let d = text::decimal(n);
    if n < 10 {
        assert(d.drop_last() =~= Seq::empty());
        assert(d.last() == text::digit_char(n));
        assert(digits_value(d.drop_last()) == 0);
        assert((d.last() as u32) - 0x30 == n);
    } else {
        lemma_decimal_value(n / 10);
        assert(d.drop_last() =~= text::decimal(n / 10));
        assert forall|i: int| 0 <= i < d.len() implies is_digit(#[trigger] d[i]) by {
            if i < d.len() - 1 {
                assert(d[i] == text::decimal(n / 10)[i]);
            }
        }
    }
}

proof fn lemma_trim_end(s: Seq<char>, tail: Seq<char>)
    requires
        s.len() > 0,
        !is_white(s.last()),
        forall|i: int| 0 <= i < tail.len() ==> is_white(#[trigger] tail[i]),
    ensures
        trim_end(s + tail) == s,
    decreases tail.len(),
{
    if tail.len() == 0 {
        assert(s + tail =~= s);
    } else {
        assert((s + tail).drop_last() =~= s + tail.drop_last());
        assert((s + tail).last() == tail[tail.len() - 1]);
        assert forall|i: int| 0 <= i < tail.drop_last().len() implies is_white(
            #[trigger] tail.drop_last()[i],
        ) by {
            assert(is_white(tail[i]));
        }
        lemma_trim_end(s, tail.drop_last());
    }
}

/// The length that an answer announces is read as what it is: a line that names the length
/// of a body, in capital or in small letters, with the number in decimal behind it, is
/// taken for that number, with or without the end of a line.
pub proof fn law_content_length_read(name: Seq<char>, n: nat, ended: bool)
    requires
        n <= usize::MAX,
        name == "Content-Length: "@ || name == "content-length: "@ || name == "CONTENT-LENGTH: "@,
    ensures
        head_line_of(
            name + text::decimal(n) + if ended {
                seq!['\r', '\n']
            } else {
                Seq::empty()
            },
        ) == HeadLine::ContentLength(n as usize),
{
    reveal_strlit("Content-Length: ");
    reveal_strlit("content-length: ");
    reveal_strlit("CONTENT-LENGTH: ");
    reveal_strlit("content-length:");
    let d = text::decimal(n);
    let end: Seq<char> = if ended {
        seq!['\r', '\n']
    } else {
        Seq::empty()
    };
    lemma_decimal_value(n);
    let s = name + d;
    let line = s + end;
    assert(is_digit(d[d.len() - 1]));
    assert(s.last() == d.last());
    lemma_trim_end(s, end);
    assert(white_before(s) == 0);
    assert(s.skip(0) =~= s);
    assert(trimmed(line) == s);
    assert(names_length(s));
    let rest = s.skip(15);
    assert(rest =~= seq![' '] + d);
    lemma_trim_end(rest, Seq::empty());
    assert(rest + Seq::<char>::empty() =~= rest);
    assert(rest.drop_first() =~= d);
    assert(is_digit(d[0]));
    assert(white_before(d) == 0);
    assert(white_before(rest) == 1);
    assert(trimmed(rest) =~= d);
    assert(without_plus(d) == d);
}

/// The head of a request ends with the first line that is empty but for white space, and
/// with no other.
pub proof fn law_head_ends(line: Seq<char>)
    ensures
        head_line_of(line) == HeadLine::End <==> forall|i: int|
            0 <= i < line.len() ==> is_white(#[trigger] line[i]),
{
    lemma_trimmed_empty(line);
}

proof fn lemma_trimmed_empty(s: Seq<char>)
    ensures
        trimmed(s).len() == 0 <==> forall|i: int|
            0 <= i < s.len() ==> is_white(#[trigger] s[i]),
{
    let t = trim_end(s);
    lemma_trim_end_prefix(s);
    lemma_white_before(t);
    if trimmed(s).len() == 0 {
        if t.len() > 0 {
            assert(is_white(t[t.len() - 1]));
        }
    } else {
        assert(t.len() > 0);
        assert(s[t.len() - 1] == t.last());
    }
}

proof fn lemma_trim_end_prefix(s: Seq<char>)
    ensures
        ({
            let t = trim_end(s);
            &&& t.len() <= s.len()
            &&& t == s.subrange(0, t.len() as int)
            &&& t.len() > 0 ==> !is_white(t.last())
            &&& forall|i: int| t.len() <= i < s.len() ==> is_white(#[trigger] s[i])
        }),
    decreases s.len(),
{
    if s.len() > 0 && is_white(s.last()) {
        let f = s.drop_last();
        lemma_trim_end_prefix(f);
        let t = trim_end(s);
        assert(t =~= s.subrange(0, t.len() as int));
        assert forall|i: int| t.len() <= i < s.len() implies is_white(#[trigger] s[i]) by {
            if i < f.len() {
                assert(f[i] == s[i]);
            }
        }
    } else {
        assert(s =~= s.subrange(0, s.len() as int));
    }
}

proof fn lemma_white_before(s: Seq<char>)
    ensures
        white_before(s) <= s.len(),
        forall|i: int| 0 <= i < white_before(s) ==> is_white(#[trigger] s[i]),
        white_before(s) < s.len() ==> !is_white(s[white_before(s) as int]),
    decreases s.len(),
{
    if s.len() > 0 && is_white(s[0]) {
        let t = s.drop_first();
        lemma_white_before(t);
        assert forall|i: int| 0 <= i < white_before(s) implies is_white(#[trigger] s[i]) by {
            if i > 0 {
                assert(t[i - 1] == s[i]);
            }
        }
    }
}

/// A response announces as many bytes as its body has: the body stands at its end, behind
/// an empty line, and the line before that one is taken for the length of the body.
pub proof fn law_response(json: Seq<char>)
    requires
        vstd::utf8::encode_utf8(json).len() <= usize::MAX,
    ensures
        ({
            let n = vstd::utf8::encode_utf8(json).len();
            let line = "Content-Length: "@ + text::decimal(n) + seq!['\r', '\n'];
            &&& response_text(json)
                == "HTTP/1.1 200 OK\r\nContent-Type: application/json\r\n"@ + line + seq![
                '\r',
                '\n',
            ] + json
            &&& head_line_of(line) == HeadLine::ContentLength(n as usize)
            &&& head_line_of(seq!['\r', '\n']) == HeadLine::End
        }),
{
    let n = vstd::utf8::encode_utf8(json).len();
    let line = "Content-Length: "@ + text::decimal(n) + seq!['\r', '\n'];
    law_content_length_read("Content-Length: "@, n, true);
    law_head_ends(seq!['\r', '\n']);
    reveal_strlit("HTTP/1.1 200 OK\r\nContent-Type: application/json\r\nContent-Length: ");
    reveal_strlit("HTTP/1.1 200 OK\r\nContent-Type: application/json\r\n");
    reveal_strlit("Content-Length: ");
    reveal_strlit("\r\n\r\n");
    assert(response_text(json)
        =~= "HTTP/1.1 200 OK\r\nContent-Type: application/json\r\n"@ + line + seq!['\r', '\n']
        + json);
}

} // verus!
