//! Character-level text helpers with their specifications: whitespace
//! trimming, JSON string escaping and substring search.

use vstd::prelude::*;

verus! {

/// Appends one character to a string (std's `String::push`).
#[verifier::external_body]
pub(crate) fn push_char(s: &mut String, c: char)
    ensures
        final(s)@ == old(s)@.push(c),
{
    s.push(c);
}

/// The characters of a string slice, in order.
pub fn chars_of(s: &str) -> (r: Vec<char>)
    ensures
        r@ == s@,
{
    let mut r: Vec<char> = Vec::new();
    for c in it: s.chars()
        invariant
            r@ == it.history(),
    {
        r.push(c);
    }
    r
}

/// A string whose characters are `v[lo..hi]`.
pub fn string_of_range(v: &Vec<char>, lo: usize, hi: usize) -> (r: String)
    requires
        lo <= hi <= v.len(),
    ensures
        r@ == v@.subrange(lo as int, hi as int),
{
    let mut r = String::new();
    let mut i = lo;
    while i < hi
        invariant
            lo <= i <= hi <= v.len(),
            r@ == v@.subrange(lo as int, i as int),
        decreases hi - i,
    {
        push_char(&mut r, v[i]);
        assert(v@.subrange(lo as int, i + 1) =~= v@.subrange(lo as int, i as int).push(v@[i as int]));
        i = i + 1;
    }
    r
}

/// Unicode `White_Space`: the characters that `char::is_whitespace` and
/// `str::trim` treat as whitespace.
pub open spec fn is_white_space(c: char) -> bool {
    ||| '\u{9}' <= c <= '\u{d}'
    ||| c == ' '
    ||| c == '\u{85}'
    ||| c == '\u{a0}'
    ||| c == '\u{1680}'
    ||| '\u{2000}' <= c <= '\u{200a}'
    ||| c == '\u{2028}'
    ||| c == '\u{2029}'
    ||| c == '\u{202f}'
    ||| c == '\u{205f}'
    ||| c == '\u{3000}'
}

/// Whether `c` is Unicode whitespace.
pub fn is_whitespace(c: char) -> (r: bool)
    ensures
        r == is_white_space(c),
{
    ('\u{9}' <= c && c <= '\u{d}') || c == ' ' || c == '\u{85}' || c == '\u{a0}' || c
        == '\u{1680}' || ('\u{2000}' <= c && c <= '\u{200a}') || c == '\u{2028}' || c
        == '\u{2029}' || c == '\u{202f}' || c == '\u{205f}' || c == '\u{3000}'
}

/// `s` without its leading whitespace.
pub open spec fn trim_start(s: Seq<char>) -> Seq<char>
    decreases s.len(),
{
    if s.len() > 0 && is_white_space(s[0]) {
        trim_start(s.drop_first())
    } else {
        s
    }
}

/// `s` without its trailing whitespace.
pub open spec fn trim_end(s: Seq<char>) -> Seq<char>
    decreases s.len(),
{
    if s.len() > 0 && is_white_space(s.last()) {
        trim_end(s.drop_last())
    } else {
        s
    }
}

/// `s` without leading and trailing whitespace.
pub open spec fn trim(s: Seq<char>) -> Seq<char> {
    trim_end(trim_start(s))
}

proof fn lemma_trim_start_skip(s: Seq<char>, i: int)
    requires
        0 <= i <= s.len(),
        forall|k: int| 0 <= k < i ==> is_white_space(#[trigger] s[k]),
    ensures
        trim_start(s) == trim_start(s.skip(i)),
    decreases i,
{
    if i > 0 {
        lemma_trim_start_skip(s, i - 1);
        assert(s.skip(i - 1).drop_first() =~= s.skip(i));
    } else {
        assert(s.skip(0) =~= s);
    }
}

proof fn lemma_trim_end_take(s: Seq<char>, j: int)
    requires
        0 <= j <= s.len(),
        forall|k: int| j <= k < s.len() ==> is_white_space(#[trigger] s[k]),
    ensures
        trim_end(s) == trim_end(s.take(j)),
    decreases s.len() - j,
{
    if j < s.len() {
        lemma_trim_end_take(s, j + 1);
        assert(s.take(j + 1).drop_last() =~= s.take(j));
    } else {
        assert(s.take(j) =~= s);
    }
}

proof fn lemma_trim_start_first(s: Seq<char>)
    ensures
        trim_start(s).len() > 0 ==> !is_white_space(trim_start(s)[0]),
    decreases s.len(),
{
    if s.len() > 0 && is_white_space(s[0]) {
        lemma_trim_start_first(s.drop_first());
    }
}

proof fn lemma_trim_end_prefix(s: Seq<char>)
    ensures
        trim_end(s).len() <= s.len(),
        trim_end(s) == s.take(trim_end(s).len() as int),
        trim_end(s).len() > 0 ==> !is_white_space(trim_end(s).last()),
    decreases s.len(),
{
    if s.len() > 0 && is_white_space(s.last()) {
        lemma_trim_end_prefix(s.drop_last());
        let t = trim_end(s.drop_last());
        assert(s.drop_last().take(t.len() as int) =~= s.take(t.len() as int));
    } else {
        assert(s.take(s.len() as int) =~= s);
    }
}

/// Trimming a trimmed text changes nothing.
pub proof fn lemma_trim_idempotent(s: Seq<char>)
    ensures
        trim(trim(s)) == trim(s),
{
    let w = trim_start(s);
    let u = trim_end(w);
    lemma_trim_start_first(s);
    lemma_trim_end_prefix(w);
    if u.len() > 0 {
        assert(u[0] == w[0]);
    }
    assert(trim_start(u) == u);
    assert(trim_end(u) == u);
}

/// `s` with leading and trailing whitespace removed (std's `str::trim`).
pub fn trim_str(s: &str) -> (r: String)
    ensures
        r@ == trim(s@),
{
    let v = chars_of(s);
    let n = v.len();
    let mut lo: usize = 0;
    while lo < n && is_whitespace(v[lo])
        invariant
            lo <= n == v.len(),
            forall|k: int| 0 <= k < lo ==> is_white_space(#[trigger] v@[k]),
        decreases n - lo,
    {
        lo = lo + 1;
    }
    proof {
        lemma_trim_start_skip(v@, lo as int);
    }
    let ghost rest = v@.skip(lo as int);
    assert(trim_start(rest) == rest);
    let mut hi: usize = n;
    while hi > lo && is_whitespace(v[hi - 1])
        invariant
            lo <= hi <= n == v.len(),
            forall|k: int| hi <= k < n ==> is_white_space(#[trigger] v@[k]),
        decreases hi,
    {
        hi = hi - 1;
    }
    proof {
        assert forall|k: int| hi - lo <= k < rest.len() implies is_white_space(#[trigger] rest[k]) by {
            assert(rest[k] == v@[k + lo]);
        }
        lemma_trim_end_take(rest, hi - lo);
        assert(rest.take(hi - lo) =~= v@.subrange(lo as int, hi as int));
        let t = rest.take(hi - lo);
        if t.len() > 0 {
            assert(t.last() == v@[hi - 1]);
        }
    }
    string_of_range(&v, lo, hi)
}

/// A hexadecimal digit, lower case.
pub open spec fn hex_digit(d: int) -> char {
    if 0 <= d <= 9 {
        digit_of(d)
    } else if d == 10 {
        'a'
    } else if d == 11 {
        'b'
    } else if d == 12 {
        'c'
    } else if d == 13 {
        'd'
    } else if d == 14 {
        'e'
    } else {
        'f'
    }
}

/// A decimal digit.
pub open spec fn digit_of(d: int) -> char {
    if d == 0 { '0' }
    else if d == 1 { '1' }
    else if d == 2 { '2' }
    else if d == 3 { '3' }
    else if d == 4 { '4' }
    else if d == 5 { '5' }
    else if d == 6 { '6' }
    else if d == 7 { '7' }
    else if d == 8 { '8' }
    else { '9' }
}

/// The value of a hexadecimal digit (either case), or `None`.
pub open spec fn hex_value(c: char) -> Option<int> {
    if '0' <= c <= '9' {
        Some(c as int - '0' as int)
    } else if 'a' <= c <= 'f' {
        Some(c as int - 'a' as int + 10)
    } else if 'A' <= c <= 'F' {
        Some(c as int - 'A' as int + 10)
    } else {
        None
    }
}

/// Whether `c` must be escaped in a JSON string: a quote, a backslash, or a
/// control character below U+0020.
pub open spec fn json_needs_escape(c: char) -> bool {
    c == '"' || c == '\\' || (c as int) < 0x20
}

/// The JSON string-literal escape of one character: backslash, double quote,
/// newline, carriage return and tab have their short escapes, every other
/// control character below U+0020 is written `\u00XX` (lower-case hex), and
/// every other character stands for itself.
pub open spec fn json_escape_char(c: char) -> Seq<char> {
    if c == '\\' {
        seq!['\\', '\\']
    } else if c == '"' {
        seq!['\\', '"']
    } else if c == '\n' {
        seq!['\\', 'n']
    } else if c == '\r' {
        seq!['\\', 'r']
    } else if c == '\t' {
        seq!['\\', 't']
    } else if (c as int) < 0x20 {
        seq!['\\', 'u', '0', '0', hex_digit((c as int) / 16), hex_digit((c as int) % 16)]
    } else {
        seq![c]
    }
}

/// `s` with each character replaced by its escape.
pub open spec fn json_escape(s: Seq<char>) -> Seq<char>
    decreases s.len(),
{
    if s.len() == 0 {
        Seq::empty()
    } else {
        json_escape(s.drop_last()) + json_escape_char(s.last())
    }
}

/// Whether `s` has four hexadecimal digits at positions 2 to 5.
pub open spec fn has_hex4(s: Seq<char>) -> bool {
    s.len() >= 6 && hex_value(s[2]) is Some && hex_value(s[3]) is Some && hex_value(s[4]) is Some
        && hex_value(s[5]) is Some
}

/// The number that the four hexadecimal digits at positions 2 to 5 of `s` write.
pub open spec fn hex4_value(s: Seq<char>) -> int {
    ((hex_value(s[2])->0 * 16 + hex_value(s[3])->0) * 16 + hex_value(s[4])->0) * 16 + hex_value(s[5])->0
}

/// The characters that may follow a backslash in a JSON string, other than `u`.
pub open spec fn is_short_escape(x: char) -> bool {
    x == '"' || x == '\\' || x == '/' || x == 'b' || x == 'f' || x == 'n' || x == 'r' || x == 't'
}

/// Whether `s` is the text between the quotes of a JSON string (RFC 8259):
/// characters other than a quote, a backslash or a control character, and
/// escapes (a backslash and one of `"\/bfnrt`, or `\u` and four hexadecimal
/// digits).
pub open spec fn is_json_string_body(s: Seq<char>) -> bool
    decreases s.len(),
{
    if s.len() == 0 {
        true
    } else if s[0] == '\\' {
        if s.len() >= 2 && is_short_escape(s[1]) {
            is_json_string_body(s.skip(2))
        } else if s.len() >= 2 && s[1] == 'u' && has_hex4(s) {
            is_json_string_body(s.skip(6))
        } else {
            false
        }
    } else {
        !json_needs_escape(s[0]) && is_json_string_body(s.skip(1))
    }
}

/// The character with code `v` (a code point).
pub open spec fn char_of_code(v: int) -> char {
    v as char
}

/// The character that a backslash followed by `x` stands for in JSON.
pub open spec fn unescaped_char(x: char) -> char {
    if x == 'n' {
        '\n'
    } else if x == 'r' {
        '\r'
    } else if x == 't' {
        '\t'
    } else if x == 'b' {
        '\u{8}'
    } else if x == 'f' {
        '\u{c}'
    } else {
        x
    }
}

/// The characters that the body of a JSON string stands for: a backslash
/// and the character after it stand for one character, `\u` and four
/// hexadecimal digits for the character with that code, every other
/// character for itself.
pub open spec fn json_unescape(s: Seq<char>) -> Seq<char>
    decreases s.len(),
{
    if s.len() == 0 {
        Seq::empty()
    } else if s[0] == '\\' && s.len() >= 2 && s[1] == 'u' && has_hex4(s) {
        seq![char_of_code(hex4_value(s))] + json_unescape(s.skip(6))
    } else if s[0] == '\\' && s.len() >= 2 {
        seq![unescaped_char(s[1])] + json_unescape(s.skip(2))
    } else {
        seq![s[0]] + json_unescape(s.skip(1))
    }
}

/// The JSON string literal for `t`: its escape between double quotes.
pub open spec fn json_string(t: Seq<char>) -> Seq<char> {
    seq!['"'] + json_escape(t) + seq!['"']
}

/// Whether `q` is a JSON string literal.
pub open spec fn is_json_string(q: Seq<char>) -> bool {
    q.len() >= 2 && q[0] == '"' && q.last() == '"' && is_json_string_body(q.subrange(1, q.len() - 1))
}

/// The characters that the JSON string literal `q` stands for.
pub open spec fn json_string_value(q: Seq<char>) -> Seq<char> {
    json_unescape(q.subrange(1, q.len() - 1))
}

proof fn lemma_hex_digit(d: int)
    requires
        0 <= d < 16,
    ensures
        hex_value(hex_digit(d)) == Some(d),
{
}

proof fn lemma_char_of_code(c: char)
    ensures
        char_of_code(c as int) == c,
{
}

proof fn lemma_escape_char_step(c: char, rest: Seq<char>)
    ensures
        json_unescape(json_escape_char(c) + rest) == seq![c] + json_unescape(rest),
        is_json_string_body(rest) ==> is_json_string_body(json_escape_char(c) + rest),
{
    let e = json_escape_char(c);
    let x = e + rest;
    if c == '\\' || c == '"' || c == '\n' || c == '\r' || c == '\t' {
        assert(x[0] == '\\');
        assert(x.skip(2) =~= rest);
        assert(unescaped_char(x[1]) == c);
        assert(!has_hex4(x) || x[1] != 'u');
        assert(json_unescape(x) == seq![unescaped_char(x[1])] + json_unescape(x.skip(2)));
    } else if (c as int) < 0x20 {
        let v = c as int;
        lemma_hex_digit(v / 16);
        lemma_hex_digit(v % 16);
        assert(x[0] == '\\' && x[1] == 'u');
        assert(x[2] == '0' && x[3] == '0');
        assert(has_hex4(x));
        assert(hex4_value(x) == v);
        lemma_char_of_code(c);
        assert(x.skip(6) =~= rest);
        assert(json_unescape(x) == seq![char_of_code(hex4_value(x))] + json_unescape(x.skip(6)));
    } else {
        assert(x[0] == c);
        assert(x.skip(1) =~= rest);
        assert(json_unescape(x) == seq![x[0]] + json_unescape(x.skip(1)));
    }
}

proof fn lemma_escape_prefix(a: Seq<char>, rest: Seq<char>)
    ensures
        json_unescape(json_escape(a) + rest) == a + json_unescape(rest),
        is_json_string_body(rest) ==> is_json_string_body(json_escape(a) + rest),
    decreases a.len(),
{
    if a.len() == 0 {
        assert(json_escape(a) + rest =~= rest);
        assert(a + json_unescape(rest) =~= json_unescape(rest));
    } else {
        let p = a.drop_last();
        let c = a.last();
        let x = json_escape_char(c) + rest;
        lemma_escape_char_step(c, rest);
        lemma_escape_prefix(p, x);
        assert(json_escape(a) + rest =~= json_escape(p) + x);
        assert(p + (seq![c] + json_unescape(rest)) =~= a + json_unescape(rest));
    }
}

/// Reading back an escaped text gives the text.
pub proof fn lemma_unescape_escape(s: Seq<char>)
    ensures
        json_unescape(json_escape(s)) == s,
        is_json_string_body(json_escape(s)),
{
    lemma_escape_prefix(s, Seq::empty());
    assert(json_escape(s) + Seq::<char>::empty() =~= json_escape(s));
    assert(s + Seq::<char>::empty() =~= s);
}

/// The JSON string literal for any text is a valid JSON string, and it
/// stands for that text.
pub proof fn lemma_json_string(t: Seq<char>)
    ensures
        is_json_string(json_string(t)),
        json_string_value(json_string(t)) == t,
{
    lemma_unescape_escape(t);
    let q = json_string(t);
    assert(q.subrange(1, q.len() - 1) =~= json_escape(t));
}

/// The lower-case hexadecimal digit for `d`.
pub(crate) fn hex_char(d: u32) -> (c: char)
    requires
        d < 16,
    ensures
        c == hex_digit(d as int),
{
    if d == 0 { '0' }
    else if d == 1 { '1' }
    else if d == 2 { '2' }
    else if d == 3 { '3' }
    else if d == 4 { '4' }
    else if d == 5 { '5' }
    else if d == 6 { '6' }
    else if d == 7 { '7' }
    else if d == 8 { '8' }
    else if d == 9 { '9' }
    else if d == 10 { 'a' }
    else if d == 11 { 'b' }
    else if d == 12 { 'c' }
    else if d == 13 { 'd' }
    else if d == 14 { 'e' }
    else { 'f' }
}

/// A text with no character that needs escaping escapes to itself.
pub proof fn lemma_plain_escape(s: Seq<char>)
    requires
        forall|i: int| 0 <= i < s.len() ==> !json_needs_escape(#[trigger] s[i]),
    ensures
        json_escape(s) == s,
    decreases s.len(),
{
    if s.len() > 0 {
        lemma_plain_escape(s.drop_last());
        assert(s.drop_last() + seq![s.last()] =~= s);
    }
}

/// The code point of `c`.
fn char_code(c: char) -> (r: u32)
    ensures
        r as int == c as int,
{
    c as u32
}

/// Escapes `s` for use inside a JSON string literal.
pub fn escape_json(s: &str) -> (r: String)
    ensures
        r@ == json_escape(s@),
{
    let v = chars_of(s);
    let mut r = String::new();
    let mut i: usize = 0;
    while i < v.len()
        invariant
            i <= v.len(),
            r@ == json_escape(v@.take(i as int)),
        decreases v.len() - i,
    {
        let c = v[i];
        proof {
            assert(v@.take(i + 1).drop_last() =~= v@.take(i as int));
        }
        if c == '\\' {
            push_char(&mut r, '\\');
            push_char(&mut r, '\\');
        } else if c == '"' {
            push_char(&mut r, '\\');
            push_char(&mut r, '"');
        } else if c == '\n' {
            push_char(&mut r, '\\');
            push_char(&mut r, 'n');
        } else if c == '\r' {
            push_char(&mut r, '\\');
            push_char(&mut r, 'r');
        } else if c == '\t' {
            push_char(&mut r, '\\');
            push_char(&mut r, 't');
        } else if '\u{1f}' >= c {
            let code = char_code(c);
            push_char(&mut r, '\\');
            push_char(&mut r, 'u');
            push_char(&mut r, '0');
            push_char(&mut r, '0');
            push_char(&mut r, hex_char(code / 16));
            push_char(&mut r, hex_char(code % 16));
        } else {
            push_char(&mut r, c);
        }
        assert(r@ =~= json_escape(v@.take(i + 1)));
        i = i + 1;
    }
    assert(v@.take(v.len() as int) =~= v@);
    r
}

/// Whether `needle` occurs in `hay` at position `i`.
pub open spec fn occurs_at(hay: Seq<char>, needle: Seq<char>, i: int) -> bool {
    0 <= i && i + needle.len() <= hay.len() && hay.subrange(i, i + needle.len()) == needle
}

/// Whether `needle` occurs somewhere in `hay`.
pub open spec fn contains_seq(hay: Seq<char>, needle: Seq<char>) -> bool {
    exists|i: int| occurs_at(hay, needle, i)
}

/// Whether `needle` occurs in `hay` at position `i` (executable).
fn matches_at(hay: &Vec<char>, needle: &Vec<char>, i: usize) -> (r: bool)
    requires
        i + needle.len() <= hay.len(),
    ensures
        r == occurs_at(hay@, needle@, i as int),
{
    let mut k: usize = 0;
    while k < needle.len()
        invariant
            k <= needle.len(),
            i + needle.len() <= hay.len(),
            forall|j: int| 0 <= j < k ==> hay@[i + j] == needle@[j],
        decreases needle.len() - k,
    {
        if hay[i + k] != needle[k] {
            assert(hay@.subrange(i as int, i + needle.len())[k as int] != needle@[k as int]);
            return false;
        }
        k = k + 1;
    }
    assert(hay@.subrange(i as int, i + needle.len()) =~= needle@);
    true
}

/// Whether `needle` occurs in `hay` (std's `str::contains` with a string pattern).
pub fn contains_str(hay: &str, needle: &str) -> (r: bool)
    ensures
        r == contains_seq(hay@, needle@),
{
    let h = chars_of(hay);
    let n = chars_of(needle);
    if n.len() == 0 {
        assert(hay@.subrange(0, 0) =~= needle@);
        assert(occurs_at(hay@, needle@, 0));
        return true;
    }
    if n.len() > h.len() {
        assert forall|i: int| !occurs_at(hay@, needle@, i) by {}
        return false;
    }
    let last = h.len() - n.len();
    let mut i: usize = 0;
    while i <= last
        invariant
            last + n.len() == h.len(),
            n.len() >= 1,
            i <= last + 1,
            h@ == hay@,
            n@ == needle@,
            forall|j: int| 0 <= j < i ==> !occurs_at(hay@, needle@, j),
        decreases last + 1 - i,
    {
        if matches_at(&h, &n, i) {
            return true;
        }
        i = i + 1;
    }
    assert forall|j: int| !occurs_at(hay@, needle@, j) by {
        if 0 <= j < i {
        }
    }
    false
}

} // verus!
