//! A byte-level check of feed documents for durations that the feed parser
//! cannot read safely.
//!
//! The parser reads a duration from the text of an element named `duration`
//! and from the values of attributes named `start`, `end` and `time`. It
//! fails hard on a run of digits that does not fit a `u64`, or on digits
//! other than ASCII ones. A document is refused when, in such a place, the
//! bytes hold a run of sixteen ASCII digits, a byte of a non-ASCII character,
//! a character reference, or a comment, CDATA section or processing
//! instruction; when the tag of such an element holds a quote or does not
//! close before the next end tag; when an attribute of such a name has no
//! quoted value; when the document starts with a UTF-16 byte order mark or an
//! XML declaration names a sixteen-bit encoding; and whenever it holds a NUL
//! or ESC byte (encodings in which ASCII text need not stand as ASCII bytes).

use vstd::prelude::*;

verus! {

/// XML white space.
pub open spec fn is_xml_space(x: u8) -> bool {
    x == 0x20 || x == 0x09 || x == 0x0a || x == 0x0d
}

/// An ASCII digit.
pub open spec fn is_ascii_digit(x: u8) -> bool {
    0x30 <= x <= 0x39
}

/// Whether the bytes `w` stand at position `i` of `b`.
pub open spec fn bytes_at(b: Seq<u8>, w: Seq<u8>, i: int) -> bool {
    0 <= i && i + w.len() <= b.len() && b.subrange(i, i + w.len()) == w
}

/// The first position from `i` on that holds no white space.
pub open spec fn skip_space(b: Seq<u8>, i: int) -> int
    decreases b.len() - i,
{
    if 0 <= i < b.len() && is_xml_space(b[i]) {
        skip_space(b, i + 1)
    } else {
        i
    }
}

/// The first position from `i` on that holds `x`; the length when none does.
pub open spec fn find_byte(b: Seq<u8>, i: int, x: u8) -> int
    decreases b.len() - i,
{
    if i < 0 || i >= b.len() {
        b.len() as int
    } else if b[i] == x {
        i
    } else {
        find_byte(b, i + 1, x)
    }
}

/// The first position from `i` on where the byte pair `x`, `y` starts; the
/// length when there is none.
pub open spec fn pair_from(b: Seq<u8>, i: int, x: u8, y: u8) -> int
    decreases b.len() - i,
{
    if i < 0 || i + 1 >= b.len() {
        b.len() as int
    } else if b[i] == x && b[i + 1] == y {
        i
    } else {
        pair_from(b, i + 1, x, y)
    }
}

/// The first position from `i` on where an end tag (`</`) starts.
pub open spec fn end_tag_from(b: Seq<u8>, i: int) -> int {
    pair_from(b, i, 0x3c, 0x2f)
}

/// The position of the last `<` before `i`; zero when there is none.
pub open spec fn tag_open(b: Seq<u8>, i: int) -> int
    decreases i,
{
    if i <= 0 || i > b.len() {
        0
    } else if b[i - 1] == 0x3c {
        i - 1
    } else {
        tag_open(b, i - 1)
    }
}

/// An ASCII letter in lower case, any other byte as it is.
pub open spec fn lower(x: u8) -> u8 {
    if 0x41 <= x <= 0x5a {
        (x + 0x20) as u8
    } else {
        x
    }
}

/// Whether the bytes `w` stand at position `i` of `b`, ignoring ASCII case.
pub open spec fn bytes_at_nocase(b: Seq<u8>, w: Seq<u8>, i: int) -> bool {
    &&& 0 <= i
    &&& i + w.len() <= b.len()
    &&& forall|k: int| 0 <= k < w.len() ==> lower(#[trigger] b[i + k]) == w[k]
}

/// `<?xml`
pub open spec fn word_declaration() -> Seq<u8> {
    seq![0x3cu8, 0x3fu8, 0x78u8, 0x6du8, 0x6cu8]
}

/// `utf-16`
pub open spec fn word_utf16() -> Seq<u8> {
    seq![0x75u8, 0x74u8, 0x66u8, 0x2du8, 0x31u8, 0x36u8]
}

/// `unicode`
pub open spec fn word_unicode() -> Seq<u8> {
    seq![0x75u8, 0x6eu8, 0x69u8, 0x63u8, 0x6fu8, 0x64u8, 0x65u8]
}

/// `ucs-2`
pub open spec fn word_ucs2() -> Seq<u8> {
    seq![0x75u8, 0x63u8, 0x73u8, 0x2du8, 0x32u8]
}

/// Whether a name of a sixteen-bit encoding starts at `j`: every label of
/// UTF-16 holds `utf-16`, `unicode` or `ucs-2`.
pub open spec fn wide_label_at(b: Seq<u8>, j: int) -> bool {
    ||| bytes_at_nocase(b, word_utf16(), j)
    ||| bytes_at_nocase(b, word_unicode(), j)
    ||| bytes_at_nocase(b, word_ucs2(), j)
}

/// Whether an XML declaration starts at `i` and names a sixteen-bit encoding
/// before it ends (`?>`).
pub open spec fn declares_wide(b: Seq<u8>, i: int) -> bool {
    &&& bytes_at(b, word_declaration(), i)
    &&& exists|j: int| i <= j < pair_from(b, i + 2, 0x3f, 0x3e) && #[trigger] wide_label_at(b, j)
}

/// Whether the document starts with a UTF-16 byte order mark.
pub open spec fn utf16_mark(b: Seq<u8>) -> bool {
    b.len() >= 2 && ((b[0] == 0xff && b[1] == 0xfe) || (b[0] == 0xfe && b[1] == 0xff))
}

/// `duration`
pub open spec fn word_duration() -> Seq<u8> {
    seq![0x64u8, 0x75u8, 0x72u8, 0x61u8, 0x74u8, 0x69u8, 0x6fu8, 0x6eu8]
}

/// `start`
pub open spec fn word_start() -> Seq<u8> {
    seq![0x73u8, 0x74u8, 0x61u8, 0x72u8, 0x74u8]
}

/// `end`
pub open spec fn word_end() -> Seq<u8> {
    seq![0x65u8, 0x6eu8, 0x64u8]
}

/// `time`
pub open spec fn word_time() -> Seq<u8> {
    seq![0x74u8, 0x69u8, 0x6du8, 0x65u8]
}

/// Whether a tag name `duration` (with or without a prefix) starts at `i`.
pub open spec fn element_trigger(b: Seq<u8>, i: int) -> bool {
    i >= 1 && bytes_at(b, word_duration(), i) && (b[i - 1] == 0x3c || b[i - 1] == 0x3a)
}

/// Whether the attribute name `w` starts at `i`: `w`, white space, `=`.
pub open spec fn attribute_trigger(b: Seq<u8>, i: int, w: Seq<u8>) -> bool {
    bytes_at(b, w, i) && skip_space(b, i + w.len()) < b.len() && b[skip_space(b, i + w.len())] == 0x3d
}

/// Whether the bytes at `i`, read up to `hi`, could make the parser fail: a
/// byte of a non-ASCII character, a character reference (`&#`), a comment,
/// CDATA section or declaration (`<!`), a processing instruction (`<?`), or
/// sixteen ASCII digits in a row.
pub open spec fn unsafe_at(b: Seq<u8>, i: int, hi: int) -> bool {
    ||| b[i] >= 0x80
    ||| (i + 1 < hi && b[i] == 0x26 && b[i + 1] == 0x23)
    ||| (i + 1 < hi && b[i] == 0x3c && (b[i + 1] == 0x21 || b[i + 1] == 0x3f))
    ||| (i + 16 <= hi && forall|k: int| 0 <= k < 16 ==> is_ascii_digit(#[trigger] b[i + k]))
}

/// Whether some position in `lo..hi` is unsafe.
pub open spec fn unsafe_region(b: Seq<u8>, lo: int, hi: int) -> bool {
    exists|i: int| lo <= i < hi && #[trigger] unsafe_at(b, i, hi)
}

/// Whether the element whose local name `duration` starts at `i` could hand
/// the parser an unsafe text: from the `<` that opens its tag to the next end tag, the bytes hold
/// an unsafe position or a quote, or no `>` closes the tag before the end tag.
pub open spec fn element_unsafe(b: Seq<u8>, i: int) -> bool {
    let p = tag_open(b, i);
    let e = end_tag_from(b, i);
    ||| unsafe_region(b, p, e)
    ||| find_byte(b, p, 0x22) < e
    ||| find_byte(b, p, 0x27) < e
    ||| find_byte(b, i, 0x3e) >= e
}

/// Whether the value of the attribute named `w` at `i` is unsafe, or is not
/// quoted.
pub open spec fn attribute_value_unsafe(b: Seq<u8>, i: int, w: Seq<u8>) -> bool {
    let k = skip_space(b, skip_space(b, i + w.len()) + 1);
    if k >= b.len() || !(b[k] == 0x22 || b[k] == 0x27) {
        true
    } else {
        unsafe_region(b, k + 1, find_byte(b, k + 1, b[k]))
    }
}

/// Whether position `i` makes the document unsafe to parse: a NUL or ESC
/// byte, a `duration` element or a `start`, `end` or `time` attribute whose
/// text is unsafe, or a declaration of a sixteen-bit encoding.
pub open spec fn risky_at(b: Seq<u8>, i: int) -> bool {
    ||| b[i] == 0x00 || b[i] == 0x1b
    ||| element_trigger(b, i) && element_unsafe(b, i)
    ||| declares_wide(b, i)
    ||| attribute_trigger(b, i, word_start()) && attribute_value_unsafe(b, i, word_start())
    ||| attribute_trigger(b, i, word_end()) && attribute_value_unsafe(b, i, word_end())
    ||| attribute_trigger(b, i, word_time()) && attribute_value_unsafe(b, i, word_time())
}

/// Whether the document may hold a duration that the parser cannot read
/// safely.
pub open spec fn duration_risk(b: Seq<u8>) -> bool {
    ||| utf16_mark(b)
    ||| exists|i: int| 0 <= i < b.len() && #[trigger] risky_at(b, i)
}

fn bytes_at_exec(b: &[u8], w: &Vec<u8>, i: usize) -> (r: bool)
    ensures
        r == bytes_at(b@, w@, i as int),
{
    if i > b.len() || w.len() > b.len() - i {
        return false;
    }
    let mut k: usize = 0;
    while k < w.len()
        invariant
            k <= w.len(),
            i + w.len() <= b.len(),
            forall|j: int| 0 <= j < k ==> b@[i + j] == w@[j],
        decreases w.len() - k,
    {
        if b[i + k] != w[k] {
            assert(b@.subrange(i as int, i + w.len())[k as int] != w@[k as int]);
            return false;
        }
        k = k + 1;
    }
    assert(b@.subrange(i as int, i + w.len()) =~= w@);
    true
}

fn lower_exec(x: u8) -> (r: u8)
    ensures
        r == lower(x),
{
    if 0x41 <= x && x <= 0x5a {
        x + 0x20
    } else {
        x
    }
}

fn bytes_at_nocase_exec(b: &[u8], w: &Vec<u8>, i: usize) -> (r: bool)
    ensures
        r == bytes_at_nocase(b@, w@, i as int),
{
    if i > b.len() || w.len() > b.len() - i {
        return false;
    }
    let mut k: usize = 0;
    while k < w.len()
        invariant
            k <= w.len(),
            i + w.len() <= b.len(),
            forall|j: int| 0 <= j < k ==> lower(#[trigger] b@[i + j]) == w@[j],
        decreases w.len() - k,
    {
        if lower_exec(b[i + k]) != w[k] {
            return false;
        }
        k = k + 1;
    }
    true
}

fn skip_space_exec(b: &[u8], i: usize) -> (r: usize)
    requires
        i <= b.len(),
    ensures
        r as int == skip_space(b@, i as int),
        i <= r <= b.len(),
{
    let mut j = i;
    while j < b.len() && (b[j] == 0x20 || b[j] == 0x09 || b[j] == 0x0a || b[j] == 0x0d)
        invariant
            i <= j <= b.len(),
            skip_space(b@, i as int) == skip_space(b@, j as int),
        decreases b.len() - j,
    {
        j = j + 1;
    }
    j
}

fn find_byte_exec(b: &[u8], i: usize, x: u8) -> (r: usize)
    requires
        i <= b.len(),
    ensures
        r as int == find_byte(b@, i as int, x),
        i <= r <= b.len(),
{
    let mut j = i;
    while j < b.len() && b[j] != x
        invariant
            i <= j <= b.len(),
            find_byte(b@, i as int, x) == find_byte(b@, j as int, x),
        decreases b.len() - j,
    {
        j = j + 1;
    }
    j
}

fn pair_from_exec(b: &[u8], i: usize, x: u8, y: u8) -> (r: usize)
    requires
        i <= b.len(),
    ensures
        r as int == pair_from(b@, i as int, x, y),
        i <= r <= b.len(),
{
    let mut j = i;
    while j < b.len() && b.len() - j >= 2 && !(b[j] == x && b[j + 1] == y)
        invariant
            i <= j <= b.len(),
            pair_from(b@, i as int, x, y) == pair_from(b@, j as int, x, y),
        decreases b.len() - j,
    {
        j = j + 1;
    }
    if j < b.len() && b.len() - j >= 2 {
        j
    } else {
        b.len()
    }
}

fn tag_open_exec(b: &[u8], i: usize) -> (r: usize)
    requires
        i <= b.len(),
    ensures
        r as int == tag_open(b@, i as int),
        r <= i,
{
    let mut j = i;
    while j > 0 && b[j - 1] != 0x3c
        invariant
            j <= i <= b.len(),
            tag_open(b@, i as int) == tag_open(b@, j as int),
        decreases j,
    {
        j = j - 1;
    }
    if j > 0 {
        j - 1
    } else {
        0
    }
}

#[verifier::loop_isolation(false)]
fn unsafe_at_exec(b: &[u8], i: usize, hi: usize) -> (r: bool)
    requires
        i < hi <= b.len(),
    ensures
        r == unsafe_at(b@, i as int, hi as int),
{
    if b[i] >= 0x80 {
        return true;
    }
    if hi - i >= 2 && b[i] == 0x26 && b[i + 1] == 0x23 {
        return true;
    }
    if hi - i >= 2 && b[i] == 0x3c && (b[i + 1] == 0x21 || b[i + 1] == 0x3f) {
        return true;
    }
    if hi - i < 16 {
        assert(!(i + 16 <= hi));
        return false;
    }
    let mut k: usize = 0;
    while k < 16
        invariant
            k <= 16,
            i + 16 <= hi <= b.len(),
            forall|j: int| 0 <= j < k ==> is_ascii_digit(#[trigger] b@[i + j]),
        decreases 16 - k,
    {
        if !(0x30 <= b[i + k] && b[i + k] <= 0x39) {
            assert(!is_ascii_digit(b@[i + k as int]));
            return false;
        }
        k = k + 1;
    }
    true
}

fn unsafe_region_exec(b: &[u8], lo: usize, hi: usize) -> (r: bool)
    requires
        hi <= b.len(),
    ensures
        r == unsafe_region(b@, lo as int, hi as int),
{
    let mut i = lo;
    while i < hi
        invariant
            lo <= i,
            hi <= b.len(),
            forall|j: int| lo <= j < i ==> !#[trigger] unsafe_at(b@, j, hi as int),
        decreases hi - i,
    {
        if unsafe_at_exec(b, i, hi) {
            return true;
        }
        i = i + 1;
    }
    false
}

fn element_unsafe_exec(b: &[u8], i: usize) -> (r: bool)
    requires
        i <= b.len(),
    ensures
        r == element_unsafe(b@, i as int),
{
    let p = tag_open_exec(b, i);
    let e = pair_from_exec(b, i, 0x3c, 0x2f);
    unsafe_region_exec(b, p, e) || find_byte_exec(b, p, 0x22) < e || find_byte_exec(b, p, 0x27) < e
        || find_byte_exec(b, i, 0x3e) >= e
}

#[verifier::loop_isolation(false)]
fn declares_wide_exec(b: &[u8], i: usize) -> (r: bool)
    requires
        i < b.len(),
    ensures
        r == declares_wide(b@, i as int),
{
    let declaration: Vec<u8> = vec![0x3cu8, 0x3fu8, 0x78u8, 0x6du8, 0x6cu8];
    assert(declaration@ =~= word_declaration());
    if !bytes_at_exec(b, &declaration, i) {
        return false;
    }
    let utf16: Vec<u8> = vec![0x75u8, 0x74u8, 0x66u8, 0x2du8, 0x31u8, 0x36u8];
    let unicode: Vec<u8> = vec![0x75u8, 0x6eu8, 0x69u8, 0x63u8, 0x6fu8, 0x64u8, 0x65u8];
    let ucs2: Vec<u8> = vec![0x75u8, 0x63u8, 0x73u8, 0x2du8, 0x32u8];
    assert(utf16@ =~= word_utf16());
    assert(unicode@ =~= word_unicode());
    assert(ucs2@ =~= word_ucs2());
    let close = pair_from_exec(b, i + 2, 0x3f, 0x3e);
    let mut j = i;
    while j < close
        invariant
            i <= j,
            close <= b.len(),
            close as int == pair_from(b@, i + 2, 0x3f, 0x3e),
            utf16@ == word_utf16(),
            unicode@ == word_unicode(),
            ucs2@ == word_ucs2(),
            forall|k: int| i <= k < j ==> !#[trigger] wide_label_at(b@, k),
        decreases close - j,
    {
        if bytes_at_nocase_exec(b, &utf16, j) || bytes_at_nocase_exec(b, &unicode, j)
            || bytes_at_nocase_exec(b, &ucs2, j) {
            assert(wide_label_at(b@, j as int));
            return true;
        }
        j = j + 1;
    }
    false
}

fn attribute_trigger_exec(b: &[u8], i: usize, w: &Vec<u8>) -> (r: bool)
    ensures
        r == attribute_trigger(b@, i as int, w@),
{
    if !bytes_at_exec(b, w, i) {
        return false;
    }
    let n: usize = b.len();
    assert(i + w@.len() <= n);
    let after: usize = i + w.len();
    let j = skip_space_exec(b, after);
    j < b.len() && b[j] == 0x3d
}

fn attribute_value_unsafe_exec(b: &[u8], i: usize, w: &Vec<u8>) -> (r: bool)
    requires
        attribute_trigger(b@, i as int, w@),
    ensures
        r == attribute_value_unsafe(b@, i as int, w@),
{
    let n: usize = b.len();
    assert(i + w@.len() <= n);
    let j = skip_space_exec(b, i + w.len());
    let k = skip_space_exec(b, j + 1);
    if k >= b.len() || !(b[k] == 0x22 || b[k] == 0x27) {
        return true;
    }
    let close = find_byte_exec(b, k + 1, b[k]);
    unsafe_region_exec(b, k + 1, close)
}

fn risky_at_exec(b: &[u8], i: usize) -> (r: bool)
    requires
        i < b.len(),
    ensures
        r == risky_at(b@, i as int),
{
    if b[i] == 0x00 || b[i] == 0x1b {
        return true;
    }
    let duration: Vec<u8> = vec![0x64u8, 0x75u8, 0x72u8, 0x61u8, 0x74u8, 0x69u8, 0x6fu8, 0x6eu8];
    let start: Vec<u8> = vec![0x73u8, 0x74u8, 0x61u8, 0x72u8, 0x74u8];
    let end: Vec<u8> = vec![0x65u8, 0x6eu8, 0x64u8];
    let time: Vec<u8> = vec![0x74u8, 0x69u8, 0x6du8, 0x65u8];
    assert(duration@ =~= word_duration());
    assert(start@ =~= word_start());
    assert(end@ =~= word_end());
    assert(time@ =~= word_time());
    if i >= 1 && bytes_at_exec(b, &duration, i) && (b[i - 1] == 0x3c || b[i - 1] == 0x3a)
        && element_unsafe_exec(b, i) {
        return true;
    }
    if declares_wide_exec(b, i) {
        return true;
    }
    if attribute_trigger_exec(b, i, &start) && attribute_value_unsafe_exec(b, i, &start) {
        return true;
    }
    if attribute_trigger_exec(b, i, &end) && attribute_value_unsafe_exec(b, i, &end) {
        return true;
    }
    if attribute_trigger_exec(b, i, &time) && attribute_value_unsafe_exec(b, i, &time) {
        return true;
    }
    false
}

/// Whether the feed document `b` may hold a duration that the parser cannot
/// read safely (see the module documentation).
pub fn check_duration_risk(b: &[u8]) -> (r: bool)
    ensures
        r == duration_risk(b@),
{
    if b.len() >= 2 && ((b[0] == 0xff && b[1] == 0xfe) || (b[0] == 0xfe && b[1] == 0xff)) {
        return true;
    }
    let mut i: usize = 0;
    while i < b.len()
        invariant
            i <= b.len(),
            !utf16_mark(b@),
            forall|j: int| 0 <= j < i ==> !#[trigger] risky_at(b@, j),
        decreases b.len() - i,
    {
        if risky_at_exec(b, i) {
            return true;
        }
        i = i + 1;
    }
    false
}

/// Where `skip_space` stops: every byte before it is white space, and the
/// byte it stops at (if any) is not.
proof fn lemma_skip_space(b: Seq<u8>, p: int)
    requires
        0 <= p <= b.len(),
    ensures
        p <= skip_space(b, p) <= b.len(),
        forall|k: int| p <= k < skip_space(b, p) ==> is_xml_space(#[trigger] b[k]),
        skip_space(b, p) < b.len() ==> !is_xml_space(b[skip_space(b, p)]),
    decreases b.len() - p,
{
    if p < b.len() && is_xml_space(b[p]) {
        lemma_skip_space(b, p + 1);
    }
}

/// A document is refused only for what may hold a duration: one that starts
/// with no UTF-16 byte order mark, holds no NUL or ESC byte, names no
/// sixteen-bit encoding (`utf-16`, `unicode`, `ucs-2`, in any case), holds
/// no `duration` name and no `start`, `end` or `time` name followed by white
/// space and `=` is never refused, whatever else it holds: tabs, carriage
/// returns, non-ASCII text, long numbers or character references.
pub proof fn lemma_refused_only_for_durations(b: Seq<u8>)
    requires
        !(b.len() >= 2 && ((b[0] == 0xff && b[1] == 0xfe) || (b[0] == 0xfe && b[1] == 0xff))),
        forall|i: int| 0 <= i < b.len() ==> #[trigger] b[i] != 0x00 && b[i] != 0x1b,
        forall|i: int| 0 <= i && i + 8 <= b.len() ==> #[trigger] b.subrange(i, i + 8) != seq![0x64u8, 0x75u8, 0x72u8, 0x61u8, 0x74u8, 0x69u8, 0x6fu8, 0x6eu8],
        forall|i: int, j: int|
            #![trigger b.subrange(i, i + 5), b[j]]
            0 <= i && i + 5 <= j < b.len() && b.subrange(i, i + 5) == seq![0x73u8, 0x74u8, 0x61u8, 0x72u8, 0x74u8]
                && (forall|k: int| i + 5 <= k < j ==> (b[k] == 0x20 || b[k] == 0x09 || b[k] == 0x0a || b[k] == 0x0d))
                ==> b[j] != 0x3d,
        forall|i: int, j: int|
            #![trigger b.subrange(i, i + 3), b[j]]
            0 <= i && i + 3 <= j < b.len() && b.subrange(i, i + 3) == seq![0x65u8, 0x6eu8, 0x64u8]
                && (forall|k: int| i + 3 <= k < j ==> (b[k] == 0x20 || b[k] == 0x09 || b[k] == 0x0a || b[k] == 0x0d))
                ==> b[j] != 0x3d,
        forall|i: int, j: int|
            #![trigger b.subrange(i, i + 4), b[j]]
            0 <= i && i + 4 <= j < b.len() && b.subrange(i, i + 4) == seq![0x74u8, 0x69u8, 0x6du8, 0x65u8]
                && (forall|k: int| i + 4 <= k < j ==> (b[k] == 0x20 || b[k] == 0x09 || b[k] == 0x0a || b[k] == 0x0d))
                ==> b[j] != 0x3d,
        forall|j: int| !#[trigger] bytes_at_nocase(b, word_utf16(), j),
        forall|j: int| !#[trigger] bytes_at_nocase(b, word_unicode(), j),
        forall|j: int| !#[trigger] bytes_at_nocase(b, word_ucs2(), j),
    ensures
        !duration_risk(b),
{
    assert(word_duration() =~= seq![0x64u8, 0x75u8, 0x72u8, 0x61u8, 0x74u8, 0x69u8, 0x6fu8, 0x6eu8]);
    assert(word_start() =~= seq![0x73u8, 0x74u8, 0x61u8, 0x72u8, 0x74u8]);
    assert(word_end() =~= seq![0x65u8, 0x6eu8, 0x64u8]);
    assert(word_time() =~= seq![0x74u8, 0x69u8, 0x6du8, 0x65u8]);
    assert(word_utf16() =~= seq![0x75u8, 0x74u8, 0x66u8, 0x2du8, 0x31u8, 0x36u8]);
    assert(word_unicode() =~= seq![0x75u8, 0x6eu8, 0x69u8, 0x63u8, 0x6fu8, 0x64u8, 0x65u8]);
    assert(word_ucs2() =~= seq![0x75u8, 0x63u8, 0x73u8, 0x2du8, 0x32u8]);
    assert forall|i: int| 0 <= i < b.len() implies !#[trigger] risky_at(b, i) by {
        assert(b[i] != 0x00 && b[i] != 0x1b);
        if bytes_at(b, word_duration(), i) {
            assert(b.subrange(i, i + 8) != word_duration());
        }
        if bytes_at(b, word_start(), i) {
            lemma_skip_space(b, i + 5);
            let j = skip_space(b, i + 5);
            if j < b.len() {
                assert(b.subrange(i, i + 5) == word_start());
                assert(b[j] != 0x3d);
            }
        }
        if bytes_at(b, word_end(), i) {
            lemma_skip_space(b, i + 3);
            let j = skip_space(b, i + 3);
            if j < b.len() {
                assert(b.subrange(i, i + 3) == word_end());
                assert(b[j] != 0x3d);
            }
        }
        if bytes_at(b, word_time(), i) {
            lemma_skip_space(b, i + 4);
            let j = skip_space(b, i + 4);
            if j < b.len() {
                assert(b.subrange(i, i + 4) == word_time());
                assert(b[j] != 0x3d);
            }
        }
        assert(!declares_wide(b, i));
    }
}

/// `pair_from` finds no pair before the first `x` from `p` on.
proof fn lemma_pair_not_before(b: Seq<u8>, p: int, q: int, x: u8, y: u8)
    requires
        0 <= p <= q,
        forall|k: int| p <= k < q && k < b.len() ==> b[k] != x,
    ensures
        pair_from(b, p, x, y) >= q || pair_from(b, p, x, y) == b.len(),
    decreases b.len() - p,
{
    if p + 1 < b.len() && !(b[p] == x && b[p + 1] == y) {
        lemma_pair_not_before(b, p + 1, if q > p + 1 { q } else { p + 1 }, x, y);
    }
}

/// A document with a `<duration>` element whose text starts with sixteen
/// ASCII digits, or with a byte of a non-ASCII character, is refused.
pub proof fn lemma_refuses_unsafe_duration(b: Seq<u8>, i: int)
    requires
        0 <= i,
        i + 11 <= b.len(),
        b.subrange(i, i + 10) == seq![0x3cu8, 0x64u8, 0x75u8, 0x72u8, 0x61u8, 0x74u8, 0x69u8, 0x6fu8, 0x6eu8, 0x3eu8],
        b[i + 10] >= 0x80 || (i + 26 <= b.len() && forall|k: int| i + 10 <= k < i + 26 ==> 0x30 <= #[trigger] b[k] <= 0x39),
    ensures
        duration_risk(b),
{
    let w = seq![0x3cu8, 0x64u8, 0x75u8, 0x72u8, 0x61u8, 0x74u8, 0x69u8, 0x6fu8, 0x6eu8, 0x3eu8];
    assert(b[i] == w[0]);
    assert(b.subrange(i + 1, i + 9) =~= word_duration()) by {
        assert forall|k: int| 0 <= k < 8 implies b.subrange(i + 1, i + 9)[k] == word_duration()[k] by {
            assert(b[i + 1 + k] == b.subrange(i, i + 10)[k + 1]);
        }
    }
    assert(tag_open(b, i + 1) == i);
    let hi: int = if b[i + 10] >= 0x80 { i + 11 } else { i + 26 };
    assert forall|k: int| i + 1 <= k < hi && k < b.len() implies b[k] != 0x3c by {
        if k < i + 10 {
            assert(b[k] == b.subrange(i, i + 10)[k - i]);
        }
    }
    lemma_pair_not_before(b, i + 1, hi, 0x3c, 0x2f);
    let e = end_tag_from(b, i + 1);
    assert(e >= hi);
    assert(unsafe_at(b, i + 10, e));
    assert(unsafe_region(b, i, e));
    assert(element_unsafe(b, i + 1));
    assert(risky_at(b, i + 1));
}

/// `find_byte` finds no `x` before the first one from `p` on.
proof fn lemma_find_not_before(b: Seq<u8>, p: int, q: int, x: u8)
    requires
        0 <= p <= b.len(),
        forall|k: int| p <= k < q && k < b.len() ==> b[k] != x,
    ensures
        find_byte(b, p, x) >= q || find_byte(b, p, x) == b.len(),
        find_byte(b, p, x) >= p,
    decreases b.len() - p,
{
    if p < b.len() && b[p] != x {
        lemma_find_not_before(b, p + 1, q, x);
    }
}

/// A document with a Media RSS `start="` attribute whose value starts with
/// sixteen ASCII digits, or with a byte of a non-ASCII character, is refused.
pub proof fn lemma_refuses_unsafe_start(b: Seq<u8>, i: int)
    requires
        0 <= i,
        i + 8 <= b.len(),
        b.subrange(i, i + 7) == seq![0x73u8, 0x74u8, 0x61u8, 0x72u8, 0x74u8, 0x3du8, 0x22u8],
        b[i + 7] >= 0x80 || (i + 23 <= b.len() && forall|k: int| i + 7 <= k < i + 23 ==> 0x30 <= #[trigger] b[k] <= 0x39),
    ensures
        duration_risk(b),
{
    assert(b.subrange(i, i + 5) =~= word_start()) by {
        assert forall|k: int| 0 <= k < 5 implies b.subrange(i, i + 5)[k] == word_start()[k] by {
            assert(b[i + k] == b.subrange(i, i + 7)[k]);
        }
    }
    assert(b[i + 5] == b.subrange(i, i + 7)[5]);
    assert(b[i + 6] == b.subrange(i, i + 7)[6]);
    assert(skip_space(b, i + 5) == i + 5);
    assert(skip_space(b, i + 6) == i + 6);
    assert(attribute_trigger(b, i, word_start()));
    let hi: int = if b[i + 7] >= 0x80 { i + 8 } else { i + 23 };
    lemma_find_not_before(b, i + 7, hi, 0x22);
    let close = find_byte(b, i + 7, 0x22);
    assert(close >= hi);
    assert(unsafe_at(b, i + 7, close));
    assert(unsafe_region(b, i + 7, close));
    assert(attribute_value_unsafe(b, i, word_start()));
    assert(risky_at(b, i));
}

} // verus!
