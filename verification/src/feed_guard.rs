//! Which fetched feed documents may be handed to the feed parser: those on which
//! it cannot panic, as far as its encoding switches and its time values go.

use vstd::prelude::*;

verus! {

/// The longest run of ASCII digits the guard lets through to a duration or a
/// media time; fifteen digits of hours still fit in a `u64` count of seconds.
pub const MAX_DIGIT_RUN: usize = 15;

/// A byte that may stand in guarded text as itself: printable ASCII, tab, line
/// feed or carriage return, but no `&`, which starts a reference.
pub open spec fn plain_byte(x: u8) -> bool {
    (x == 9 || x == 10 || x == 13 || (0x20 <= x && x <= 0x7e)) && x != 0x26
}

/// An ASCII decimal digit.
pub open spec fn digit_byte(x: u8) -> bool {
    0x30 <= x && x <= 0x39
}

/// A byte that may continue an XML name (for the ASCII range).
pub open spec fn name_byte(x: u8) -> bool {
    (0x30 <= x && x <= 0x39) || (0x41 <= x && x <= 0x5a) || (0x61 <= x && x <= 0x7a) || x == 0x2d
        || x == 0x5f || x == 0x2e || x == 0x3a || x >= 0x80
}

/// A space, tab, line feed or carriage return.
pub open spec fn space_byte(x: u8) -> bool {
    x == 0x20 || x == 9 || x == 10 || x == 13
}

/// The length of the predefined entity reference (`&amp;`, `&lt;`, `&gt;`,
/// `&quot;`, `&apos;`) at `j`, or 0 when none stands there. (A character
/// reference could spell any digit, so it is not let through.)
pub open spec fn entity_len(b: Seq<u8>, j: int) -> int {
    if occurs_at(b, j, seq![0x26u8, 0x61, 0x6d, 0x70, 0x3b]) {
        5
    } else if occurs_at(b, j, seq![0x26u8, 0x6c, 0x74, 0x3b]) {
        4
    } else if occurs_at(b, j, seq![0x26u8, 0x67, 0x74, 0x3b]) {
        4
    } else if occurs_at(b, j, seq![0x26u8, 0x71, 0x75, 0x6f, 0x74, 0x3b]) {
        6
    } else if occurs_at(b, j, seq![0x26u8, 0x61, 0x70, 0x6f, 0x73, 0x3b]) {
        6
    } else {
        0
    }
}

/// From `j` on, up to the next tag, every byte is plain or part of a predefined
/// entity reference, and no digit run (counting
/// `run` digits just before `j`) is longer than `MAX_DIGIT_RUN`; the text must end
/// at the end of the document or at a start or end tag (not at a comment, a CDATA
/// section or a processing instruction, whose text the parser would join in).
pub open spec fn plain_text_from(b: Seq<u8>, j: int, run: nat) -> bool
    decreases b.len() - j,
{
    if j < 0 || j >= b.len() {
        true
    } else if b[j] == 0x3c {
        j + 1 < b.len() && b[j + 1] != 0x21 && b[j + 1] != 0x3f
    } else if b[j] == 0x26 {
        entity_len(b, j) > 0 && plain_text_from(b, j + entity_len(b, j), 0)
    } else if !plain_byte(b[j]) {
        false
    } else if digit_byte(b[j]) {
        run < MAX_DIGIT_RUN && plain_text_from(b, j + 1, run + 1)
    } else {
        plain_text_from(b, j + 1, 0)
    }
}

/// From `j` on, up to the closing quote `q`, every byte is plain or part of a
/// predefined entity reference, and no digit run
/// is longer than `MAX_DIGIT_RUN`; an unterminated value does not count as plain.
pub open spec fn plain_quoted_from(b: Seq<u8>, j: int, q: u8, run: nat) -> bool
    decreases b.len() - j,
{
    if j < 0 || j >= b.len() {
        false
    } else if b[j] == q {
        true
    } else if b[j] == 0x26 {
        entity_len(b, j) > 0 && plain_quoted_from(b, j + entity_len(b, j), q, 0)
    } else if !plain_byte(b[j]) {
        false
    } else if digit_byte(b[j]) {
        run < MAX_DIGIT_RUN && plain_quoted_from(b, j + 1, q, run + 1)
    } else {
        plain_quoted_from(b, j + 1, q, 0)
    }
}

/// The first position at or after `j` that is not a space byte.
pub open spec fn skip_spaces(b: Seq<u8>, j: int) -> int
    decreases b.len() - j,
{
    if 0 <= j < b.len() && space_byte(b[j]) {
        skip_spaces(b, j + 1)
    } else {
        j
    }
}

/// After an attribute name ending at `j`: when an `=` and a quoted value follow,
/// the value is plain. (Anything else is no attribute value the parser keeps.)
pub open spec fn attr_value_plain(b: Seq<u8>, j: int) -> bool {
    let k = skip_spaces(b, j);
    if 0 <= k < b.len() && b[k] == 0x3d {
        let v = skip_spaces(b, k + 1);
        if 0 <= v < b.len() && (b[v] == 0x22 || b[v] == 0x27) {
            plain_quoted_from(b, v + 1, b[v], 0)
        } else {
            true
        }
    } else {
        true
    }
}

/// `word` occurs in `b` at position `i`.
pub open spec fn occurs_at(b: Seq<u8>, i: int, word: Seq<u8>) -> bool {
    0 <= i && i + word.len() <= b.len() && b.subrange(i, i + word.len()) == word
}

/// The element name whose text the parser reads as an iTunes duration.
pub open spec fn duration_word() -> Seq<u8> {
    seq![0x64u8, 0x75, 0x72, 0x61, 0x74, 0x69, 0x6f, 0x6e]
}

/// The attribute names whose values the parser reads as MediaRSS times.
pub open spec fn start_word() -> Seq<u8> {
    seq![0x73u8, 0x74, 0x61, 0x72, 0x74]
}

pub open spec fn end_word() -> Seq<u8> {
    seq![0x65u8, 0x6e, 0x64]
}

pub open spec fn time_word() -> Seq<u8> {
    seq![0x74u8, 0x69, 0x6d, 0x65]
}

/// `word` stands at `i` as a whole attribute name: no name byte just before it.
pub open spec fn attr_name_at(b: Seq<u8>, i: int, word: Seq<u8>) -> bool {
    occurs_at(b, i, word) && (i == 0 || !name_byte(b[i - 1]))
}

/// The time values of a document (given by the ASCII form of its characters)
/// are safe for feed_rs: the text after every element name `duration` and the
/// value of every unprefixed attribute `start`, `end` or `time` hold only plain
/// characters and predefined entities, with digit runs of at most
/// `MAX_DIGIT_RUN` digits.
pub open spec fn times_safe(b: Seq<u8>) -> bool {
    &&& forall|i: int|
        occurs_at(b, i, duration_word()) && i > 0 && (b[i - 1] == 0x3c || b[i - 1] == 0x3a)
            ==> plain_text_from(b, i + 8, 0)
    &&& forall|i: int| attr_name_at(b, i, start_word()) ==> attr_value_plain(b, i + 5)
    &&& forall|i: int| attr_name_at(b, i, end_word()) ==> attr_value_plain(b, i + 3)
    &&& forall|i: int| attr_name_at(b, i, time_word()) ==> attr_value_plain(b, i + 4)
}

/// Whitespace is plain text: a space, tab, line feed or carriage return neither
/// makes text or a quoted value unsafe nor belongs to a digit run, so how a
/// document's tags are indented never decides whether it is safe.
pub proof fn law_whitespace_is_plain_text(b: Seq<u8>, j: int, run: nat, q: u8)
    requires
        0 <= j < b.len(),
        b[j] == 0x20 || b[j] == 9 || b[j] == 10 || b[j] == 13,
        b[j] != q,
    ensures
        plain_text_from(b, j, run) == plain_text_from(b, j + 1, 0),
        plain_quoted_from(b, j, q, run) == plain_quoted_from(b, j + 1, q, 0),
{
}

/// The bytes from `u` to `w` (both included) are all ASCII digits.
pub open spec fn digit_run(b: Seq<u8>, u: int, w: int) -> bool {
    forall|v: int| u <= v <= w ==> digit_byte(#[trigger] b[v])
}

proof fn lemma_clock_text_from(b: Seq<u8>, j: int, k: int, t: int, run: nat)
    requires
        0 <= j <= t <= k,
        k + 1 < b.len(),
        b[k] == 0x3c,
        b[k + 1] == 0x2f,
        forall|v: int|
            j <= v < k ==> {
                let x = #[trigger] b[v];
                0x30 <= x <= 0x39 || x == 0x3a || x == 0x2e || x == 0x20 || x == 9 || x == 10
                    || x == 13
            },
        forall|u: int, w: int| j <= u <= w < k && #[trigger] digit_run(b, u, w) ==> w - u < MAX_DIGIT_RUN,
        run <= t - j,
        forall|v: int| t - run <= v < t ==> digit_byte(#[trigger] b[v]),
    ensures
        plain_text_from(b, t, run),
    decreases k - t,
{
    if t < k {
        let x = b[t];
        if digit_byte(x) {
            assert(digit_run(b, t - run, t));
            lemma_clock_text_from(b, j, k, t + 1, run + 1);
        } else {
            lemma_clock_text_from(b, j, k, t + 1, 0);
        }
    }
}

/// Clock text is plain: text of ASCII digits, `:`, `.` and whitespace, with no
/// run of more than `MAX_DIGIT_RUN` digits, closed by an end tag, is safe
/// wherever it stands (so a duration such as `01:02:03` is read, however the
/// element is indented).
pub proof fn law_clock_text_is_plain(b: Seq<u8>, j: int, k: int)
    requires
        0 <= j <= k,
        k + 1 < b.len(),
        b[k] == 0x3c,
        b[k + 1] == 0x2f,
        forall|v: int|
            j <= v < k ==> {
                let x = #[trigger] b[v];
                0x30 <= x <= 0x39 || x == 0x3a || x == 0x2e || x == 0x20 || x == 9 || x == 10
                    || x == 13
            },
        forall|u: int, w: int| j <= u <= w < k && #[trigger] digit_run(b, u, w) ==> w - u < MAX_DIGIT_RUN,
    ensures
        plain_text_from(b, j, 0),
{
    lemma_clock_text_from(b, j, k, j, 0);
}

/// Only time values are held to the restriction: the word `duration` counts
/// only as an element name (right after `<` or a namespace prefix's `:`), and
/// `start`, `end` and `time` only as attribute names. A document with none of
/// these has safe time values whatever text it holds, so one with safe
/// declarations may be handed to feed_rs.
pub proof fn law_only_time_values_are_restricted(b: Seq<u8>)
    requires
        decls_safe(b),
        forall|i: int|
            #[trigger] occurs_at(ascii_view(b), i, duration_word()) ==> i == 0 || (ascii_view(b)[i
                - 1] != 0x3c && ascii_view(b)[i - 1] != 0x3a),
        forall|i: int| !#[trigger] attr_name_at(ascii_view(b), i, start_word()),
        forall|i: int| !#[trigger] attr_name_at(ascii_view(b), i, end_word()),
        forall|i: int| !#[trigger] attr_name_at(ascii_view(b), i, time_word()),
    ensures
        times_safe(ascii_view(b)),
        feed_parse_safe(b),
{
}

fn is_plain_byte(x: u8) -> (r: bool)
    ensures
        r == plain_byte(x),
{
    (x == 9 || x == 10 || x == 13 || (0x20 <= x && x <= 0x7e)) && x != 0x26
}

fn is_name_byte(x: u8) -> (r: bool)
    ensures
        r == name_byte(x),
{
    (0x30 <= x && x <= 0x39) || (0x41 <= x && x <= 0x5a) || (0x61 <= x && x <= 0x7a) || x == 0x2d
        || x == 0x5f || x == 0x2e || x == 0x3a || x >= 0x80
}

fn is_space_byte(x: u8) -> (r: bool)
    ensures
        r == space_byte(x),
{
    x == 0x20 || x == 9 || x == 10 || x == 13
}

fn entity_length(b: &[u8], j: usize) -> (n: usize)
    ensures
        n as int == entity_len(b@, j as int),
        n <= 6,
{
    let amp: [u8; 5] = [0x26u8, 0x61, 0x6d, 0x70, 0x3b];
    let lt: [u8; 4] = [0x26u8, 0x6c, 0x74, 0x3b];
    let gt: [u8; 4] = [0x26u8, 0x67, 0x74, 0x3b];
    let quot: [u8; 6] = [0x26u8, 0x71, 0x75, 0x6f, 0x74, 0x3b];
    let apos: [u8; 6] = [0x26u8, 0x61, 0x70, 0x6f, 0x73, 0x3b];
    assert(amp@ =~= seq![0x26u8, 0x61, 0x6d, 0x70, 0x3b]);
    assert(lt@ =~= seq![0x26u8, 0x6c, 0x74, 0x3b]);
    assert(gt@ =~= seq![0x26u8, 0x67, 0x74, 0x3b]);
    assert(quot@ =~= seq![0x26u8, 0x71, 0x75, 0x6f, 0x74, 0x3b]);
    assert(apos@ =~= seq![0x26u8, 0x61, 0x70, 0x6f, 0x73, 0x3b]);
    if occurs(b, j, &amp) {
        5
    } else if occurs(b, j, &lt) {
        4
    } else if occurs(b, j, &gt) {
        4
    } else if occurs(b, j, &quot) {
        6
    } else if occurs(b, j, &apos) {
        6
    } else {
        0
    }
}

fn check_plain_text(b: &[u8], j: usize) -> (r: bool)
    ensures
        r == plain_text_from(b@, j as int, 0),
{
    let mut k = j;
    let mut run: usize = 0;
    while k < b.len()
        invariant
            j <= k,
            run <= MAX_DIGIT_RUN,
            plain_text_from(b@, j as int, 0) == plain_text_from(b@, k as int, run as nat),
        decreases b@.len() - k,
    {
        let x = b[k];
        if x == 0x3c {
            return k + 1 < b.len() && b[k + 1] != 0x21 && b[k + 1] != 0x3f;
        } else if x == 0x26 {
            let n = entity_length(b, k);
            if n == 0 {
                return false;
            }
            run = 0;
            k = k + n;
        } else if !is_plain_byte(x) {
            return false;
        } else if 0x30 <= x && x <= 0x39 {
            if run >= MAX_DIGIT_RUN {
                return false;
            }
            run = run + 1;
            k = k + 1;
        } else {
            run = 0;
            k = k + 1;
        }
    }
    true
}

fn check_plain_quoted(b: &[u8], j: usize, q: u8) -> (r: bool)
    ensures
        r == plain_quoted_from(b@, j as int, q, 0),
{
    let mut k = j;
    let mut run: usize = 0;
    while k < b.len()
        invariant
            j <= k,
            run <= MAX_DIGIT_RUN,
            plain_quoted_from(b@, j as int, q, 0) == plain_quoted_from(b@, k as int, q, run as nat),
        decreases b@.len() - k,
    {
        let x = b[k];
        if x == q {
            return true;
        } else if x == 0x26 {
            let n = entity_length(b, k);
            if n == 0 {
                return false;
            }
            run = 0;
            k = k + n;
        } else if !is_plain_byte(x) {
            return false;
        } else if 0x30 <= x && x <= 0x39 {
            if run >= MAX_DIGIT_RUN {
                return false;
            }
            run = run + 1;
            k = k + 1;
        } else {
            run = 0;
            k = k + 1;
        }
    }
    false
}

fn skip_space_bytes(b: &[u8], j: usize) -> (k: usize)
    requires
        j <= b@.len(),
    ensures
        k as int == skip_spaces(b@, j as int),
        k <= b@.len(),
{
    let mut k = j;
    while k < b.len() && is_space_byte(b[k])
        invariant
            j <= k <= b@.len(),
            skip_spaces(b@, j as int) == skip_spaces(b@, k as int),
        decreases b@.len() - k,
    {
        k = k + 1;
    }
    k
}

fn check_attr_value(b: &[u8], j: usize) -> (r: bool)
    requires
        j <= b@.len(),
    ensures
        r == attr_value_plain(b@, j as int),
{
    let k = skip_space_bytes(b, j);
    if k < b.len() && b[k] == 0x3d {
        let v = skip_space_bytes(b, k + 1);
        if v < b.len() && (b[v] == 0x22 || b[v] == 0x27) {
            check_plain_quoted(b, v + 1, b[v])
        } else {
            true
        }
    } else {
        true
    }
}

fn occurs(b: &[u8], i: usize, word: &[u8]) -> (r: bool)
    ensures
        r == occurs_at(b@, i as int, word@),
{
    let blen = b.len();
    if i > blen || word.len() > blen - i {
        return false;
    }
    let mut k: usize = 0;
    while k < word.len()
        invariant
            blen == b@.len(),
            i + word@.len() <= blen,
            k <= word@.len(),
            forall|t: int| 0 <= t < k ==> b@[i + t] == word@[t],
        decreases word@.len() - k,
    {
        if b[i + k] != word[k] {
            assert(b@.subrange(i as int, i + word@.len())[k as int] != word@[k as int]);
            return false;
        }
        k = k + 1;
    }
    assert(b@.subrange(i as int, i + word@.len()) =~= word@);
    true
}

/// Whether the time values of `b` are safe (see `times_safe`).
fn check_times(b: &[u8]) -> (r: bool)
    ensures
        r == times_safe(b@),
{
    let duration: [u8; 8] = [0x64, 0x75, 0x72, 0x61, 0x74, 0x69, 0x6f, 0x6e];
    let start: [u8; 5] = [0x73, 0x74, 0x61, 0x72, 0x74];
    let end: [u8; 3] = [0x65, 0x6e, 0x64];
    let time: [u8; 4] = [0x74, 0x69, 0x6d, 0x65];
    assert(duration@ =~= duration_word());
    assert(start@ =~= start_word());
    assert(end@ =~= end_word());
    assert(time@ =~= time_word());
    let mut i: usize = 0;
    while i < b.len()
        invariant
            i <= b@.len(),
            duration@ == duration_word(),
            start@ == start_word(),
            end@ == end_word(),
            time@ == time_word(),
            forall|t: int|
                0 <= t < i ==> (occurs_at(b@, t, duration_word()) && t > 0 && (b@[t - 1] == 0x3c
                    || b@[t - 1] == 0x3a) ==> plain_text_from(b@, t + 8, 0)),
            forall|t: int| 0 <= t < i ==> (attr_name_at(b@, t, start_word()) ==> attr_value_plain(b@, t + 5)),
            forall|t: int| 0 <= t < i ==> (attr_name_at(b@, t, end_word()) ==> attr_value_plain(b@, t + 3)),
            forall|t: int| 0 <= t < i ==> (attr_name_at(b@, t, time_word()) ==> attr_value_plain(b@, t + 4)),
        decreases b@.len() - i,
    {
        if i > 0 && (b[i - 1] == 0x3c || b[i - 1] == 0x3a) && occurs(b, i, &duration) {
            if !check_plain_text(b, i + 8) {
                assert(!times_safe(b@)) by {
                    assert(occurs_at(b@, i as int, duration_word()));
                }
                return false;
            }
        }
        let free = i == 0 || !is_name_byte(b[i - 1]);
        if free && occurs(b, i, &start) && !check_attr_value(b, i + 5) {
            assert(!times_safe(b@)) by {
                assert(attr_name_at(b@, i as int, start_word()));
            }
            return false;
        }
        if free && occurs(b, i, &end) && !check_attr_value(b, i + 3) {
            assert(!times_safe(b@)) by {
                assert(attr_name_at(b@, i as int, end_word()));
            }
            return false;
        }
        if free && occurs(b, i, &time) && !check_attr_value(b, i + 4) {
            assert(!times_safe(b@)) by {
                assert(attr_name_at(b@, i as int, time_word()));
            }
            return false;
        }
        i = i + 1;
    }
    true
}


/// `w` begins `b`.
pub open spec fn starts_with(b: Seq<u8>, w: Seq<u8>) -> bool {
    occurs_at(b, 0, w)
}

/// The encoding the XML reader starts with, as quick-xml detects it from the
/// first bytes: 0 for UTF-8 (or any ASCII-compatible encoding), 1 for UTF-16LE,
/// 2 for UTF-16BE.
pub open spec fn detected_encoding(b: Seq<u8>) -> u8 {
    if starts_with(b, seq![0xfeu8, 0xff]) {
        2
    } else if starts_with(b, seq![0xffu8, 0xfe]) {
        1
    } else if starts_with(b, seq![0xefu8, 0xbb, 0xbf]) {
        0
    } else if starts_with(b, seq![0x00u8, 0x3c, 0x00, 0x3f]) {
        2
    } else if starts_with(b, seq![0x3cu8, 0x00, 0x3f, 0x00]) {
        1
    } else {
        0
    }
}

/// The length of a UTF-16 byte-order mark at the start of `b`.
pub open spec fn utf16_bom_len(b: Seq<u8>) -> int {
    if starts_with(b, seq![0xfeu8, 0xff]) || starts_with(b, seq![0xffu8, 0xfe]) {
        2
    } else {
        0
    }
}

/// A UTF-16 code unit as an ASCII byte, or `0x80` when it is not ASCII.
pub open spec fn unit_char(hi: u8, lo: u8) -> u8 {
    if hi == 0 && lo < 0x80 {
        lo
    } else {
        0x80
    }
}

/// The code units of UTF-16 bytes from `from` on, each as `unit_char`.
pub open spec fn unit_view(b: Seq<u8>, big_endian: bool, from: int) -> Seq<u8> {
    Seq::new(
        ((b.len() - from) / 2) as nat,
        |i: int|
            if big_endian {
                unit_char(b[from + 2 * i], b[from + 2 * i + 1])
            } else {
                unit_char(b[from + 2 * i + 1], b[from + 2 * i])
            },
    )
}

/// The document's characters, each ASCII character as its byte and every other
/// character as a byte of `0x80` or more: the bytes themselves for an
/// ASCII-compatible document, the code units for a UTF-16 one.
pub open spec fn ascii_view(b: Seq<u8>) -> Seq<u8> {
    let e = detected_encoding(b);
    if e == 0 {
        b
    } else {
        unit_view(b, e == 2, utf16_bom_len(b))
    }
}

/// The `encoding_rs` labels of utf8.
pub open spec fn utf8_labels() -> Seq<Seq<u8>> {
    seq![
        seq![0x75u8, 0x6e, 0x69, 0x63, 0x6f, 0x64, 0x65, 0x2d, 0x31, 0x2d, 0x31, 0x2d, 0x75, 0x74, 0x66, 0x2d, 0x38],
        seq![0x75u8, 0x6e, 0x69, 0x63, 0x6f, 0x64, 0x65, 0x31, 0x31, 0x75, 0x74, 0x66, 0x38],
        seq![0x75u8, 0x6e, 0x69, 0x63, 0x6f, 0x64, 0x65, 0x32, 0x30, 0x75, 0x74, 0x66, 0x38],
        seq![0x75u8, 0x74, 0x66, 0x2d, 0x38],
        seq![0x75u8, 0x74, 0x66, 0x38],
        seq![0x78u8, 0x2d, 0x75, 0x6e, 0x69, 0x63, 0x6f, 0x64, 0x65, 0x32, 0x30, 0x75, 0x74, 0x66, 0x38],
    ]
}

/// The `encoding_rs` labels of utf16le.
pub open spec fn utf16le_labels() -> Seq<Seq<u8>> {
    seq![
        seq![0x63u8, 0x73, 0x75, 0x6e, 0x69, 0x63, 0x6f, 0x64, 0x65],
        seq![0x69u8, 0x73, 0x6f, 0x2d, 0x31, 0x30, 0x36, 0x34, 0x36, 0x2d, 0x75, 0x63, 0x73, 0x2d, 0x32],
        seq![0x75u8, 0x63, 0x73, 0x2d, 0x32],
        seq![0x75u8, 0x6e, 0x69, 0x63, 0x6f, 0x64, 0x65],
        seq![0x75u8, 0x6e, 0x69, 0x63, 0x6f, 0x64, 0x65, 0x66, 0x65, 0x66, 0x66],
        seq![0x75u8, 0x74, 0x66, 0x2d, 0x31, 0x36],
        seq![0x75u8, 0x74, 0x66, 0x2d, 0x31, 0x36, 0x6c, 0x65],
    ]
}

/// The `encoding_rs` labels of utf16be.
pub open spec fn utf16be_labels() -> Seq<Seq<u8>> {
    seq![
        seq![0x75u8, 0x6e, 0x69, 0x63, 0x6f, 0x64, 0x65, 0x66, 0x66, 0x66, 0x65],
        seq![0x75u8, 0x74, 0x66, 0x2d, 0x31, 0x36, 0x62, 0x65],
    ]
}

/// The `encoding_rs` labels of iso2022jp.
pub open spec fn iso2022jp_labels() -> Seq<Seq<u8>> {
    seq![
        seq![0x63u8, 0x73, 0x69, 0x73, 0x6f, 0x32, 0x30, 0x32, 0x32, 0x6a, 0x70],
        seq![0x69u8, 0x73, 0x6f, 0x2d, 0x32, 0x30, 0x32, 0x32, 0x2d, 0x6a, 0x70],
    ]
}

/// A byte that `encoding_rs` trims from around a label.
pub open spec fn label_space(x: u8) -> bool {
    x == 9 || x == 10 || x == 12 || x == 13 || x == 0x20
}

pub open spec fn trim_label_start(l: Seq<u8>) -> Seq<u8>
    decreases l.len(),
{
    if l.len() > 0 && label_space(l[0]) {
        trim_label_start(l.drop_first())
    } else {
        l
    }
}

pub open spec fn trim_label_end(l: Seq<u8>) -> Seq<u8>
    decreases l.len(),
{
    if l.len() > 0 && label_space(l.last()) {
        trim_label_end(l.drop_last())
    } else {
        l
    }
}

pub open spec fn ascii_lower(x: u8) -> u8 {
    if 0x41 <= x && x <= 0x5a {
        (x + 32) as u8
    } else {
        x
    }
}

/// An encoding label as `encoding_rs::Encoding::for_label` compares it: trimmed
/// and in lower case.
pub open spec fn normalized_label(l: Seq<u8>) -> Seq<u8> {
    trim_label_end(trim_label_start(l)).map_values(|x: u8| ascii_lower(x))
}

/// What a declared encoding label selects: 0 UTF-8, 1 UTF-16LE, 2 UTF-16BE,
/// 3 ISO-2022-JP, 4 any other encoding (or none).
pub open spec fn label_class(l: Seq<u8>) -> u8 {
    let n = normalized_label(l);
    if utf8_labels().contains(n) {
        0
    } else if utf16le_labels().contains(n) {
        1
    } else if utf16be_labels().contains(n) {
        2
    } else if iso2022jp_labels().contains(n) {
        3
    } else {
        4
    }
}

/// `<?xml`, which opens an XML declaration.
pub open spec fn decl_word() -> Seq<u8> {
    seq![0x3cu8, 0x3f, 0x78, 0x6d, 0x6c]
}

/// `encoding`, the declaration's pseudo-attribute.
pub open spec fn encoding_word() -> Seq<u8> {
    seq![0x65u8, 0x6e, 0x63, 0x6f, 0x64, 0x69, 0x6e, 0x67]
}

/// The first position at or after `k` holding `x`, or the length.
pub open spec fn find_byte(v: Seq<u8>, k: int, x: u8) -> int
    decreases v.len() - k,
{
    if k < 0 || k >= v.len() {
        v.len() as int
    } else if v[k] == x {
        k
    } else {
        find_byte(v, k + 1, x)
    }
}

/// The position of the `>` of the first `?>` at or after `k`, or the length.
pub open spec fn find_pi_end(v: Seq<u8>, k: int) -> int
    decreases v.len() - k,
{
    if k < 0 || k + 1 >= v.len() {
        v.len() as int
    } else if v[k] == 0x3f && v[k + 1] == 0x3e {
        k + 1
    } else {
        find_pi_end(v, k + 1)
    }
}

/// The quoted value after a name ending at `j` (`= "value"`, spaces allowed),
/// when there is one.
pub open spec fn label_after(v: Seq<u8>, j: int) -> Option<Seq<u8>> {
    let k = skip_spaces(v, j);
    if 0 <= k < v.len() && v[k] == 0x3d {
        let q = skip_spaces(v, k + 1);
        if 0 <= q < v.len() && (v[q] == 0x22 || v[q] == 0x27) {
            let c = find_byte(v, q + 1, v[q]);
            if c < v.len() {
                Some(v.subrange(q + 1, c))
            } else {
                None
            }
        } else {
            None
        }
    } else {
        None
    }
}

/// The encoding label given at `q`, when `encoding = "..."` stands there.
pub open spec fn label_at(v: Seq<u8>, q: int) -> Option<Seq<u8>> {
    if occurs_at(v, q, encoding_word()) {
        label_after(v, q + 8)
    } else {
        None
    }
}

/// An XML declaration opens at `p`.
pub open spec fn decl_at(v: Seq<u8>, p: int) -> bool {
    occurs_at(v, p, decl_word())
}

/// Where the declaration opened at `p` ends (its `>`, or the end).
pub open spec fn decl_end(v: Seq<u8>, p: int) -> int {
    find_pi_end(v, p + 5)
}

/// Every label in the declaration at `p` selects the encoding `e`: the reader
/// keeps its decoder.
pub open spec fn decl_harmless(v: Seq<u8>, p: int, e: u8) -> bool {
    forall|q: int|
        p <= q < decl_end(v, p) ==> (#[trigger] label_at(v, q) matches Some(l) ==> label_class(l) == e)
}

/// The declaration at `p` gives no label.
pub open spec fn decl_unlabelled(v: Seq<u8>, p: int) -> bool {
    forall|q: int| p <= q < decl_end(v, p) ==> #[trigger] label_at(v, q) is None
}

/// The declaration at `p` may switch the decoder: the document started as
/// ASCII-compatible, the declaration ends within the 64 bytes quick-xml holds
/// back for this, and it selects no encoding under which ASCII bytes would stop
/// meaning ASCII characters (UTF-16, ISO-2022-JP).
pub open spec fn decl_switchable(v: Seq<u8>, p: int, e: u8) -> bool {
    &&& e == 0
    &&& decl_end(v, p) < 64
    &&& forall|q: int|
        p <= q < decl_end(v, p) ==> (#[trigger] label_at(v, q) matches Some(l) ==> (label_class(l)
            == 0 || label_class(l) == 4))
}

/// The declaration at `p` is the first one.
pub open spec fn first_decl(v: Seq<u8>, p: int) -> bool {
    decl_at(v, p) && forall|p0: int| 0 <= p0 < p ==> !#[trigger] decl_at(v, p0)
}

/// The XML declarations of a document do not make quick-xml's decoding reader
/// panic: every declaration but the first keeps the decoder, and the first
/// either keeps it or switches it in time, with no later declaration giving a
/// label.
pub open spec fn decls_safe(b: Seq<u8>) -> bool {
    let v = ascii_view(b);
    let e = detected_encoding(b);
    &&& forall|p: int| decl_at(v, p) && !first_decl(v, p) ==> decl_harmless(v, p, e)
    &&& forall|p: int|
        first_decl(v, p) ==> (decl_harmless(v, p, e) || (decl_switchable(v, p, e) && forall|p2: int|
            p < p2 && #[trigger] decl_at(v, p2) ==> decl_unlabelled(v, p2)))
}

/// The bytes of a document that feed_rs can be handed without panicking:
/// its declarations are safe and so are its time values.
pub open spec fn feed_parse_safe(b: Seq<u8>) -> bool {
    decls_safe(b) && times_safe(ascii_view(b))
}

fn bytes_equal(a: &[u8], w: &[u8]) -> (r: bool)
    ensures
        r == (a@ == w@),
{
    if a.len() != w.len() {
        return false;
    }
    let mut k: usize = 0;
    while k < w.len()
        invariant
            a@.len() == w@.len(),
            k <= w@.len(),
            forall|t: int| 0 <= t < k ==> a@[t] == w@[t],
        decreases w@.len() - k,
    {
        if a[k] != w[k] {
            return false;
        }
        k = k + 1;
    }
    assert(a@ =~= w@);
    true
}

fn is_utf8_label(l: &[u8]) -> (r: bool)
    ensures
        r == utf8_labels().contains(l@),
{
    let w0: [u8; 17] = [0x75u8, 0x6e, 0x69, 0x63, 0x6f, 0x64, 0x65, 0x2d, 0x31, 0x2d, 0x31, 0x2d, 0x75, 0x74, 0x66, 0x2d, 0x38];
    assert(w0@ =~= utf8_labels()[0]);
    let w1: [u8; 13] = [0x75u8, 0x6e, 0x69, 0x63, 0x6f, 0x64, 0x65, 0x31, 0x31, 0x75, 0x74, 0x66, 0x38];
    assert(w1@ =~= utf8_labels()[1]);
    let w2: [u8; 13] = [0x75u8, 0x6e, 0x69, 0x63, 0x6f, 0x64, 0x65, 0x32, 0x30, 0x75, 0x74, 0x66, 0x38];
    assert(w2@ =~= utf8_labels()[2]);
    let w3: [u8; 5] = [0x75u8, 0x74, 0x66, 0x2d, 0x38];
    assert(w3@ =~= utf8_labels()[3]);
    let w4: [u8; 4] = [0x75u8, 0x74, 0x66, 0x38];
    assert(w4@ =~= utf8_labels()[4]);
    let w5: [u8; 15] = [0x78u8, 0x2d, 0x75, 0x6e, 0x69, 0x63, 0x6f, 0x64, 0x65, 0x32, 0x30, 0x75, 0x74, 0x66, 0x38];
    assert(w5@ =~= utf8_labels()[5]);
    let r = bytes_equal(l, &w0) || bytes_equal(l, &w1) || bytes_equal(l, &w2) || bytes_equal(l, &w3) || bytes_equal(l, &w4) || bytes_equal(l, &w5);
    proof {
        if utf8_labels().contains(l@) {
            let i = choose|i: int| 0 <= i < utf8_labels().len() && utf8_labels()[i] == l@;
            if i == 0 { assert(l@ == w0@); }
            if i == 1 { assert(l@ == w1@); }
            if i == 2 { assert(l@ == w2@); }
            if i == 3 { assert(l@ == w3@); }
            if i == 4 { assert(l@ == w4@); }
            if i == 5 { assert(l@ == w5@); }
        }
        if r {
            if l@ == w0@ { assert(utf8_labels()[0] == l@); }
            if l@ == w1@ { assert(utf8_labels()[1] == l@); }
            if l@ == w2@ { assert(utf8_labels()[2] == l@); }
            if l@ == w3@ { assert(utf8_labels()[3] == l@); }
            if l@ == w4@ { assert(utf8_labels()[4] == l@); }
            if l@ == w5@ { assert(utf8_labels()[5] == l@); }
        }
    }
    r
}

fn is_utf16le_label(l: &[u8]) -> (r: bool)
    ensures
        r == utf16le_labels().contains(l@),
{
    let w0: [u8; 9] = [0x63u8, 0x73, 0x75, 0x6e, 0x69, 0x63, 0x6f, 0x64, 0x65];
    assert(w0@ =~= utf16le_labels()[0]);
    let w1: [u8; 15] = [0x69u8, 0x73, 0x6f, 0x2d, 0x31, 0x30, 0x36, 0x34, 0x36, 0x2d, 0x75, 0x63, 0x73, 0x2d, 0x32];
    assert(w1@ =~= utf16le_labels()[1]);
    let w2: [u8; 5] = [0x75u8, 0x63, 0x73, 0x2d, 0x32];
    assert(w2@ =~= utf16le_labels()[2]);
    let w3: [u8; 7] = [0x75u8, 0x6e, 0x69, 0x63, 0x6f, 0x64, 0x65];
    assert(w3@ =~= utf16le_labels()[3]);
    let w4: [u8; 11] = [0x75u8, 0x6e, 0x69, 0x63, 0x6f, 0x64, 0x65, 0x66, 0x65, 0x66, 0x66];
    assert(w4@ =~= utf16le_labels()[4]);
    let w5: [u8; 6] = [0x75u8, 0x74, 0x66, 0x2d, 0x31, 0x36];
    assert(w5@ =~= utf16le_labels()[5]);
    let w6: [u8; 8] = [0x75u8, 0x74, 0x66, 0x2d, 0x31, 0x36, 0x6c, 0x65];
    assert(w6@ =~= utf16le_labels()[6]);
    let r = bytes_equal(l, &w0) || bytes_equal(l, &w1) || bytes_equal(l, &w2) || bytes_equal(l, &w3) || bytes_equal(l, &w4) || bytes_equal(l, &w5) || bytes_equal(l, &w6);
    proof {
        if utf16le_labels().contains(l@) {
            let i = choose|i: int| 0 <= i < utf16le_labels().len() && utf16le_labels()[i] == l@;
            if i == 0 { assert(l@ == w0@); }
            if i == 1 { assert(l@ == w1@); }
            if i == 2 { assert(l@ == w2@); }
            if i == 3 { assert(l@ == w3@); }
            if i == 4 { assert(l@ == w4@); }
            if i == 5 { assert(l@ == w5@); }
            if i == 6 { assert(l@ == w6@); }
        }
        if r {
            if l@ == w0@ { assert(utf16le_labels()[0] == l@); }
            if l@ == w1@ { assert(utf16le_labels()[1] == l@); }
            if l@ == w2@ { assert(utf16le_labels()[2] == l@); }
            if l@ == w3@ { assert(utf16le_labels()[3] == l@); }
            if l@ == w4@ { assert(utf16le_labels()[4] == l@); }
            if l@ == w5@ { assert(utf16le_labels()[5] == l@); }
            if l@ == w6@ { assert(utf16le_labels()[6] == l@); }
        }
    }
    r
}

fn is_utf16be_label(l: &[u8]) -> (r: bool)
    ensures
        r == utf16be_labels().contains(l@),
{
    let w0: [u8; 11] = [0x75u8, 0x6e, 0x69, 0x63, 0x6f, 0x64, 0x65, 0x66, 0x66, 0x66, 0x65];
    assert(w0@ =~= utf16be_labels()[0]);
    let w1: [u8; 8] = [0x75u8, 0x74, 0x66, 0x2d, 0x31, 0x36, 0x62, 0x65];
    assert(w1@ =~= utf16be_labels()[1]);
    let r = bytes_equal(l, &w0) || bytes_equal(l, &w1);
    proof {
        if utf16be_labels().contains(l@) {
            let i = choose|i: int| 0 <= i < utf16be_labels().len() && utf16be_labels()[i] == l@;
            if i == 0 { assert(l@ == w0@); }
            if i == 1 { assert(l@ == w1@); }
        }
        if r {
            if l@ == w0@ { assert(utf16be_labels()[0] == l@); }
            if l@ == w1@ { assert(utf16be_labels()[1] == l@); }
        }
    }
    r
}

fn is_iso2022jp_label(l: &[u8]) -> (r: bool)
    ensures
        r == iso2022jp_labels().contains(l@),
{
    let w0: [u8; 11] = [0x63u8, 0x73, 0x69, 0x73, 0x6f, 0x32, 0x30, 0x32, 0x32, 0x6a, 0x70];
    assert(w0@ =~= iso2022jp_labels()[0]);
    let w1: [u8; 11] = [0x69u8, 0x73, 0x6f, 0x2d, 0x32, 0x30, 0x32, 0x32, 0x2d, 0x6a, 0x70];
    assert(w1@ =~= iso2022jp_labels()[1]);
    let r = bytes_equal(l, &w0) || bytes_equal(l, &w1);
    proof {
        if iso2022jp_labels().contains(l@) {
            let i = choose|i: int| 0 <= i < iso2022jp_labels().len() && iso2022jp_labels()[i] == l@;
            if i == 0 { assert(l@ == w0@); }
            if i == 1 { assert(l@ == w1@); }
        }
        if r {
            if l@ == w0@ { assert(iso2022jp_labels()[0] == l@); }
            if l@ == w1@ { assert(iso2022jp_labels()[1] == l@); }
        }
    }
    r
}

fn is_label_space(x: u8) -> (r: bool)
    ensures
        r == label_space(x),
{
    x == 9 || x == 10 || x == 12 || x == 13 || x == 0x20
}

fn normalize_label(l: &[u8]) -> (r: Vec<u8>)
    ensures
        r@ == normalized_label(l@),
{
    let n = l.len();
    let mut i: usize = 0;
    assert(l@.subrange(0, n as int) =~= l@);
    while i < n && is_label_space(l[i])
        invariant
            i <= n,
            n == l@.len(),
            trim_label_start(l@) == trim_label_start(l@.subrange(i as int, n as int)),
        decreases n - i,
    {
        assert(l@.subrange(i as int, n as int).drop_first() =~= l@.subrange(i + 1, n as int));
        i = i + 1;
    }
    let ghost rest = l@.subrange(i as int, n as int);
    assert(trim_label_start(rest) == rest) by {
        if i < n {
            assert(rest[0] == l@[i as int]);
        }
    }
    let mut j: usize = n;
    while j > i && is_label_space(l[j - 1])
        invariant
            i <= j <= n,
            n == l@.len(),
            rest == l@.subrange(i as int, n as int),
            trim_label_end(rest) == trim_label_end(l@.subrange(i as int, j as int)),
        decreases j - i,
    {
        assert(l@.subrange(i as int, j as int).drop_last() =~= l@.subrange(i as int, j - 1));
        j = j - 1;
    }
    let ghost kept = l@.subrange(i as int, j as int);
    assert(trim_label_end(kept) == kept) by {
        if j > i {
            assert(kept.last() == l@[j - 1]);
        }
    }
    let mut out: Vec<u8> = Vec::new();
    let mut k = i;
    while k < j
        invariant
            i <= k <= j,
            j <= l@.len(),
            kept == l@.subrange(i as int, j as int),
            out@ == kept.take(k - i).map_values(|x: u8| ascii_lower(x)),
        decreases j - k,
    {
        let x = l[k];
        let y = if 0x41 <= x && x <= 0x5a {
            x + 32
        } else {
            x
        };
        out.push(y);
        k = k + 1;
        assert(out@ =~= kept.take(k - i).map_values(|x: u8| ascii_lower(x)));
    }
    assert(kept.take(j - i) =~= kept);
    out
}

fn label_class_of(l: &[u8]) -> (c: u8)
    ensures
        c == label_class(l@),
{
    let n = normalize_label(l);
    if is_utf8_label(n.as_slice()) {
        0
    } else if is_utf16le_label(n.as_slice()) {
        1
    } else if is_utf16be_label(n.as_slice()) {
        2
    } else if is_iso2022jp_label(n.as_slice()) {
        3
    } else {
        4
    }
}

fn find_byte_from(v: &[u8], k: usize, x: u8) -> (r: usize)
    ensures
        r as int == find_byte(v@, k as int, x),
        k <= v@.len() ==> k <= r <= v@.len(),
{
    let mut i = k;
    if i >= v.len() {
        return v.len();
    }
    while i < v.len() && v[i] != x
        invariant
            k <= i <= v@.len(),
            find_byte(v@, k as int, x) == find_byte(v@, i as int, x),
        decreases v@.len() - i,
    {
        i = i + 1;
    }
    i
}

fn find_pi_end_from(v: &[u8], k: usize) -> (r: usize)
    ensures
        r as int == find_pi_end(v@, k as int),
        k <= v@.len() ==> k <= r <= v@.len(),
{
    let n = v.len();
    if k >= n {
        return n;
    }
    let mut i = k;
    while i < n - 1 && !(v[i] == 0x3f && v[i + 1] == 0x3e)
        invariant
            n == v@.len(),
            k <= i <= n - 1,
            find_pi_end(v@, k as int) == find_pi_end(v@, i as int),
        decreases n - i,
    {
        i = i + 1;
    }
    if i < n - 1 {
        i + 1
    } else {
        n
    }
}

fn label_after_at(v: &[u8], j: usize) -> (r: Option<Vec<u8>>)
    requires
        j <= v@.len(),
    ensures
        match r {
            Some(l) => label_after(v@, j as int) == Some(l@),
            None => label_after(v@, j as int) is None,
        },
{
    let k = skip_space_bytes(v, j);
    if k < v.len() && v[k] == 0x3d {
        let q = skip_space_bytes(v, k + 1);
        if q < v.len() && (v[q] == 0x22 || v[q] == 0x27) {
            let c = find_byte_from(v, q + 1, v[q]);
            if c < v.len() {
                let mut out: Vec<u8> = Vec::new();
                let mut t = q + 1;
                while t < c
                    invariant
                        q + 1 <= t <= c,
                        c < v@.len(),
                        out@ == v@.subrange(q + 1, t as int),
                    decreases c - t,
                {
                    out.push(v[t]);
                    t = t + 1;
                    assert(out@ =~= v@.subrange(q + 1, t as int));
                }
                return Some(out);
            }
        }
    }
    None
}

/// For the declaration at `p`: whether it keeps the decoder `e`, whether it
/// gives no label, and whether it may switch the decoder.
fn scan_decl(v: &[u8], p: usize, e: u8) -> (r: (bool, bool, bool))
    requires
        decl_at(v@, p as int),
    ensures
        r.0 == decl_harmless(v@, p as int, e),
        r.1 == decl_unlabelled(v@, p as int),
        r.2 == decl_switchable(v@, p as int, e),
{
    let enc: [u8; 8] = [0x65u8, 0x6e, 0x63, 0x6f, 0x64, 0x69, 0x6e, 0x67];
    assert(enc@ =~= encoding_word());
    let n = v.len();
    assert(decl_word().len() == 5 && p + 5 <= n);
    assert(enc@.len() == 8);
    let end = find_pi_end_from(v, p + 5);
    let mut harmless = true;
    let mut unlabelled = true;
    let mut compatible = true;
    let mut q = p;
    while q < end
        invariant
            p <= q <= end,
            end <= v@.len(),
            n == v@.len(),
            end as int == decl_end(v@, p as int),
            enc@ == encoding_word(),
            enc@.len() == 8,
            harmless == forall|t: int|
                p <= t < q ==> (#[trigger] label_at(v@, t) matches Some(l) ==> label_class(l) == e),
            unlabelled == forall|t: int| p <= t < q ==> #[trigger] label_at(v@, t) is None,
            compatible == forall|t: int|
                p <= t < q ==> (#[trigger] label_at(v@, t) matches Some(l) ==> (label_class(l) == 0
                    || label_class(l) == 4)),
        decreases end - q,
    {
        if occurs(v, q, &enc) {
            match label_after_at(v, q + 8) {
                Some(l) => {
                    let c = label_class_of(l.as_slice());
                    assert(label_at(v@, q as int) == Some(l@));
                    if c != e {
                        harmless = false;
                    }
                    unlabelled = false;
                    if c != 0 && c != 4 {
                        compatible = false;
                    }
                },
                None => {
                    assert(label_at(v@, q as int) is None);
                },
            }
        } else {
            assert(label_at(v@, q as int) is None);
        }
        q = q + 1;
    }
    (harmless, unlabelled, e == 0 && end < 64 && compatible)
}

fn ascii_view_of(b: &[u8]) -> (v: Vec<u8>)
    ensures
        v@ == ascii_view(b@),
{
    let fe_ff: [u8; 2] = [0xfeu8, 0xff];
    let ff_fe: [u8; 2] = [0xffu8, 0xfe];
    let ef_bb_bf: [u8; 3] = [0xefu8, 0xbb, 0xbf];
    let be_like: [u8; 4] = [0x00u8, 0x3c, 0x00, 0x3f];
    let le_like: [u8; 4] = [0x3cu8, 0x00, 0x3f, 0x00];
    assert(fe_ff@ =~= seq![0xfeu8, 0xff]);
    assert(ff_fe@ =~= seq![0xffu8, 0xfe]);
    assert(ef_bb_bf@ =~= seq![0xefu8, 0xbb, 0xbf]);
    assert(be_like@ =~= seq![0x00u8, 0x3c, 0x00, 0x3f]);
    assert(le_like@ =~= seq![0x3cu8, 0x00, 0x3f, 0x00]);
    let (e, from): (u8, usize) = if occurs(b, 0, &fe_ff) {
        (2, 2)
    } else if occurs(b, 0, &ff_fe) {
        (1, 2)
    } else if occurs(b, 0, &ef_bb_bf) {
        (0, 0)
    } else if occurs(b, 0, &be_like) {
        (2, 0)
    } else if occurs(b, 0, &le_like) {
        (1, 0)
    } else {
        (0, 0)
    };
    assert(e == detected_encoding(b@));
    assert(e != 0 ==> from as int == utf16_bom_len(b@));
    let mut v: Vec<u8> = Vec::new();
    if e == 0 {
        let mut i: usize = 0;
        while i < b.len()
            invariant
                i <= b@.len(),
                v@ == b@.take(i as int),
            decreases b@.len() - i,
        {
            v.push(b[i]);
            i = i + 1;
            assert(v@ =~= b@.take(i as int));
        }
        assert(b@.take(b@.len() as int) =~= b@);
    } else {
        let blen = b.len();
        let units = (blen - from) / 2;
        let ghost target = unit_view(b@, e == 2, from as int);
        assert(target.len() == units);
        let mut i: usize = 0;
        while i < units
            invariant
                i <= units,
                units == target.len(),
                from + 2 * units <= b@.len(),
                blen == b@.len(),
                target == unit_view(b@, e == 2, from as int),
                v@ == target.take(i as int),
            decreases units - i,
        {
            assert(from + 2 * i + 1 < b@.len());
            let x = b[from + 2 * i];
            let y = b[from + 2 * i + 1];
            let (hi, lo) = if e == 2 {
                (x, y)
            } else {
                (y, x)
            };
            let c = if hi == 0 && lo < 0x80 {
                lo
            } else {
                0x80
            };
            assert(c == target[i as int]);
            v.push(c);
            i = i + 1;
            assert(v@ =~= target.take(i as int));
        }
        assert(target.take(units as int) =~= target);
    }
    v
}

fn check_decls(b: &[u8]) -> (r: bool)
    ensures
        r == decls_safe(b@),
{
    let view = ascii_view_of(b);
    let v = view.as_slice();
    let fe_ff: [u8; 2] = [0xfeu8, 0xff];
    let ff_fe: [u8; 2] = [0xffu8, 0xfe];
    let be_like: [u8; 4] = [0x00u8, 0x3c, 0x00, 0x3f];
    let le_like: [u8; 4] = [0x3cu8, 0x00, 0x3f, 0x00];
    let ef_bb_bf: [u8; 3] = [0xefu8, 0xbb, 0xbf];
    assert(fe_ff@ =~= seq![0xfeu8, 0xff]);
    assert(ff_fe@ =~= seq![0xffu8, 0xfe]);
    assert(ef_bb_bf@ =~= seq![0xefu8, 0xbb, 0xbf]);
    assert(be_like@ =~= seq![0x00u8, 0x3c, 0x00, 0x3f]);
    assert(le_like@ =~= seq![0x3cu8, 0x00, 0x3f, 0x00]);
    let e: u8 = if occurs(b, 0, &fe_ff) {
        2
    } else if occurs(b, 0, &ff_fe) {
        1
    } else if occurs(b, 0, &ef_bb_bf) {
        0
    } else if occurs(b, 0, &be_like) {
        2
    } else if occurs(b, 0, &le_like) {
        1
    } else {
        0
    };
    assert(e == detected_encoding(b@));
    let decl: [u8; 5] = [0x3cu8, 0x3f, 0x78, 0x6d, 0x6c];
    assert(decl@ =~= decl_word());
    // The first declaration.
    let mut first: usize = 0;
    let mut found = false;
    while first < v.len() && !found
        invariant
            first <= v@.len(),
            decl@ == decl_word(),
            found ==> first_decl(v@, first as int),
            !found ==> forall|p0: int| 0 <= p0 < first ==> !#[trigger] decl_at(v@, p0),
        decreases v@.len() - first + (if found { 0int } else { 1 }),
    {
        if occurs(v, first, &decl) {
            found = true;
        } else {
            first = first + 1;
        }
    }
    // Every other declaration must keep the decoder; note whether any later one
    // gives a label.
    let mut later_label = false;
    let mut p: usize = 0;
    while p < v.len()
        invariant
            p <= v@.len(),
            decl@ == decl_word(),
            v@ == ascii_view(b@),
            e == detected_encoding(b@),
            found ==> first_decl(v@, first as int),
            !found ==> forall|p0: int| 0 <= p0 < v@.len() ==> !#[trigger] decl_at(v@, p0),
            forall|t: int|
                0 <= t < p && #[trigger] decl_at(v@, t) && !first_decl(v@, t) ==> decl_harmless(
                    v@,
                    t,
                    e,
                ),
            later_label == exists|t: int|
                0 <= t < p && #[trigger] decl_at(v@, t) && !first_decl(v@, t) && !decl_unlabelled(
                    v@,
                    t,
                ),
        decreases v@.len() - p,
    {
        if occurs(v, p, &decl) {
            let is_first = found && p == first;
            assert(is_first == first_decl(v@, p as int)) by {
                if found && p != first && first_decl(v@, p as int) {
                    if p < first {
                        assert(decl_at(v@, p as int));
                    } else {
                        assert(decl_at(v@, first as int));
                    }
                }
            }
            if !is_first {
                let (harmless, unlabelled, _switchable) = scan_decl(v, p, e);
                if !harmless {
                    assert(!decls_safe(b@)) by {
                        assert(decl_at(v@, p as int) && !first_decl(v@, p as int));
                    }
                    return false;
                }
                if !unlabelled {
                    assert(decl_at(v@, p as int) && !first_decl(v@, p as int) && !decl_unlabelled(
                        v@,
                        p as int,
                    ));
                    later_label = true;
                }
            }
        }
        p = p + 1;
    }
    if !found {
        return true;
    }
    let (harmless, _unlabelled, switchable) = scan_decl(v, first, e);
    let r = harmless || (switchable && !later_label);
    proof {
        if r {
            assert forall|p2: int|
                first_decl(v@, p2) implies (decl_harmless(v@, p2, e) || (decl_switchable(v@, p2, e)
                && forall|p3: int| p2 < p3 && #[trigger] decl_at(v@, p3) ==> decl_unlabelled(v@, p3))) by {
                if p2 != first {
                    if p2 < first {
                        assert(decl_at(v@, p2));
                    } else {
                        assert(decl_at(v@, first as int));
                    }
                }
                if !harmless {
                    assert forall|p3: int| p2 < p3 && #[trigger] decl_at(v@, p3) implies decl_unlabelled(v@, p3) by {
                        if !decl_unlabelled(v@, p3) {
                            assert(!first_decl(v@, p3)) by {
                                assert(decl_at(v@, p2));
                            }
                        }
                    }
                }
            }
        } else {
            assert(first_decl(v@, first as int));
            if !harmless && switchable {
                let t = choose|t: int|
                    0 <= t < v@.len() && #[trigger] decl_at(v@, t) && !first_decl(v@, t) && !decl_unlabelled(v@, t);
                assert(first < t) by {
                    if t < first {
                        assert(decl_at(v@, t));
                    }
                }
            }
        }
    }
    r
}

/// Why a document may not be handed to feed_rs.
#[derive(PartialEq, Eq, Structural, Clone, Copy, Debug)]
pub enum ParseHazard {
    /// An XML declaration would switch the reader's decoder after it can no
    /// longer be switched.
    EncodingDeclaration,
    /// A duration or media time holds what the parser cannot read.
    TimeValue,
}

/// What, if anything, keeps `b` from being handed to feed_rs.
pub fn feed_parse_hazard(b: &[u8]) -> (r: Option<ParseHazard>)
    ensures
        r is None <==> feed_parse_safe(b@),
        r == Some(ParseHazard::EncodingDeclaration) <==> !decls_safe(b@),
        r == Some(ParseHazard::TimeValue) <==> decls_safe(b@) && !times_safe(ascii_view(b@)),
{
    if !check_decls(b) {
        return Some(ParseHazard::EncodingDeclaration);
    }
    let view = ascii_view_of(b);
    if !check_times(view.as_slice()) {
        return Some(ParseHazard::TimeValue);
    }
    None
}

/// Whether `b` may be handed to feed_rs (see `feed_parse_safe`).
pub fn feed_is_parse_safe(b: &[u8]) -> (r: bool)
    ensures
        r == feed_parse_safe(b@),
{
    feed_parse_hazard(b).is_none()
}

} // verus!
