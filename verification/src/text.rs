//! Character-level text utilities: whitespace, word splitting, trimming and decimal output.

use vstd::prelude::*;
use vstd::utf8::encode_utf8;

verus! {

broadcast use vstd::std_specs::iter::group_iter_axioms, vstd::string::group_string_axioms;

/// The Unicode `White_Space` property, which is what `char::is_whitespace` tests.
pub open spec fn is_ws(c: char) -> bool {
    let u = c as u32;
    ||| 0x09 <= u <= 0x0d
    ||| u == 0x20
    ||| u == 0x85
    ||| u == 0xa0
    ||| u == 0x1680
    ||| 0x2000 <= u <= 0x200a
    ||| u == 0x2028
    ||| u == 0x2029
    ||| u == 0x202f
    ||| u == 0x205f
    ||| u == 0x3000
}

/// Number of bytes in the UTF-8 encoding of a character sequence (what `str::len` returns).
pub open spec fn utf8_len(s: Seq<char>) -> nat {
    encode_utf8(s).len()
}

/// The views of a sequence of strings.
pub open spec fn views(v: Seq<String>) -> Seq<Seq<char>> {
    v.map_values(|x: String| x@)
}

/// The maximal runs of non-whitespace characters of `s`, in order (what
/// `str::split_whitespace` yields).
pub open spec fn words(s: Seq<char>) -> Seq<Seq<char>>
    decreases s.len(),
{
    if s.len() == 0 {
        seq![]
    } else {
        let prev = words(s.drop_last());
        let c = s.last();
        if is_ws(c) {
            prev
        } else if s.len() > 1 && !is_ws(s[s.len() - 2]) {
            prev.drop_last().push(prev.last().push(c))
        } else {
            prev.push(seq![c])
        }
    }
}

/// Encoding a concatenation encodes each part in turn.
pub proof fn lemma_encode_concat(a: Seq<char>, b: Seq<char>)
    ensures
        encode_utf8(a + b) == encode_utf8(a) + encode_utf8(b),
    decreases a.len(),
{
    if a.len() == 0 {
        assert(a + b =~= b);
        assert(encode_utf8(a) =~= Seq::<u8>::empty());
        assert(encode_utf8(a) + encode_utf8(b) =~= encode_utf8(b));
    } else {
        assert((a + b).drop_first() =~= a.drop_first() + b);
        lemma_encode_concat(a.drop_first(), b);
        assert(encode_utf8(a + b) =~= encode_utf8(a) + encode_utf8(b));
    }
}

/// A nonempty character sequence encodes to at least one byte.
pub proof fn lemma_utf8_len_nonempty(s: Seq<char>)
    requires
        s.len() > 0,
    ensures
        utf8_len(s) >= 1,
{
    reveal_with_fuel(encode_utf8, 1);
}

/// Whether `c` is whitespace in the sense of `char::is_whitespace`.
pub fn is_whitespace(c: char) -> (b: bool)
    ensures
        b == is_ws(c),
{
    let u = c as u32;
    (0x09 <= u && u <= 0x0d) || u == 0x20 || u == 0x85 || u == 0xa0 || u == 0x1680 || (0x2000
        <= u && u <= 0x200a) || u == 0x2028 || u == 0x2029 || u == 0x202f || u == 0x205f || u
        == 0x3000
}

/// Appends one character to a string.
#[verifier::external_body]
pub fn push_char(s: &mut String, c: char)
    ensures
        final(s)@ == old(s)@.push(c),
{
    s.push(c);
}

/// The characters of a string slice, in order.
pub fn chars_of(s: &str) -> (v: Vec<char>)
    ensures
        v@ == s@,
{
    let mut v: Vec<char> = Vec::new();
    for c in it: s.chars()
        invariant
            it.seq() == s@,
            v@ == it.seq().take(it.index()),
    {
        v.push(c);
    }
    v
}

/// Splits `text` at whitespace, dropping empty pieces; each word encodes to no
/// more bytes than the whole text.
pub fn split_words(text: &str) -> (r: Vec<String>)
    ensures
        views(r@) == words(text@),
        forall|i: int| 0 <= i < r@.len() ==> utf8_len(#[trigger] r@[i]@) <= utf8_len(text@),
{
    let chars = chars_of(text);
    let mut out: Vec<String> = Vec::new();
    let mut cur = String::new();
    let ghost mut before: Seq<char> = seq![];
    let mut i: usize = 0;
    while i < chars.len()
        invariant
            i <= chars@.len(),
            chars@ == text@,
            chars@.take(i as int) == before + cur@,
            words(chars@.take(i as int)) == views(out@) + (if cur@.len() > 0 {
                seq![cur@]
            } else {
                Seq::<Seq<char>>::empty()
            }),
            cur@.len() > 0 <==> (i > 0 && !is_ws(chars@[i - 1])),
            forall|k: int|
                0 <= k < out@.len() ==> utf8_len(#[trigger] out@[k]@) <= utf8_len(
                    chars@.take(i as int),
                ),
            utf8_len(cur@) <= utf8_len(chars@.take(i as int)),
        decreases chars@.len() - i,
    {
        let c = chars[i];
        let ghost p = chars@.take(i as int);
        let ghost q = chars@.take(i + 1);
        assert(q =~= p.push(c));
        assert(q =~= p + seq![c]);
        assert(q.drop_last() =~= p);
        proof {
            lemma_encode_concat(p, seq![c]);
        }
        if is_whitespace(c) {
            if !cur.as_str().is_empty() {
                proof {
                    lemma_encode_concat(before, cur@);
                }
                let ghost old_out = out@;
                out.push(cur);
                assert(views(out@) =~= views(old_out).push(cur@));
                cur = String::new();
            }
            proof {
                before = q;
            }
            assert(q =~= before + cur@);
        } else {
            let ghost old_cur = cur@;
            let had_word = !cur.as_str().is_empty();
            proof {
                lemma_encode_concat(before, old_cur);
                lemma_encode_concat(old_cur, seq![c]);
                lemma_encode_concat(before, old_cur.push(c));
            }
            push_char(&mut cur, c);
            assert(q =~= before + cur@);
            if had_word {
                assert(i > 0);
                assert(p[p.len() - 1] == chars@[i - 1]);
                assert(views(out@) + seq![cur@] =~= (views(out@) + seq![old_cur]).drop_last().push(
                    old_cur.push(c),
                ));
            } else {
                assert(old_cur =~= Seq::<char>::empty());
                assert(cur@ =~= seq![c]);
                assert(views(out@) + seq![cur@] =~= views(out@).push(seq![c]));
            }
        }
        i = i + 1;
    }
    assert(chars@.take(chars@.len() as int) =~= chars@);
    if !cur.as_str().is_empty() {
        let ghost old_out = out@;
        proof {
            lemma_encode_concat(before, cur@);
        }
        out.push(cur);
        assert(views(out@) =~= views(old_out).push(cur@));
    }
    out
}


/// Every character of `w` is something other than whitespace.
pub open spec fn no_ws(w: Seq<char>) -> bool {
    forall|k: int| 0 <= k < w.len() ==> !is_ws(#[trigger] w[k])
}

/// A word: a nonempty run of non-whitespace characters.
pub open spec fn is_word(w: Seq<char>) -> bool {
    w.len() > 0 && no_ws(w)
}

/// Every piece that `words` yields is a word.
pub proof fn lemma_words_are_words(s: Seq<char>)
    ensures
        forall|i: int| 0 <= i < words(s).len() ==> is_word(#[trigger] words(s)[i]),
    decreases s.len(),
{
    if s.len() > 0 {
        lemma_words_are_words(s.drop_last());
        let prev = words(s.drop_last());
        let c = s.last();
        if !is_ws(c) && s.len() > 1 && !is_ws(s[s.len() - 2]) {
            lemma_words_nonempty_when_last_word_char(s.drop_last());
            let w = prev.last().push(c);
            assert forall|i: int| 0 <= i < words(s).len() implies is_word(#[trigger] words(s)[i]) by {
                if i == words(s).len() - 1 {
                    assert(words(s)[i] == w);
                    assert forall|k: int| 0 <= k < w.len() implies !is_ws(#[trigger] w[k]) by {
                        if k < w.len() - 1 {
                            assert(w[k] == prev.last()[k]);
                        }
                    }
                } else {
                    assert(words(s)[i] == prev[i]);
                }
            }
        } else if !is_ws(c) {
            assert forall|i: int| 0 <= i < words(s).len() implies is_word(#[trigger] words(s)[i]) by {
                if i == words(s).len() - 1 {
                    assert(words(s)[i] == seq![c]);
                } else {
                    assert(words(s)[i] == prev[i]);
                }
            }
        }
    }
}

/// A sequence that ends in a non-whitespace character yields at least one word.
pub proof fn lemma_words_nonempty_when_last_word_char(s: Seq<char>)
    requires
        s.len() > 0,
        !is_ws(s.last()),
    ensures
        words(s).len() > 0,
    decreases s.len(),
{
    if s.len() > 1 && !is_ws(s[s.len() - 2]) {
        assert(s.drop_last().last() == s[s.len() - 2]);
        lemma_words_nonempty_when_last_word_char(s.drop_last());
    }
}

/// Appending whitespace yields no new word.
pub proof fn lemma_words_push_ws(s: Seq<char>, c: char)
    requires
        is_ws(c),
    ensures
        words(s.push(c)) == words(s),
{
    assert(s.push(c).drop_last() =~= s);
}

/// Appending a word after a separator (or at the very start) adds exactly that word.
pub proof fn lemma_words_append_word(s: Seq<char>, w: Seq<char>)
    requires
        s.len() == 0 || is_ws(s.last()),
        is_word(w),
    ensures
        words(s + w) == words(s).push(w),
    decreases w.len(),
{
    let t = s + w;
    assert(t.drop_last() =~= s + w.drop_last());
    assert(t.last() == w.last());
    if w.len() == 1 {
        assert(w.drop_last() =~= Seq::<char>::empty());
        assert(s + w.drop_last() =~= s);
        if t.len() > 1 {
            assert(t[t.len() - 2] == s.last());
        }
        assert(seq![w.last()] =~= w);
    } else {
        let w0 = w.drop_last();
        assert(no_ws(w0)) by {
            assert forall|k: int| 0 <= k < w0.len() implies !is_ws(#[trigger] w0[k]) by {
                assert(w0[k] == w[k]);
            }
        }
        lemma_words_append_word(s, w0);
        assert(t[t.len() - 2] == w[w.len() - 2]);
        assert(!is_ws(w[w.len() - 2]));
        assert(!is_ws(w.last()));
        assert(words(s).push(w0).drop_last() =~= words(s));
        assert(w0.push(w.last()) =~= w);
    }
}


/// The pieces of `s` between newline characters, empty pieces included (what
/// `str::split('\n')` yields).
pub open spec fn lines(s: Seq<char>) -> Seq<Seq<char>>
    decreases s.len(),
{
    if s.len() == 0 {
        seq![Seq::<char>::empty()]
    } else {
        let prev = lines(s.drop_last());
        let c = s.last();
        if c == '\n' {
            prev.push(Seq::<char>::empty())
        } else {
            prev.drop_last().push(prev.last().push(c))
        }
    }
}

/// There is always at least one line.
pub proof fn lemma_lines_nonempty(s: Seq<char>)
    ensures
        lines(s).len() >= 1,
    decreases s.len(),
{
    if s.len() > 0 {
        lemma_lines_nonempty(s.drop_last());
    }
}

/// A newline starts a new, empty line.
pub proof fn lemma_lines_push_newline(s: Seq<char>)
    ensures
        lines(s.push('\n')) == lines(s).push(Seq::<char>::empty()),
{
    assert(s.push('\n').drop_last() =~= s);
}

/// Text without newlines extends the last line.
pub proof fn lemma_lines_append(s: Seq<char>, w: Seq<char>)
    requires
        forall|k: int| 0 <= k < w.len() ==> #[trigger] w[k] != '\n',
    ensures
        lines(s + w) == lines(s).drop_last().push(lines(s).last() + w),
    decreases w.len(),
{
    lemma_lines_nonempty(s);
    if w.len() == 0 {
        assert(s + w =~= s);
        assert(lines(s).last() + w =~= lines(s).last());
        assert(lines(s).drop_last().push(lines(s).last()) =~= lines(s));
    } else {
        let w0 = w.drop_last();
        lemma_lines_append(s, w0);
        let t = s + w;
        assert(t.drop_last() =~= s + w0);
        assert(t.last() == w.last());
        assert(w[w.len() - 1] != '\n');
        assert((lines(s).last() + w0).push(w.last()) =~= lines(s).last() + w);
        assert(lines(s).drop_last().push(lines(s).last() + w0).drop_last() =~= lines(
            s,
        ).drop_last());
    }
}

/// A space encodes to a single byte.
pub proof fn lemma_utf8_len_space()
    ensures
        utf8_len(seq![' ']) == 1,
{
    let s = seq![' '];
    assert(s.drop_first() =~= Seq::<char>::empty());
    assert(s[0] as u32 == 32);
    assert(encode_utf8(s.drop_first()) =~= Seq::<u8>::empty());
}


/// The decimal digit character for `d < 10`.
pub open spec fn digit_char(d: nat) -> char {
    ((48 + d) as u32) as char
}

/// The decimal representation of `n`, without leading zeros.
pub open spec fn decimal(n: nat) -> Seq<char>
    decreases n,
{
    if n < 10 {
        seq![digit_char(n)]
    } else {
        decimal(n / 10).push(digit_char(n % 10))
    }
}

fn digit(d: u64) -> (c: char)
    requires
        d < 10,
    ensures
        c == digit_char(d as nat),
{
    match d {
        0 => '0',
        1 => '1',
        2 => '2',
        3 => '3',
        4 => '4',
        5 => '5',
        6 => '6',
        7 => '7',
        8 => '8',
        _ => '9',
    }
}

/// Appends the decimal representation of `n` to `s`.
pub fn push_decimal(s: &mut String, n: u64)
    ensures
        final(s)@ == old(s)@ + decimal(n as nat),
    decreases n,
{
    if n >= 10 {
        push_decimal(s, n / 10);
    }
    push_char(s, digit(n % 10));
    assert(s@ =~= old(s)@ + decimal(n as nat));
}

} // verus!
