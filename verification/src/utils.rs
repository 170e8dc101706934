//! Turning the output of helper programs into what the dashboard shows.

use vstd::prelude::*;
use vstd::utf8::{decode_utf8, valid_utf8};
use crate::text::{chars_of, is_whitespace, is_ws, push_char};

verus! {

broadcast use vstd::std_specs::iter::group_iter_axioms, vstd::string::group_string_axioms;

/// Whether `c` is cut from the ends by a trim: whitespace, or only newlines.
pub open spec fn trimmable(c: char, newlines_only: bool) -> bool {
    if newlines_only {
        c == '\n'
    } else {
        is_ws(c)
    }
}

/// `s` without its leading trimmable characters.
pub open spec fn trim_start(s: Seq<char>, newlines_only: bool) -> Seq<char>
    decreases s.len(),
{
    if s.len() > 0 && trimmable(s[0], newlines_only) {
        trim_start(s.drop_first(), newlines_only)
    } else {
        s
    }
}

/// `s` without its trailing trimmable characters.
pub open spec fn trim_end(s: Seq<char>, newlines_only: bool) -> Seq<char>
    decreases s.len(),
{
    if s.len() > 0 && trimmable(s.last(), newlines_only) {
        trim_end(s.drop_last(), newlines_only)
    } else {
        s
    }
}

/// `s` without its leading and trailing trimmable characters (what `str::trim`,
/// or `str::trim_matches('\n')`, returns).
pub open spec fn trimmed(s: Seq<char>, newlines_only: bool) -> Seq<char> {
    trim_end(trim_start(s, newlines_only), newlines_only)
}

fn is_trimmable(c: char, newlines_only: bool) -> (b: bool)
    ensures
        b == trimmable(c, newlines_only),
{
    if newlines_only {
        c == '\n'
    } else {
        is_whitespace(c)
    }
}

fn trim_chars(s: &str, newlines_only: bool) -> (r: String)
    ensures
        r@ == trimmed(s@, newlines_only),
{
    let chars = chars_of(s);
    let n = chars.len();
    let mut i: usize = 0;
    assert(chars@.subrange(0, n as int) =~= chars@);
    while i < n && is_trimmable(chars[i], newlines_only)
        invariant
            i <= n,
            n == chars@.len(),
            chars@ == s@,
            trim_start(s@, newlines_only) == trim_start(chars@.subrange(i as int, n as int), newlines_only),
        decreases n - i,
    {
        assert(chars@.subrange(i as int, n as int).drop_first() =~= chars@.subrange(i + 1, n as int));
        i = i + 1;
    }
    let ghost rest = chars@.subrange(i as int, n as int);
    assert(trim_start(rest, newlines_only) == rest) by {
        if i < n {
            assert(rest[0] == chars@[i as int]);
        }
    }
    let mut j: usize = n;
    while j > i && is_trimmable(chars[j - 1], newlines_only)
        invariant
            i <= j <= n,
            n == chars@.len(),
            trim_end(rest, newlines_only) == trim_end(chars@.subrange(i as int, j as int), newlines_only),
            rest == chars@.subrange(i as int, n as int),
        decreases j - i,
    {
        assert(chars@.subrange(i as int, j as int).drop_last() =~= chars@.subrange(i as int, j - 1));
        j = j - 1;
    }
    let ghost kept = chars@.subrange(i as int, j as int);
    assert(trim_end(kept, newlines_only) == kept) by {
        if j > i {
            assert(kept.last() == chars@[j - 1]);
        }
    }
    let mut out = String::new();
    let mut k = i;
    while k < j
        invariant
            i <= k <= j,
            j <= chars@.len(),
            out@ == chars@.subrange(i as int, k as int),
        decreases j - k,
    {
        push_char(&mut out, chars[k]);
        k = k + 1;
        assert(out@ =~= chars@.subrange(i as int, k as int));
    }
    out
}

/// `s` without leading and trailing whitespace.
pub fn trim_whitespace(s: &str) -> (r: String)
    ensures
        r@ == trimmed(s@, false),
{
    trim_chars(s, false)
}

/// `s` without leading and trailing newlines.
pub fn trim_newlines(s: &str) -> (r: String)
    ensures
        r@ == trimmed(s@, true),
{
    trim_chars(s, true)
}

proof fn lemma_trim_start_cut(s: Seq<char>, nl: bool) -> (i: int)
    ensures
        0 <= i <= s.len(),
        trim_start(s, nl) == s.subrange(i, s.len() as int),
        forall|k: int| 0 <= k < i ==> trimmable(#[trigger] s[k], nl),
        i < s.len() ==> !trimmable(s[i], nl),
    decreases s.len(),
{
    if s.len() > 0 && trimmable(s[0], nl) {
        let i0 = lemma_trim_start_cut(s.drop_first(), nl);
        assert(s.drop_first().subrange(i0, s.len() - 1) =~= s.subrange(i0 + 1, s.len() as int));
        assert forall|k: int| 0 <= k < i0 + 1 implies trimmable(#[trigger] s[k], nl) by {
            if k > 0 {
                assert(s[k] == s.drop_first()[k - 1]);
            }
        }
        if i0 + 1 < s.len() {
            assert(s[i0 + 1] == s.drop_first()[i0]);
        }
        i0 + 1
    } else {
        assert(s.subrange(0, s.len() as int) =~= s);
        0
    }
}

proof fn lemma_trim_end_cut(s: Seq<char>, nl: bool) -> (j: int)
    ensures
        0 <= j <= s.len(),
        trim_end(s, nl) == s.subrange(0, j),
        forall|k: int| j <= k < s.len() ==> trimmable(#[trigger] s[k], nl),
        j > 0 ==> !trimmable(s[j - 1], nl),
    decreases s.len(),
{
    if s.len() > 0 && trimmable(s.last(), nl) {
        let j0 = lemma_trim_end_cut(s.drop_last(), nl);
        assert(s.drop_last().subrange(0, j0) =~= s.subrange(0, j0));
        assert forall|k: int| j0 <= k < s.len() implies trimmable(#[trigger] s[k], nl) by {
            if k < s.len() - 1 {
                assert(s[k] == s.drop_last()[k]);
            }
        }
        if j0 > 0 {
            assert(s[j0 - 1] == s.drop_last()[j0 - 1]);
        }
        j0
    } else {
        assert(s.subrange(0, s.len() as int) =~= s);
        s.len() as int
    }
}

/// Trimming keeps a contiguous piece of the text: it cuts only trimmable
/// characters, from the two ends, and what it keeps neither starts nor ends with
/// one.
pub proof fn law_trim_cuts_only_the_ends(s: Seq<char>, newlines_only: bool)
    ensures
        exists|i: int, j: int|
            {
                &&& 0 <= i <= j <= s.len()
                &&& trimmed(s, newlines_only) == s.subrange(i, j)
                &&& forall|k: int| 0 <= k < i ==> trimmable(#[trigger] s[k], newlines_only)
                &&& forall|k: int| j <= k < s.len() ==> trimmable(#[trigger] s[k], newlines_only)
            },
        trimmed(s, newlines_only).len() > 0 ==> !trimmable(trimmed(s, newlines_only)[0], newlines_only)
            && !trimmable(trimmed(s, newlines_only).last(), newlines_only),
{
    let nl = newlines_only;
    let i = lemma_trim_start_cut(s, nl);
    let t = s.subrange(i, s.len() as int);
    let j = lemma_trim_end_cut(t, nl);
    let r = trimmed(s, nl);
    assert(r == t.subrange(0, j));
    assert(t.subrange(0, j) =~= s.subrange(i, i + j));
    assert forall|k: int| i + j <= k < s.len() implies trimmable(#[trigger] s[k], nl) by {
        assert(s[k] == t[k - i]);
    }
    if r.len() > 0 {
        assert(r[0] == s[i]);
        assert(r.last() == t[j - 1]);
    }
    assert({
        &&& 0 <= i <= i + j <= s.len()
        &&& trimmed(s, newlines_only) == s.subrange(i, i + j)
        &&& forall|k: int| 0 <= k < i ==> trimmable(#[trigger] s[k], newlines_only)
        &&& forall|k: int| i + j <= k < s.len() ==> trimmable(#[trigger] s[k], newlines_only)
    });
}

/// The text that `String::from_utf8_lossy` makes of a byte sequence.
pub uninterp spec fn utf8_lossy(bytes: Seq<u8>) -> Seq<char>;

/// Calls `String::from_utf8_lossy`. The contract claims that the text depends
/// on the bytes alone (named `utf8_lossy`), and that valid UTF-8 is decoded as
/// is; how invalid sequences are replaced is not stated.
#[verifier::external_body]
fn decode_lossy(bytes: &[u8]) -> (s: String)
    ensures
        s@ == utf8_lossy(bytes@),
        valid_utf8(bytes@) ==> s@ == decode_utf8(bytes@),
{
    String::from_utf8_lossy(bytes).into_owned()
}

/// What `str::to_lowercase` makes of a character sequence.
pub uninterp spec fn lowercase(s: Seq<char>) -> Seq<char>;

/// Calls `str::to_lowercase`. The contract claims only that the result depends
/// on the text alone (named `lowercase`); Unicode case mapping is not stated.
#[verifier::external_body]
fn to_lowercase(s: &str) -> (r: String)
    ensures
        r@ == lowercase(s@),
{
    s.to_lowercase()
}

/// The song shown when the music player cannot be asked on this platform.
pub fn get_current_song() -> (s: String)
    ensures
        s@ == "Music PLayer only on Linux for now :( Sorry for that"@,
{
    "Music PLayer only on Linux for now :( Sorry for that".to_owned()
}

/// The song title from the music player's answer (`None` when the player could
/// not be started, otherwise whether it exited successfully and its output): the
/// output, trimmed, when it succeeded; otherwise that no music is playing.
pub fn song_from_player_output(answer: Option<(bool, &[u8])>) -> (s: String)
    ensures
        match answer {
            Some((true, out)) => s@ == trimmed(utf8_lossy(out@), false),
            _ => s@ == "No Music Playing"@,
        },
{
    match answer {
        Some((true, out)) => {
            let text = decode_lossy(out);
            trim_whitespace(text.as_str())
        },
        _ => "No Music Playing".to_owned(),
    }
}

/// The logo drawn when the logo program gives none.
pub open spec fn fallback_logo() -> Seq<char> {
    "   _ _\n  (o.o)\n   > <\n /  |  \\"@
}

/// The system logo from the logo program's answer (`None` when the program
/// could not be started, otherwise whether it exited successfully and its
/// output): the output without leading and trailing newlines when it succeeded;
/// otherwise a small fallback drawing.
pub fn logo_from_output(answer: Option<(bool, &[u8])>) -> (s: String)
    ensures
        match answer {
            Some((true, out)) => s@ == trimmed(utf8_lossy(out@), true),
            _ => s@ == fallback_logo(),
        },
{
    match answer {
        Some((true, out)) => {
            let text = decode_lossy(out);
            trim_newlines(text.as_str())
        },
        _ => "   _ _\n  (o.o)\n   > <\n /  |  \\".to_owned(),
    }
}

/// `s` with every space replaced by an underscore.
pub open spec fn spaces_to_underscores(s: Seq<char>) -> Seq<char> {
    s.map_values(|c: char| if c == ' ' { '_' } else { c })
}

/// The name of the file that caches the logo of the OS called `os_name`: the name
/// in lower case, spaces turned into underscores, with `.txt` appended.
pub fn logo_cache_file_name(os_name: &str) -> (r: String)
    ensures
        r@ == spaces_to_underscores(lowercase(os_name@)) + ".txt"@,
{
    let lower = to_lowercase(os_name);
    let chars = chars_of(lower.as_str());
    let mut out = String::new();
    let mut i: usize = 0;
    while i < chars.len()
        invariant
            i <= chars@.len(),
            chars@ == lower@,
            out@ == spaces_to_underscores(chars@.take(i as int)),
        decreases chars@.len() - i,
    {
        let c = chars[i];
        push_char(&mut out, if c == ' ' { '_' } else { c });
        i = i + 1;
        assert(out@ =~= spaces_to_underscores(chars@.take(i as int)));
    }
    assert(chars@.take(chars@.len() as int) =~= chars@);
    out.append(".txt");
    out
}

} // verus!
