//! What the dashboard panes show: word-wrapped feed titles, the scrolling song
//! title, the system summary lines.

use vstd::prelude::*;
use crate::text::{
    is_word, is_ws, lemma_encode_concat, lemma_lines_append, lemma_lines_nonempty, lemma_lines_push_newline,
    lemma_utf8_len_nonempty, lemma_utf8_len_space, lemma_words_append_word, lemma_words_are_words,
    lemma_words_push_ws, lines, no_ws, push_char, split_words, utf8_len, views, words, chars_of,
    decimal, push_decimal,
};
use crate::app::App;
use crate::rss::{RssItem, opt_view};

verus! {

broadcast use vstd::std_specs::iter::group_iter_axioms, vstd::string::group_string_axioms;

/// One step of greedy wrapping: `acc` is the text so far and the byte length of
/// its current line; the word goes on a new line when it would overflow
/// `max_width` together with a separating space.
pub open spec fn wrap_step(acc: (Seq<char>, int), w: Seq<char>, max_width: int) -> (Seq<char>, int) {
    let out = acc.0;
    let cur = acc.1;
    let wl = utf8_len(w) as int;
    if cur + wl + 1 > max_width {
        (out.push('\n') + w, wl)
    } else if out.len() > 0 && cur > 0 {
        (out.push(' ') + w, cur + 1 + wl)
    } else {
        (out + w, cur + wl)
    }
}

/// Greedy wrapping of a word sequence, word by word.
pub open spec fn wrap_words(ws: Seq<Seq<char>>, max_width: int) -> (Seq<char>, int)
    decreases ws.len(),
{
    if ws.len() == 0 {
        (Seq::<char>::empty(), 0)
    } else {
        wrap_step(wrap_words(ws.drop_last(), max_width), ws.last(), max_width)
    }
}

/// The wrapped form of `text` for lines of `max_width` bytes.
pub open spec fn wrapped(text: Seq<char>, max_width: int) -> Seq<char> {
    wrap_words(words(text), max_width).0
}

/// Re-flows the words of `text` into lines of at most `max_width` bytes: words
/// are joined by single spaces, and a word that would not fit (with its space)
/// starts a new line. A word longer than `max_width` stands on a line of its own.
pub fn wrap_text(text: &str, max_width: usize) -> (r: String)
    ensures
        r@ == wrapped(text@, max_width as int),
{
    let bytes = text.as_bytes();
    let _byte_count = bytes.len();
    assert(utf8_len(text@) <= usize::MAX);
    let ws = split_words(text);
    let mut result = String::new();
    let mut cur: usize = 0;
    let mut i: usize = 0;
    while i < ws.len()
        invariant
            i <= ws@.len(),
            views(ws@) == words(text@),
            forall|k: int| 0 <= k < ws@.len() ==> utf8_len(#[trigger] ws@[k]@) <= utf8_len(text@),
            utf8_len(text@) <= usize::MAX,
            (result@, cur as int) == wrap_words(views(ws@).take(i as int), max_width as int),
        decreases ws@.len() - i,
    {
        let word = &ws[i];
        assert(utf8_len(ws@[i as int]@) <= usize::MAX);
        let wl = word.as_str().len();
        assert(views(ws@).take(i + 1).drop_last() =~= views(ws@).take(i as int));
        assert(views(ws@).take(i + 1).last() == word@);
        if wl >= max_width || cur >= max_width - wl {
            push_char(&mut result, '\n');
            cur = 0;
        } else if !result.as_str().is_empty() && cur > 0 {
            push_char(&mut result, ' ');
            cur = cur + 1;
        }
        result.append(word.as_str());
        cur = cur + wl;
        i = i + 1;
    }
    assert(views(ws@).take(ws@.len() as int) =~= views(ws@));
    result
}


/// A line fits when it is at most `max_width` bytes long, or when it holds a
/// single word (which no line width could split).
pub open spec fn line_fits(line: Seq<char>, max_width: int) -> bool {
    utf8_len(line) <= max_width || no_ws(line)
}

/// What stays true while words are wrapped one by one.
proof fn lemma_wrap_words_inv(ws: Seq<Seq<char>>, max_width: int)
    requires
        max_width >= 0,
        forall|i: int| 0 <= i < ws.len() ==> is_word(#[trigger] ws[i]),
    ensures
        ({
            let (out, cur) = wrap_words(ws, max_width);
            &&& words(out) == ws
            &&& out.len() == 0 ==> cur == 0
            &&& out.len() > 0 ==> cur >= 1 && !is_ws_last(out)
            &&& lines(out).len() >= 1
            &&& cur == utf8_len(lines(out).last())
            &&& forall|k: int| 0 <= k < lines(out).len() ==> line_fits(#[trigger] lines(out)[k], max_width)
        }),
    decreases ws.len(),
{
    if ws.len() == 0 {
        assert(words(Seq::<char>::empty()) =~= Seq::<Seq<char>>::empty());
        assert(utf8_len(Seq::<char>::empty()) == 0) by {
            assert(vstd::utf8::encode_utf8(Seq::<char>::empty()) =~= Seq::<u8>::empty());
        }
    } else {
        let pre = ws.drop_last();
        assert forall|i: int| 0 <= i < pre.len() implies is_word(#[trigger] pre[i]) by {
            assert(pre[i] == ws[i]);
        }
        lemma_wrap_words_inv(pre, max_width);
        let (out, cur) = wrap_words(pre, max_width);
        let w = ws.last();
        assert(is_word(ws[ws.len() - 1]));
        let wl = utf8_len(w) as int;
        lemma_utf8_len_nonempty(w);
        assert forall|k: int| 0 <= k < w.len() implies #[trigger] w[k] != '\n' by {
            assert(!is_ws(w[k]));
        }
        let (out2, cur2) = wrap_words(ws, max_width);
        assert(ws.drop_last() == pre);
        lemma_lines_nonempty(out);
        if cur + wl + 1 > max_width {
            let s = out.push('\n');
            assert(out2 == s + w);
            lemma_words_push_ws(out, '\n');
            lemma_words_append_word(s, w);
            lemma_lines_push_newline(out);
            lemma_lines_append(s, w);
            assert(Seq::<char>::empty() + w =~= w);
            assert(lines(out2) =~= lines(out).push(w));
            assert(out2.last() == w.last());
            assert(!is_ws(w[w.len() - 1]));
            assert forall|k: int| 0 <= k < lines(out2).len() implies line_fits(
                #[trigger] lines(out2)[k],
                max_width,
            ) by {
                if k < lines(out).len() {
                    assert(lines(out2)[k] == lines(out)[k]);
                }
            }
        } else if out.len() > 0 && cur > 0 {
            let s = out.push(' ');
            assert(out2 == s + w);
            lemma_words_push_ws(out, ' ');
            lemma_words_append_word(s, w);
            lemma_lines_append(out, seq![' ']);
            assert(out + seq![' '] =~= s);
            lemma_lines_append(s, w);
            let last = lines(out).last();
            assert(lines(out2) =~= lines(out).drop_last().push(last + seq![' '] + w));
            lemma_encode_concat(last, seq![' ']);
            lemma_encode_concat(last + seq![' '], w);
            lemma_utf8_len_space();
            assert(out2.last() == w.last());
            assert(!is_ws(w[w.len() - 1]));
            assert forall|k: int| 0 <= k < lines(out2).len() implies line_fits(
                #[trigger] lines(out2)[k],
                max_width,
            ) by {
                if k < lines(out).len() - 1 {
                    assert(lines(out2)[k] == lines(out)[k]);
                }
            }
        } else {
            assert(out.len() == 0);
            assert(out2 == out + w);
            lemma_words_append_word(out, w);
            lemma_lines_append(out, w);
            assert(lines(out) =~= seq![Seq::<char>::empty()]);
            assert(Seq::<char>::empty() + w =~= w);
            assert(lines(out2) =~= seq![w]);
            assert(out2.last() == w.last());
            assert(!is_ws(w[w.len() - 1]));
            assert forall|k: int| 0 <= k < lines(out2).len() implies line_fits(
                #[trigger] lines(out2)[k],
                max_width,
            ) by {
                assert(lines(out2)[k] == w);
            }
        }
    }
}

/// Whether the last character of a nonempty sequence is whitespace.
pub open spec fn is_ws_last(s: Seq<char>) -> bool {
    is_ws(s.last())
}

/// Wrapping neither drops, splits, merges nor reorders words: the wrapped text
/// has exactly the words of the input text.
pub proof fn law_wrap_keeps_words(text: Seq<char>, max_width: int)
    requires
        max_width >= 0,
    ensures
        words(wrapped(text, max_width)) == words(text),
{
    lemma_words_are_words(text);
    lemma_wrap_words_inv(words(text), max_width);
}

/// Wrapping an already wrapped text changes nothing.
pub proof fn law_wrap_is_idempotent(text: Seq<char>, max_width: int)
    requires
        max_width >= 0,
    ensures
        wrapped(wrapped(text, max_width), max_width) == wrapped(text, max_width),
{
    law_wrap_keeps_words(text, max_width);
}

/// Every line of the wrapped text is at most `max_width` bytes long, unless it
/// consists of a single word.
pub proof fn law_wrap_lines_fit(text: Seq<char>, max_width: int)
    requires
        max_width >= 0,
    ensures
        forall|k: int|
            0 <= k < lines(wrapped(text, max_width)).len() ==> line_fits(
                #[trigger] lines(wrapped(text, max_width))[k],
                max_width,
            ),
{
    lemma_words_are_words(text);
    lemma_wrap_words_inv(words(text), max_width);
}


/// The width left for text in a box `area_width` cells wide, after its borders
/// and padding (four cells).
pub open spec fn inner_width(area_width: u16) -> nat {
    if area_width >= 4 {
        (area_width - 4) as nat
    } else {
        0
    }
}

/// The separator shown between the end of a scrolling title and its restart.
pub open spec fn marquee_gap() -> Seq<char> {
    "  |  "@
}

/// What the music box shows of `title`: the whole title when it fits in
/// `width` characters; otherwise a `width`-character window into the title
/// looped with the separator, starting `offset` characters in.
pub open spec fn marquee(title: Seq<char>, offset: nat, width: nat) -> Seq<char> {
    if title.len() <= width {
        title
    } else {
        let looped = title + marquee_gap() + title;
        let start = offset % (title.len() + marquee_gap().len());
        looped.subrange(start as int, (start + width) as int)
    }
}

/// The text of the music box, `area_width` cells wide, after the title has
/// scrolled `scroll_offset` steps.
pub fn song_display(title: &str, scroll_offset: usize, area_width: u16) -> (r: String)
    ensures
        r@ == marquee(title@, scroll_offset as nat, inner_width(area_width)),
{
    let max_width = (area_width as usize).saturating_sub(4);
    let song_chars = chars_of(title);
    let len = song_chars.len();
    if len <= max_width {
        return title.to_owned();
    }
    proof {
        reveal_strlit("  |  ");
    }
    let gap = chars_of("  |  ");
    let ghost cycle = title@ + marquee_gap();
    let ghost c = cycle.len() as int;
    assert(gap@.len() == 5 && c == len + 5);
    // Position in the loop (title, then gap) where the window starts.
    let start: usize = if len <= usize::MAX - 5 {
        scroll_offset % (len + 5)
    } else {
        proof {
            vstd::arithmetic::div_mod::lemma_small_mod(scroll_offset as nat, c as nat);
        }
        scroll_offset
    };
    let mut in_gap = start >= len;
    let mut idx: usize = if in_gap {
        start - len
    } else {
        start
    };
    let mut out = String::new();
    let mut k: usize = 0;
    while k < max_width
        invariant
            k <= max_width,
            len == song_chars@.len(),
            len > max_width,
            song_chars@ == title@,
            gap@ == marquee_gap(),
            gap@.len() == 5,
            cycle == title@ + marquee_gap(),
            c == len + 5,
            in_gap ==> idx < 5,
            !in_gap ==> idx < len,
            (if in_gap {
                len + idx
            } else {
                idx as int
            }) == (scroll_offset + k) % c,
            out@.len() == k,
            forall|t: int| 0 <= t < k ==> #[trigger] out@[t] == cycle[(scroll_offset + t) % c],
        decreases max_width - k,
    {
        let ghost pos = if in_gap {
            len + idx
        } else {
            idx as int
        };
        let ch = if in_gap {
            gap[idx]
        } else {
            song_chars[idx]
        };
        assert(ch == cycle[pos]);
        let ghost old_out = out@;
        push_char(&mut out, ch);
        assert forall|t: int| 0 <= t < k + 1 implies #[trigger] out@[t] == cycle[(scroll_offset
            + t) % c] by {
            if t < k {
                assert(out@[t] == old_out[t]);
            }
        }
        if in_gap {
            if idx + 1 == 5 {
                in_gap = false;
                idx = 0;
            } else {
                idx = idx + 1;
            }
        } else {
            if idx + 1 == len {
                in_gap = true;
                idx = 0;
            } else {
                idx = idx + 1;
            }
        }
        proof {
            let a = scroll_offset + k;
            vstd::arithmetic::div_mod::lemma_fundamental_div_mod(a as int, c);
            vstd::arithmetic::div_mod::lemma_mod_bound(a as int, c);
            let q = a / c;
            assert(a + 1 == q * c + pos + 1 && (q + 1) * c == q * c + c) by (nonlinear_arith)
                requires
                    a == c * q + pos,
            ;
            if pos + 1 < c {
                vstd::arithmetic::div_mod::lemma_fundamental_div_mod_converse(a + 1, c, q, pos + 1);
            } else {
                vstd::arithmetic::div_mod::lemma_fundamental_div_mod_converse(a + 1, c, q + 1, 0);
            }
        }
        k = k + 1;
    }
    proof {
        law_marquee_width(title@, scroll_offset as nat, max_width as nat);
        assert forall|t: int| 0 <= t < max_width implies #[trigger] out@[t] == marquee(
            title@,
            scroll_offset as nat,
            max_width as nat,
        )[t] by {
            law_marquee_reads_the_loop(title@, scroll_offset as nat, max_width as nat, t);
        }
        assert(out@ =~= marquee(title@, scroll_offset as nat, max_width as nat));
    }
    out
}

/// The music box is exactly as wide as the title, or as the box when the title
/// is wider.
pub proof fn law_marquee_width(title: Seq<char>, offset: nat, width: nat)
    ensures
        marquee(title, offset, width).len() == if title.len() <= width {
            title.len()
        } else {
            width
        },
{
    reveal_strlit("  |  ");
}

/// A scrolling title shows consecutive characters of the title followed by the
/// separator, read round and round: character `k` of the window is character
/// `offset + k` of that endless loop.
pub proof fn law_marquee_reads_the_loop(title: Seq<char>, offset: nat, width: nat, k: int)
    requires
        title.len() > width,
        0 <= k < width,
    ensures
        ({
            let cycle = title + marquee_gap();
            marquee(title, offset, width)[k] == cycle[(offset + k) % (cycle.len() as int)]
        }),
{
    reveal_strlit("  |  ");
    let cycle = title + marquee_gap();
    let c = cycle.len() as int;
    let start = (offset % (c as nat)) as int;
    let m = start + k;
    let looped = title + marquee_gap() + title;
    assert(looped =~= cycle + title);
    vstd::arithmetic::div_mod::lemma_add_mod_noop(offset as int, k, c);
    vstd::arithmetic::div_mod::lemma_small_mod(k as nat, c as nat);
    if m < c {
        vstd::arithmetic::div_mod::lemma_small_mod(m as nat, c as nat);
    } else {
        vstd::arithmetic::div_mod::lemma_fundamental_div_mod_converse(m, c, 1, m - c);
    }
}

/// A title that fits in the box is shown whole, and does not scroll: the text
/// is the same for every offset.
pub proof fn law_marquee_fitting_title_stands_still(title: Seq<char>, offset: nat, other: nat, width: nat)
    requires
        title.len() <= width,
    ensures
        marquee(title, offset, width) == title,
        marquee(title, offset, width) == marquee(title, other, width),
{
}

/// Scrolling by a whole loop (title plus separator) shows the same text again.
pub proof fn law_marquee_repeats(title: Seq<char>, offset: nat, width: nat)
    ensures
        marquee(title, offset + title.len() + marquee_gap().len(), width) == marquee(
            title,
            offset,
            width,
        ),
{
    reveal_strlit("  |  ");
    let c = title.len() + marquee_gap().len();
    vstd::arithmetic::div_mod::lemma_mod_add_multiples_vanish(offset as int, c as int);
}

/// The texts of the feed list for a pane `area_width` cells wide: each title
/// wrapped to the pane's inner width, followed by a blank line.
pub fn feed_labels(items: &Vec<RssItem>, area_width: u16) -> (r: Vec<String>)
    ensures
        r@.len() == items@.len(),
        forall|i: int|
            0 <= i < items@.len() ==> #[trigger] r@[i]@ == wrapped(
                items@[i].title@,
                inner_width(area_width) as int,
            ).push('\n'),
{
    let max_width = (area_width as usize).saturating_sub(4);
    let mut out: Vec<String> = Vec::new();
    let mut i: usize = 0;
    while i < items.len()
        invariant
            i <= items@.len(),
            max_width == inner_width(area_width),
            out@.len() == i,
            forall|j: int|
                0 <= j < i ==> #[trigger] out@[j]@ == wrapped(
                    items@[j].title@,
                    max_width as int,
                ).push('\n'),
        decreases items@.len() - i,
    {
        let mut wrapped_title = wrap_text(items[i].title.as_str(), max_width);
        push_char(&mut wrapped_title, '\n');
        out.push(wrapped_title);
        i = i + 1;
    }
    out
}

/// What the feed pane says while it has no headlines: the error of the last
/// fetch, or that the feed is loading.
pub fn feed_placeholder(app: &App) -> (r: String)
    ensures
        r@ == match opt_view(app.rss_error) {
            Some(e) => e,
            None => "Loading feed..."@,
        },
{
    match &app.rss_error {
        Some(err) => err.clone(),
        None => "Loading feed...".to_owned(),
    }
}

/// The uptime line: whole hours, then the remaining whole minutes.
pub open spec fn uptime_view(secs: nat) -> Seq<char> {
    decimal(secs / 3600) + "h "@ + decimal((secs % 3600) / 60) + "m"@
}

/// Formats an uptime in seconds as `<hours>h <minutes>m`.
pub fn uptime_text(uptime_secs: u64) -> (r: String)
    ensures
        r@ == uptime_view(uptime_secs as nat),
{
    let hours = uptime_secs / 3600;
    let minutes = (uptime_secs % 3600) / 60;
    let mut out = String::new();
    push_decimal(&mut out, hours);
    out.append("h ");
    push_decimal(&mut out, minutes);
    out.append("m");
    out
}

/// The value shown for an optional system fact: the fact, or the fallback.
pub open spec fn or_default(v: Option<String>, fallback: Seq<char>) -> Seq<char> {
    match v {
        Some(s) => s@,
        None => fallback,
    }
}

fn value_or(v: Option<String>, fallback: &str) -> (r: String)
    ensures
        r@ == or_default(v, fallback@),
{
    match v {
        Some(s) => s,
        None => fallback.to_owned(),
    }
}

/// The rows of the system summary, as (label, value) pairs: the OS name, the
/// kernel version, the host name (each with a fallback when unknown) and the uptime.
pub fn system_summary(
    os_name: Option<String>,
    kernel_version: Option<String>,
    host_name: Option<String>,
    uptime_secs: u64,
) -> (r: Vec<(String, String)>)
    ensures
        r@.len() == 4,
        r@[0].0@ == "OS:      "@ && r@[0].1@ == or_default(os_name, "Linux"@),
        r@[1].0@ == "Kernel:  "@ && r@[1].1@ == or_default(kernel_version, "Unknown"@),
        r@[2].0@ == "Host:    "@ && r@[2].1@ == or_default(host_name, "localhost"@),
        r@[3].0@ == "Uptime:  "@ && r@[3].1@ == uptime_view(uptime_secs as nat),
{
    let mut rows: Vec<(String, String)> = Vec::new();
    rows.push(("OS:      ".to_owned(), value_or(os_name, "Linux")));
    rows.push(("Kernel:  ".to_owned(), value_or(kernel_version, "Unknown")));
    rows.push(("Host:    ".to_owned(), value_or(host_name, "localhost")));
    rows.push(("Uptime:  ".to_owned(), uptime_text(uptime_secs)));
    rows
}


/// What `chrono` prints for the instant `secs` seconds after the Unix epoch,
/// seen at a UTC offset of `utc_offset` seconds, with the strftime `pattern`;
/// `None` where the instant or the offset is out of chrono's range.
pub uninterp spec fn chrono_text(secs: int, utc_offset: int, pattern: Seq<char>) -> Option<Seq<char>>;

/// The date line of the clock: weekday, month abbreviation, day of month.
pub open spec fn date_pattern() -> Seq<char> {
    "%A, %b %d"@
}

/// The time line of the clock: 12-hour time with seconds and AM/PM.
pub open spec fn time_pattern() -> Seq<char> {
    "%I:%M:%S %p"@
}

/// Whether chrono represents the instant `secs` (seconds since the Unix epoch)
/// in the offset `utc_offset` (seconds east of UTC): `FixedOffset::east_opt`
/// takes offsets of less than a day either way, and `DateTime::from_timestamp`
/// takes instants from the first second of the year -262143 to the last second
/// of the year 262142, UTC.
pub open spec fn clock_representable(secs: int, utc_offset: int) -> bool {
    &&& -86400 < utc_offset < 86400
    &&& -8334601228800 <= secs <= 8210266876799
}

/// Formats an instant with `chrono`: builds `DateTime::from_timestamp(secs, 0)`
/// in `FixedOffset::east_opt(utc_offset_secs)` and prints it with `format`. The
/// contract claims that there is a text exactly when both constructors accept
/// their arguments (`clock_representable`), and that the text depends on these
/// arguments alone (named `chrono_text`); the calendar arithmetic is not stated.
/// Only the two clock patterns are admitted, since an invalid pattern makes the
/// printing panic.
#[verifier::external_body]
fn format_instant(secs: i64, utc_offset_secs: i32, pattern: &str) -> (r: Option<String>)
    requires
        pattern@ == date_pattern() || pattern@ == time_pattern(),
    ensures
        opt_view(r) == chrono_text(secs as int, utc_offset_secs as int, pattern@),
        r is Some <==> clock_representable(secs as int, utc_offset_secs as int),
{
    let offset = chrono::FixedOffset::east_opt(utc_offset_secs)?;
    let instant = chrono::DateTime::from_timestamp(secs, 0)?;
    Some(instant.with_timezone(&offset).format(pattern).to_string())
}

/// The clock text: the date line, a blank line, the time line; `None` where
/// chrono cannot represent the instant or the offset.
pub fn clock_text(now_secs: i64, utc_offset_secs: i32) -> (r: Option<String>)
    ensures
        r is Some <==> clock_representable(now_secs as int, utc_offset_secs as int),
        ({
            let d = chrono_text(now_secs as int, utc_offset_secs as int, date_pattern());
            let t = chrono_text(now_secs as int, utc_offset_secs as int, time_pattern());
            &&& (r is Some <==> (d is Some && t is Some))
            &&& r matches Some(text) ==> text@ == d->0 + "\n\n"@ + t->0
        }),
{
    let date = format_instant(now_secs, utc_offset_secs, "%A, %b %d");
    let time = format_instant(now_secs, utc_offset_secs, "%I:%M:%S %p");
    match (date, time) {
        (Some(mut text), Some(time)) => {
            text.append("\n\n");
            text.append(time.as_str());
            Some(text)
        },
        _ => None,
    }
}

/// The whitespace of `out` is laid out as wrapping lays it out: every
/// whitespace character is a space or a newline standing between two
/// non-whitespace characters, except for a newline at the very start, which is
/// followed by a non-whitespace character.
pub open spec fn spaced(out: Seq<char>) -> bool {
    forall|k: int|
        0 <= k < out.len() && is_ws(#[trigger] out[k]) ==> {
            &&& out[k] == ' ' || out[k] == '\n'
            &&& k + 1 < out.len() && !is_ws(out[k + 1])
            &&& k == 0 ==> out[k] == '\n'
            &&& k > 0 ==> !is_ws(out[k - 1])
        }
}

proof fn lemma_wrap_spaced(ws: Seq<Seq<char>>, max_width: int)
    requires
        max_width >= 0,
        forall|i: int| 0 <= i < ws.len() ==> is_word(#[trigger] ws[i]),
    ensures
        spaced(wrap_words(ws, max_width).0),
    decreases ws.len(),
{
    if ws.len() > 0 {
        let pre = ws.drop_last();
        assert forall|i: int| 0 <= i < pre.len() implies is_word(#[trigger] pre[i]) by {
            assert(pre[i] == ws[i]);
        }
        lemma_wrap_spaced(pre, max_width);
        lemma_wrap_words_inv(pre, max_width);
        let (out, cur) = wrap_words(pre, max_width);
        let out2 = wrap_words(ws, max_width).0;
        let w = ws.last();
        assert(is_word(ws[ws.len() - 1]));
        let n = out.len() as int;
        if (cur + utf8_len(w) as int + 1 > max_width) || (out.len() > 0 && cur > 0) {
            let sep = if cur + utf8_len(w) as int + 1 > max_width {
                '\n'
            } else {
                ' '
            };
            assert(out2 == out.push(sep) + w);
            assert forall|k: int|
                0 <= k < out2.len() && is_ws(#[trigger] out2[k]) implies {
                &&& out2[k] == ' ' || out2[k] == '\n'
                &&& k + 1 < out2.len() && !is_ws(out2[k + 1])
                &&& k == 0 ==> out2[k] == '\n'
                &&& k > 0 ==> !is_ws(out2[k - 1])
            } by {
                if k < n {
                    assert(out2[k] == out[k]);
                    assert(k + 1 < n);
                    assert(out2[k + 1] == out[k + 1]);
                    if k > 0 {
                        assert(out2[k - 1] == out[k - 1]);
                    }
                } else if k == n {
                    assert(out2[k + 1] == w[0]);
                    if k > 0 {
                        assert(out2[k - 1] == out[n - 1]);
                    }
                } else {
                    assert(out2[k] == w[k - n - 1]);
                }
            }
        } else {
            assert(out.len() == 0);
            assert(out2 == out + w);
            assert forall|k: int| 0 <= k < out2.len() && is_ws(#[trigger] out2[k]) implies false by {
                assert(out2[k] == w[k]);
            }
        }
    }
}

/// What wrapping puts between words: a single space or a single newline, with
/// perhaps one newline before the first word and nothing after the last; and the
/// result is empty exactly when the text has no words.
pub proof fn law_wrap_layout(text: Seq<char>, max_width: int)
    requires
        max_width >= 0,
    ensures
        spaced(wrapped(text, max_width)),
        wrapped(text, max_width).len() == 0 <==> words(text).len() == 0,
        wrapped(text, max_width).len() > 0 ==> !is_ws(wrapped(text, max_width).last()),
{
    lemma_words_are_words(text);
    lemma_wrap_words_inv(words(text), max_width);
    lemma_wrap_spaced(words(text), max_width);
    if wrapped(text, max_width).len() == 0 {
        assert(words(wrapped(text, max_width)) =~= Seq::<Seq<char>>::empty());
    }
}

/// How the lines change when one more word is wrapped.
proof fn lemma_wrap_lines_step(ws: Seq<Seq<char>>, max_width: int)
    requires
        max_width >= 0,
        ws.len() > 0,
        forall|i: int| 0 <= i < ws.len() ==> is_word(#[trigger] ws[i]),
    ensures
        ({
            let (out, cur) = wrap_words(ws.drop_last(), max_width);
            let out2 = wrap_words(ws, max_width).0;
            let w = ws.last();
            let wl = utf8_len(w) as int;
            &&& lines(out).len() >= 1
            &&& cur == utf8_len(lines(out).last())
            &&& out.len() == 0 ==> cur == 0
            &&& cur + wl + 1 > max_width ==> lines(out2) == lines(out).push(w)
            &&& cur + wl + 1 <= max_width && out.len() > 0 && cur > 0 ==> lines(out2) == lines(
                out,
            ).drop_last().push(lines(out).last() + seq![' '] + w) && utf8_len(
                lines(out).last() + seq![' '] + w,
            ) == cur + 1 + wl
            &&& cur + wl + 1 <= max_width && !(out.len() > 0 && cur > 0) ==> out.len() == 0
                && lines(out2) == seq![w]
        }),
{
    let pre = ws.drop_last();
    assert forall|i: int| 0 <= i < pre.len() implies is_word(#[trigger] pre[i]) by {
        assert(pre[i] == ws[i]);
    }
    lemma_wrap_words_inv(pre, max_width);
    let (out, cur) = wrap_words(pre, max_width);
    let out2 = wrap_words(ws, max_width).0;
    let w = ws.last();
    assert(is_word(ws[ws.len() - 1]));
    let wl = utf8_len(w) as int;
    assert forall|k: int| 0 <= k < w.len() implies #[trigger] w[k] != '\n' by {
        assert(!is_ws(w[k]));
    }
    lemma_lines_nonempty(out);
    if cur + wl + 1 > max_width {
        let s = out.push('\n');
        lemma_lines_push_newline(out);
        lemma_lines_append(s, w);
        assert(Seq::<char>::empty() + w =~= w);
        assert(lines(out2) =~= lines(out).push(w));
    } else if out.len() > 0 && cur > 0 {
        let s = out.push(' ');
        lemma_lines_append(out, seq![' ']);
        assert(out + seq![' '] =~= s);
        lemma_lines_append(s, w);
        let last = lines(out).last();
        assert(lines(out2) =~= lines(out).drop_last().push(last + seq![' '] + w));
        lemma_encode_concat(last, seq![' ']);
        lemma_encode_concat(last + seq![' '], w);
        lemma_utf8_len_space();
    } else {
        lemma_lines_append(out, w);
        assert(lines(out) =~= seq![Seq::<char>::empty()]);
        assert(Seq::<char>::empty() + w =~= w);
        assert(lines(out2) =~= seq![w]);
    }
}

/// The first word of a line: its characters up to the first space.
pub open spec fn first_word(l: Seq<char>) -> Seq<char>
    decreases l.len(),
{
    if l.len() == 0 || l[0] == ' ' {
        Seq::empty()
    } else {
        seq![l[0]] + first_word(l.drop_first())
    }
}

proof fn lemma_first_word_extend(l: Seq<char>, w: Seq<char>)
    ensures
        first_word(l + seq![' '] + w) == first_word(l),
    decreases l.len(),
{
    let t = l + seq![' '] + w;
    if l.len() == 0 {
        assert(t[0] == ' ');
    } else {
        assert(t[0] == l[0]);
        if l[0] != ' ' {
            assert(t.drop_first() =~= l.drop_first() + seq![' '] + w);
            lemma_first_word_extend(l.drop_first(), w);
        }
    }
}

proof fn lemma_first_word_of_word(w: Seq<char>)
    requires
        no_ws(w),
    ensures
        first_word(w) == w,
    decreases w.len(),
{
    if w.len() > 0 {
        assert(!is_ws(w[0]));
        let r = w.drop_first();
        assert(no_ws(r)) by {
            assert forall|k: int| 0 <= k < r.len() implies !is_ws(#[trigger] r[k]) by {
                assert(r[k] == w[k + 1]);
            }
        }
        lemma_first_word_of_word(r);
        assert(seq![w[0]] + r =~= w);
    }
}

/// No line break could be dropped: each line, a space and the first word of the
/// next line would not fit in `max_width` bytes.
pub open spec fn greedy(ls: Seq<Seq<char>>, max_width: int) -> bool {
    forall|k: int|
        0 <= k < ls.len() - 1 ==> utf8_len(#[trigger] ls[k]) + 1 + utf8_len(first_word(ls[k + 1]))
            > max_width
}

proof fn lemma_wrap_greedy(ws: Seq<Seq<char>>, max_width: int)
    requires
        max_width >= 0,
        forall|i: int| 0 <= i < ws.len() ==> is_word(#[trigger] ws[i]),
    ensures
        greedy(lines(wrap_words(ws, max_width).0), max_width),
    decreases ws.len(),
{
    if ws.len() == 0 {
        assert(lines(Seq::<char>::empty()) =~= seq![Seq::<char>::empty()]);
    } else {
        let pre = ws.drop_last();
        assert forall|i: int| 0 <= i < pre.len() implies is_word(#[trigger] pre[i]) by {
            assert(pre[i] == ws[i]);
        }
        lemma_wrap_greedy(pre, max_width);
        lemma_wrap_lines_step(ws, max_width);
        let (out, cur) = wrap_words(pre, max_width);
        let ls = lines(out);
        let ls2 = lines(wrap_words(ws, max_width).0);
        let w = ws.last();
        assert(is_word(ws[ws.len() - 1]));
        let wl = utf8_len(w) as int;
        if cur + wl + 1 > max_width {
            lemma_first_word_of_word(w);
            assert forall|k: int| 0 <= k < ls2.len() - 1 implies utf8_len(#[trigger] ls2[k]) + 1
                + utf8_len(first_word(ls2[k + 1])) > max_width by {
                assert(ls2[k] == ls[k]);
                if k < ls.len() - 1 {
                    assert(ls2[k + 1] == ls[k + 1]);
                } else {
                    assert(ls2[k + 1] == w);
                }
            }
        } else if out.len() > 0 && cur > 0 {
            lemma_first_word_extend(ls.last(), w);
            assert forall|k: int| 0 <= k < ls2.len() - 1 implies utf8_len(#[trigger] ls2[k]) + 1
                + utf8_len(first_word(ls2[k + 1])) > max_width by {
                assert(ls2[k] == ls[k]);
                if k < ls.len() - 2 {
                    assert(ls2[k + 1] == ls[k + 1]);
                } else {
                    assert(ls2[k + 1] == ls.last() + seq![' '] + w);
                    assert(ls[k + 1] == ls.last());
                }
            }
        } else {
        }
    }
}

/// Wrapping is greedy: a line break stands only where the next word would not
/// have fitted on the line before it, after a space.
pub proof fn law_wrap_is_greedy(text: Seq<char>, max_width: int)
    requires
        max_width >= 0,
    ensures
        greedy(lines(wrapped(text, max_width)), max_width),
{
    lemma_words_are_words(text);
    lemma_wrap_greedy(words(text), max_width);
}

proof fn lemma_wrap_short_words(ws: Seq<Seq<char>>, max_width: int)
    requires
        max_width >= 0,
        forall|i: int| 0 <= i < ws.len() ==> is_word(#[trigger] ws[i]),
        forall|i: int| 0 <= i < ws.len() ==> utf8_len(#[trigger] ws[i]) < max_width,
    ensures
        forall|k: int|
            0 <= k < lines(wrap_words(ws, max_width).0).len() ==> utf8_len(
                #[trigger] lines(wrap_words(ws, max_width).0)[k],
            ) <= max_width,
        wrap_words(ws, max_width).0.len() == 0 || wrap_words(ws, max_width).0[0] != '\n',
    decreases ws.len(),
{
    if ws.len() == 0 {
        assert(lines(Seq::<char>::empty()) =~= seq![Seq::<char>::empty()]);
        assert(utf8_len(Seq::<char>::empty()) == 0) by {
            assert(vstd::utf8::encode_utf8(Seq::<char>::empty()) =~= Seq::<u8>::empty());
        }
    } else {
        let pre = ws.drop_last();
        assert forall|i: int| 0 <= i < pre.len() implies is_word(#[trigger] pre[i]) by {
            assert(pre[i] == ws[i]);
        }
        assert forall|i: int| 0 <= i < pre.len() implies utf8_len(#[trigger] pre[i]) < max_width by {
            assert(pre[i] == ws[i]);
        }
        lemma_wrap_short_words(pre, max_width);
        lemma_wrap_lines_step(ws, max_width);
        let (out, cur) = wrap_words(pre, max_width);
        let out2 = wrap_words(ws, max_width).0;
        let ls = lines(out);
        let ls2 = lines(out2);
        let w = ws.last();
        assert(utf8_len(ws[ws.len() - 1]) < max_width);
        assert(is_word(ws[ws.len() - 1]));
        let wl = utf8_len(w) as int;
        if cur + wl + 1 > max_width {
            assert(out.len() > 0);
            assert(out2 == out.push('\n') + w);
            assert(out2[0] == out[0]);
            assert forall|k: int| 0 <= k < ls2.len() implies utf8_len(#[trigger] ls2[k]) <= max_width by {
                if k < ls.len() {
                    assert(ls2[k] == ls[k]);
                }
            }
        } else if out.len() > 0 && cur > 0 {
            assert(out2 == out.push(' ') + w);
            assert(out2[0] == out[0]);
            assert forall|k: int| 0 <= k < ls2.len() implies utf8_len(#[trigger] ls2[k]) <= max_width by {
                if k < ls.len() - 1 {
                    assert(ls2[k] == ls[k]);
                }
            }
        } else {
            assert(out2 == out + w);
            assert(out2[0] == w[0]);
            assert(!is_ws(w[0]));
            assert forall|k: int| 0 <= k < ls2.len() implies utf8_len(#[trigger] ls2[k]) <= max_width by {
                assert(ls2[k] == w);
            }
        }
    }
}

/// When every word is shorter than `max_width` bytes, every line fits and the
/// text does not start with a line break.
pub proof fn law_wrap_short_words_fit(text: Seq<char>, max_width: int)
    requires
        max_width >= 0,
        forall|i: int| 0 <= i < words(text).len() ==> utf8_len(#[trigger] words(text)[i]) < max_width,
    ensures
        forall|k: int|
            0 <= k < lines(wrapped(text, max_width)).len() ==> utf8_len(
                #[trigger] lines(wrapped(text, max_width))[k],
            ) <= max_width,
        wrapped(text, max_width).len() == 0 || wrapped(text, max_width)[0] != '\n',
{
    lemma_words_are_words(text);
    lemma_wrap_short_words(words(text), max_width);
}

} // verus!
