//! Feed items: parsing a fetched feed and gathering the items of one fetch round.

use vstd::prelude::*;
use crate::feed_guard::{feed_parse_hazard, feed_parse_safe, ParseHazard};

verus! {

broadcast use vstd::std_specs::iter::group_iter_axioms, vstd::string::group_string_axioms;

/// One headline of the feed pane.
#[derive(Clone, Debug)]
pub struct RssItem {
    pub title: String,
    pub link: String,
}

/// The two fields of an item, as character sequences.
pub open spec fn item_view(item: RssItem) -> (Seq<char>, Seq<char>) {
    (item.title@, item.link@)
}

/// The views of a sequence of items.
pub open spec fn item_views(items: Seq<RssItem>) -> Seq<(Seq<char>, Seq<char>)> {
    items.map_values(|i: RssItem| item_view(i))
}

/// What a parsed feed entry offers: its title text, if any, and the targets of
/// its links, in document order.
pub struct FeedEntry {
    pub title: Option<String>,
    pub links: Vec<String>,
}

/// An entry as plain values.
pub open spec fn entry_view(e: FeedEntry) -> (Option<Seq<char>>, Seq<Seq<char>>) {
    (
        match e.title {
            Some(t) => Some(t@),
            None => None,
        },
        e.links@.map_values(|l: String| l@),
    )
}

/// The views of a sequence of entries.
pub open spec fn entry_views(v: Seq<FeedEntry>) -> Seq<(Option<Seq<char>>, Seq<Seq<char>>)> {
    v.map_values(|e: FeedEntry| entry_view(e))
}

/// The entries that `feed_rs` reads from a feed document (RSS, Atom or JSON
/// Feed), or `None` where it cannot parse the document.
pub uninterp spec fn parsed_feed(bytes: Seq<u8>) -> Option<Seq<(Option<Seq<char>>, Seq<Seq<char>>)>>;

#[verifier::external_type_specification]
#[verifier::external_body]
pub struct ExParseFeedError(feed_rs::parser::ParseFeedError);

/// Calls `feed_rs::parser::parse` on the bytes of a feed document and hands out,
/// for each entry in order, the content of its title and the `href` of each of its
/// links. The contract claims that the outcome depends on the bytes alone, which
/// it names `parsed_feed`; nothing more of the parser is stated. Only documents
/// that pass `feed_parse_safe` are admitted, for two panics in the parser: it
/// hands each XML declaration's encoding to quick-xml's
/// `DecodingReader::set_encoding`, which asserts when the decoder would change
/// after its 64-byte look-ahead is used up, and it unwraps a `u64` parse of the
/// digit runs of durations and media times.
#[verifier::external_body]
fn parse_feed(bytes: &[u8]) -> (r: Result<Vec<FeedEntry>, feed_rs::parser::ParseFeedError>)
    requires
        feed_parse_safe(bytes@),
    ensures
        match r {
            Ok(v) => parsed_feed(bytes@) == Some(entry_views(v@)),
            Err(_) => parsed_feed(bytes@) is None,
        },
{
    feed_rs::parser::parse(bytes).map(
        |feed|
            feed.entries.into_iter().map(
                |e|
                    FeedEntry {
                        title: e.title.map(|t| t.content),
                        links: e.links.into_iter().map(|l| l.href).collect(),
                    },
            ).collect(),
    )
}

/// The `Debug` text of a feed parse error (for the error log); nothing is
/// stated of its content.
#[verifier::external_body]
fn parse_error_text(e: &feed_rs::parser::ParseFeedError) -> String {
    format!("{:?}", e)
}


/// At most this many entries of each feed become items.
pub const MAX_ENTRIES_PER_FEED: usize = 15;

/// Title shown for an entry that has none.
pub open spec fn untitled() -> Seq<char> {
    "No Title"@
}

/// Message shown when a feed could not be fetched or read.
pub open spec fn network_error_message() -> Seq<char> {
    "Network Error: Check error.log"@
}

/// The item an entry becomes: its title (or the placeholder) and its first link
/// (or nothing).
pub open spec fn entry_item(e: (Option<Seq<char>>, Seq<Seq<char>>)) -> (Seq<char>, Seq<char>) {
    (
        match e.0 {
            Some(t) => t,
            None => untitled(),
        },
        if e.1.len() > 0 {
            e.1[0]
        } else {
            Seq::<char>::empty()
        },
    )
}

/// The items one feed contributes: its first entries, at most
/// `MAX_ENTRIES_PER_FEED` of them, in order.
pub open spec fn feed_items(entries: Seq<(Option<Seq<char>>, Seq<Seq<char>>)>) -> Seq<
    (Seq<char>, Seq<char>),
> {
    let kept = if entries.len() <= MAX_ENTRIES_PER_FEED {
        entries
    } else {
        entries.take(MAX_ENTRIES_PER_FEED as int)
    };
    kept.map_values(|e: (Option<Seq<char>>, Seq<Seq<char>>)| entry_item(e))
}

/// A feed contributes at most `MAX_ENTRIES_PER_FEED` items, and item `k` is
/// made from entry `k`: the feed's order is kept and later entries are dropped.
pub proof fn law_feed_items_are_leading_entries(entries: Seq<(Option<Seq<char>>, Seq<Seq<char>>)>)
    ensures
        feed_items(entries).len() == if entries.len() <= MAX_ENTRIES_PER_FEED {
            entries.len()
        } else {
            MAX_ENTRIES_PER_FEED as nat
        },
        forall|k: int|
            0 <= k < feed_items(entries).len() ==> #[trigger] feed_items(entries)[k] == entry_item(
                entries[k],
            ),
{
}

/// Each item takes its title from its entry, or `No Title` when the entry has
/// none, and its link from the entry's first link, or nothing when the entry
/// has no link; the link does not depend on the title.
pub proof fn law_item_fields_come_from_their_entry(entries: Seq<(Option<Seq<char>>, Seq<Seq<char>>)>)
    ensures
        forall|k: int|
            0 <= k < feed_items(entries).len() ==> {
                &&& (#[trigger] feed_items(entries)[k]).1 == (if entries[k].1.len() > 0 {
                    entries[k].1[0]
                } else {
                    Seq::<char>::empty()
                })
                &&& feed_items(entries)[k].0 == (match entries[k].0 {
                    Some(t) => t,
                    None => "No Title"@,
                })
            },
{
    law_feed_items_are_leading_entries(entries);
}

/// The items a fetched document gives, or `None` when it cannot be read. The
/// guard is part of the outcome: a document that does not pass
/// `feed_parse_safe` (one feed_rs would panic on, see `parse_feed`) gives
/// `None` like one that feed_rs cannot parse.
pub open spec fn feed_outcome(b: Seq<u8>) -> Option<Seq<(Seq<char>, Seq<char>)>> {
    if !feed_parse_safe(b) {
        None
    } else {
        match parsed_feed(b) {
            Some(es) => Some(feed_items(es)),
            None => None,
        }
    }
}

/// The outcome of one round of fetching all feeds, as it is gathered.
pub struct FeedBatch {
    pub items: Vec<RssItem>,
    pub error: Option<String>,
}

/// The `Option<String>` as an optional character sequence.
pub open spec fn opt_view(o: Option<String>) -> Option<Seq<char>> {
    match o {
        Some(s) => Some(s@),
        None => None,
    }
}

impl FeedBatch {
    /// A round that has gathered nothing yet.
    pub fn new() -> (b: Self)
        ensures
            b.items@.len() == 0,
            b.error is None,
    {
        FeedBatch { items: Vec::new(), error: None }
    }

    /// Adds the items of one parsed feed.
    pub fn add_entries(&mut self, entries: &Vec<FeedEntry>)
        ensures
            item_views(final(self).items@) == item_views(old(self).items@) + feed_items(
                entry_views(entries@),
            ),
            opt_view(final(self).error) == opt_view(old(self).error),
            final(self).items@.len() == old(self).items@.len() + (if entries@.len()
                <= MAX_ENTRIES_PER_FEED {
                entries@.len()
            } else {
                MAX_ENTRIES_PER_FEED as nat
            }),
            forall|k: int|
                0 <= k < final(self).items@.len() - old(self).items@.len() ==> {
                    let item = #[trigger] final(self).items@[old(self).items@.len() + k];
                    &&& item.link@ == (if entries@[k].links@.len() > 0 {
                        entries@[k].links@[0]@
                    } else {
                        Seq::<char>::empty()
                    })
                    &&& item.title@ == (match entries@[k].title {
                        Some(t) => t@,
                        None => "No Title"@,
                    })
                },
    {
        let n = if entries.len() <= MAX_ENTRIES_PER_FEED {
            entries.len()
        } else {
            MAX_ENTRIES_PER_FEED
        };
        let ghost start = item_views(self.items@);
        let ghost target = feed_items(entry_views(entries@));
        assert(target.len() == n);
        let mut i: usize = 0;
        while i < n
            invariant
                i <= n,
                n <= entries@.len(),
                n == target.len(),
                target == feed_items(entry_views(entries@)),
                n == (if entries@.len() <= MAX_ENTRIES_PER_FEED {
                    entries@.len()
                } else {
                    MAX_ENTRIES_PER_FEED as nat
                }),
                item_views(self.items@) == start + target.take(i as int),
                opt_view(self.error) == opt_view(old(self).error),
            decreases n - i,
        {
            let e = &entries[i];
            let title = match &e.title {
                Some(t) => t.clone(),
                None => "No Title".to_owned(),
            };
            let link = if e.links.len() > 0 {
                e.links[0].clone()
            } else {
                String::new()
            };
            assert(target[i as int] == entry_item(entry_view(entries@[i as int])));
            assert(entry_view(*e).1.len() == e.links@.len());
            if e.links.len() > 0 {
                assert(entry_view(*e).1[0] == e.links@[0]@);
            }
            let ghost before = self.items@;
            self.items.push(RssItem { title, link });
            assert(item_views(self.items@) =~= item_views(before).push(item_view(self.items@.last())));
            assert(target.take(i + 1) =~= target.take(i as int).push(target[i as int]));
            i = i + 1;
        }
        assert(target.take(n as int) =~= target);
        proof {
            let ev = entry_views(entries@);
            law_item_fields_come_from_their_entry(ev);
            let fin = self.items@;
            let o = old(self).items@;
            assert(item_views(fin).len() == fin.len());
            assert(item_views(o).len() == o.len());
            assert forall|k: int| 0 <= k < fin.len() - o.len() implies {
                let item = #[trigger] fin[o.len() + k];
                &&& item.link@ == (if entries@[k].links@.len() > 0 {
                    entries@[k].links@[0]@
                } else {
                    Seq::<char>::empty()
                })
                &&& item.title@ == (match entries@[k].title {
                    Some(t) => t@,
                    None => "No Title"@,
                })
            } by {
                assert(item_views(fin)[o.len() + k] == item_view(fin[o.len() + k]));
                assert(item_views(fin)[o.len() + k] == target[k]);
                assert(ev[k] == entry_view(entries@[k]));
                assert(feed_items(ev)[k] == target[k]);
                if entries@[k].links@.len() > 0 {
                    assert(ev[k].1[0] == entries@[k].links@[0]@);
                }
            }
        }
    }

    /// Records that a feed could not be fetched or read.
    pub fn add_failure(&mut self)
        ensures
            final(self).items@ == old(self).items@,
            opt_view(final(self).error) == Some(network_error_message()),
    {
        self.error = Some("Network Error: Check error.log".to_owned());
    }

    /// Reads one fetched feed document: its items are added when it is safe to
    /// parse and parses, and the failure is recorded otherwise. `Ok` holds the
    /// number of items added; `Err` holds a description for the error log.
    pub fn add_feed_document(&mut self, body: &[u8]) -> (r: Result<usize, String>)
        ensures
            match feed_outcome(body@) {
                Some(items) => {
                    &&& r matches Ok(n) && n == items.len()
                    &&& item_views(final(self).items@) == item_views(old(self).items@) + items
                    &&& opt_view(final(self).error) == opt_view(old(self).error)
                },
                None => {
                    &&& r is Err
                    &&& final(self).items@ == old(self).items@
                    &&& opt_view(final(self).error) == Some(network_error_message())
                },
            },
    {
        match feed_parse_hazard(body) {
            Some(ParseHazard::EncodingDeclaration) => {
                self.add_failure();
                return Err(
                    "the feed declares an encoding that the XML reader can no longer switch to".to_owned(),
                );
            },
            Some(ParseHazard::TimeValue) => {
                self.add_failure();
                return Err(
                    "the feed holds a duration or media time that the parser cannot read safely".to_owned(),
                );
            },
            None => {},
        }
        match parse_feed(body) {
            Ok(entries) => {
                let before = self.items.len();
                self.add_entries(&entries);
                assert(item_views(self.items@).len() == self.items@.len());
                assert(item_views(old(self).items@).len() == old(self).items@.len());
                Ok(self.items.len() - before)
            },
            Err(e) => {
                self.add_failure();
                Err(parse_error_text(&e))
            },
        }
    }

    /// What the round reports: its items when it gathered any; otherwise the
    /// failure message when a feed failed; otherwise nothing.
    pub fn finish(self) -> (r: Option<Result<Vec<RssItem>, String>>)
        ensures
            self.items@.len() > 0 ==> (r matches Some(Ok(v)) && v@ == self.items@),
            self.items@.len() == 0 ==> match self.error {
                Some(e) => (r matches Some(Err(m)) && m@ == e@),
                None => r is None,
            },
    {
        if self.items.len() > 0 {
            Some(Ok(self.items))
        } else {
            match self.error {
                Some(e) => Some(Err(e)),
                None => None,
            }
        }
    }
}

/// The outcome of fetching one feed: `None` when the request failed, or the
/// document it returned.
pub open spec fn fetch_outcome(r: Option<Seq<u8>>) -> Option<Seq<(Seq<char>, Seq<char>)>> {
    match r {
        Some(b) => feed_outcome(b),
        None => None,
    }
}

/// The items of a round: those of each feed that could be read, in feed order.
pub open spec fn round_items(rs: Seq<Option<Seq<u8>>>) -> Seq<(Seq<char>, Seq<char>)>
    decreases rs.len(),
{
    if rs.len() == 0 {
        Seq::empty()
    } else {
        round_items(rs.drop_last()) + match fetch_outcome(rs.last()) {
            Some(items) => items,
            None => Seq::empty(),
        }
    }
}

/// Whether some feed of the round could not be fetched or read.
pub open spec fn round_failed(rs: Seq<Option<Seq<u8>>>) -> bool
    decreases rs.len(),
{
    rs.len() > 0 && (round_failed(rs.drop_last()) || fetch_outcome(rs.last()) is None)
}

/// What a round reports: its items when there are any; otherwise the failure
/// message when a feed failed; otherwise nothing.
pub open spec fn round_report(rs: Seq<Option<Seq<u8>>>) -> Option<Result<Seq<(Seq<char>, Seq<char>)>, Seq<char>>> {
    if round_items(rs).len() > 0 {
        Some(Ok(round_items(rs)))
    } else if round_failed(rs) {
        Some(Err(network_error_message()))
    } else {
        None
    }
}

/// The documents of a round as byte sequences.
pub open spec fn fetch_views(v: Seq<Option<Vec<u8>>>) -> Seq<Option<Seq<u8>>> {
    v.map_values(|o: Option<Vec<u8>>| match o {
        Some(b) => Some(b@),
        None => None,
    })
}

/// A round's report as plain values.
pub open spec fn report_view(r: Option<Result<Vec<RssItem>, String>>) -> Option<Result<Seq<(Seq<char>, Seq<char>)>, Seq<char>>> {
    match r {
        Some(Ok(v)) => Some(Ok(item_views(v@))),
        Some(Err(e)) => Some(Err(e@)),
        None => None,
    }
}

/// Gathers one round: for each feed in order, `None` when its request failed or
/// the document it returned. Returns the round's report, and for each document
/// that could not be read its position and a description for the error log.
pub fn gather_round(fetched: &Vec<Option<Vec<u8>>>) -> (r: (Option<Result<Vec<RssItem>, String>>, Vec<(usize, String)>))
    ensures
        report_view(r.0) == round_report(fetch_views(fetched@)),
        forall|k: int|
            0 <= k < r.1@.len() ==> {
                let i = (#[trigger] r.1@[k]).0 as int;
                &&& 0 <= i < fetched@.len()
                &&& fetched@[i] is Some
                &&& fetch_outcome(fetch_views(fetched@)[i]) is None
            },
{
    let ghost rs = fetch_views(fetched@);
    let mut batch = FeedBatch::new();
    let mut unread: Vec<(usize, String)> = Vec::new();
    let mut i: usize = 0;
    assert(rs.take(0) =~= Seq::<Option<Seq<u8>>>::empty());
    while i < fetched.len()
        invariant
            i <= fetched@.len(),
            rs == fetch_views(fetched@),
            item_views(batch.items@) == round_items(rs.take(i as int)),
            (opt_view(batch.error) is Some) == round_failed(rs.take(i as int)),
            opt_view(batch.error) is Some ==> opt_view(batch.error) == Some(network_error_message()),
            forall|k: int|
                0 <= k < unread@.len() ==> {
                    let j = (#[trigger] unread@[k]).0 as int;
                    &&& 0 <= j < fetched@.len()
                    &&& fetched@[j] is Some
                    &&& fetch_outcome(rs[j]) is None
                },
        decreases fetched@.len() - i,
    {
        let ghost pre = rs.take(i as int);
        let ghost now = rs.take(i + 1);
        assert(now.drop_last() =~= pre);
        assert(now.last() == rs[i as int]);
        match &fetched[i] {
            None => {
                batch.add_failure();
                assert(round_items(now) =~= round_items(pre));
            },
            Some(body) => {
                assert(rs[i as int] == Some(body@));
                match batch.add_feed_document(body.as_slice()) {
                    Ok(_) => {},
                    Err(detail) => {
                        unread.push((i, detail));
                    },
                }
                proof {
                    if fetch_outcome(rs[i as int]) is None {
                        assert(round_items(now) =~= round_items(pre));
                    }
                }
            },
        }
        i = i + 1;
    }
    assert(rs.take(fetched@.len() as int) =~= rs);
    assert(item_views(batch.items@).len() == batch.items@.len());
    let report = batch.finish();
    (report, unread)
}

proof fn lemma_round_items_nonempty(rs: Seq<Option<Seq<u8>>>)
    ensures
        round_items(rs).len() > 0 <==> exists|i: int|
            0 <= i < rs.len() && (#[trigger] fetch_outcome(rs[i]) matches Some(items) && items.len() > 0),
    decreases rs.len(),
{
    if rs.len() > 0 {
        let pre = rs.drop_last();
        lemma_round_items_nonempty(pre);
        if round_items(pre).len() > 0 {
            let i = choose|i: int|
                0 <= i < pre.len() && (#[trigger] fetch_outcome(pre[i]) matches Some(items) && items.len() > 0);
            assert(rs[i] == pre[i]);
        }
        if exists|i: int|
            0 <= i < rs.len() && (#[trigger] fetch_outcome(rs[i]) matches Some(items) && items.len() > 0) {
            let i = choose|i: int|
                0 <= i < rs.len() && (#[trigger] fetch_outcome(rs[i]) matches Some(items) && items.len() > 0);
            if i < rs.len() - 1 {
                assert(pre[i] == rs[i]);
            }
        }
    }
}

proof fn lemma_round_failed(rs: Seq<Option<Seq<u8>>>)
    ensures
        round_failed(rs) <==> exists|i: int| 0 <= i < rs.len() && #[trigger] fetch_outcome(rs[i]) is None,
    decreases rs.len(),
{
    if rs.len() > 0 {
        let pre = rs.drop_last();
        lemma_round_failed(pre);
        if round_failed(pre) {
            let i = choose|i: int| 0 <= i < pre.len() && #[trigger] fetch_outcome(pre[i]) is None;
            assert(rs[i] == pre[i]);
        }
        if exists|i: int| 0 <= i < rs.len() && #[trigger] fetch_outcome(rs[i]) is None {
            let i = choose|i: int| 0 <= i < rs.len() && #[trigger] fetch_outcome(rs[i]) is None;
            if i < rs.len() - 1 {
                assert(pre[i] == rs[i]);
            }
        }
    }
}

/// A round reports its items exactly when some feed gave at least one item
/// (whatever other feeds failed); the failure message exactly when no feed gave
/// any item and some feed failed; and nothing otherwise.
pub proof fn law_round_report(rs: Seq<Option<Seq<u8>>>)
    ensures
        round_report(rs) is Some && round_report(rs)->0 is Ok <==> exists|i: int|
            0 <= i < rs.len() && (#[trigger] fetch_outcome(rs[i]) matches Some(items) && items.len() > 0),
        round_report(rs) == Some(Err::<Seq<(Seq<char>, Seq<char>)>, Seq<char>>(network_error_message()))
            <==> (round_items(rs).len() == 0 && exists|i: int| 0 <= i < rs.len() && #[trigger] fetch_outcome(rs[i]) is None),
        round_report(rs) is None <==> (round_items(rs).len() == 0 && forall|i: int| 0 <= i < rs.len() ==> #[trigger] fetch_outcome(rs[i]) is Some),
{
    lemma_round_items_nonempty(rs);
    lemma_round_failed(rs);
}

/// A round gives at most `MAX_ENTRIES_PER_FEED` items per feed.
pub proof fn law_round_size(rs: Seq<Option<Seq<u8>>>)
    ensures
        round_items(rs).len() <= MAX_ENTRIES_PER_FEED * rs.len(),
    decreases rs.len(),
{
    if rs.len() > 0 {
        law_round_size(rs.drop_last());
        if let Some(b) = rs.last() {
            if feed_parse_safe(b) {
                if let Some(es) = parsed_feed(b) {
                    law_feed_items_are_leading_entries(es);
                }
            }
        }
        assert(MAX_ENTRIES_PER_FEED * rs.len() == MAX_ENTRIES_PER_FEED * (rs.len() - 1) + MAX_ENTRIES_PER_FEED) by (nonlinear_arith)
            requires rs.len() > 0;
    }
}

} // verus!
