//! Feed items and the feed list.

use vstd::prelude::*;

use crate::db::{table_full_message, add_entry_to_db, init_current_entry, DbEntry, EntryTable, EntryView, TableView};
use crate::guard::{check_duration_risk, duration_risk};
use crate::text::{trim, trim_str};

verus! {

/// What the ticker reads of one entry of a parsed feed.
#[derive(Debug, Clone)]
pub struct FeedItem {
    pub title: Option<String>,
    pub links: Vec<String>,
    pub summary: Option<String>,
}

/// The value of a [`FeedItem`]: title, links and summary.
pub struct FeedItemView {
    pub title: Option<Seq<char>>,
    pub links: Seq<Seq<char>>,
    pub summary: Option<Seq<char>>,
}

impl View for FeedItem {
    type V = FeedItemView;

    open spec fn view(&self) -> FeedItemView {
        FeedItemView {
            title: match self.title {
                Some(t) => Some(t@),
                None => None,
            },
            links: self.links@.map_values(|l: String| l@),
            summary: match self.summary {
                Some(t) => Some(t@),
                None => None,
            },
        }
    }
}

impl FeedItemView {
    /// The entry that a feed item gives: its title, its first link and its
    /// summary, each empty when the feed has none.
    pub open spec fn db_entry(self) -> EntryView {
        EntryView {
            title: match self.title {
                Some(t) => t,
                None => Seq::empty(),
            },
            link: if self.links.len() > 0 {
                self.links[0]
            } else {
                Seq::empty()
            },
            summary: match self.summary {
                Some(t) => t,
                None => Seq::empty(),
            },
        }
    }
}

/// A copy of an optional string, or the empty string.
fn string_or_empty(s: &Option<String>) -> (r: String)
    ensures
        r@ == match s {
            Some(t) => t@,
            None => Seq::<char>::empty(),
        },
{
    match s {
        Some(t) => t.clone(),
        None => String::new(),
    }
}

impl FeedItem {
    /// The entry that this item gives: its title, its first link and its
    /// summary, each empty when the feed has none.
    pub fn to_db_entry(&self) -> (r: DbEntry)
        ensures
            r@ == self@.db_entry(),
    {
        let link = if self.links.len() > 0 {
            self.links[0].clone()
        } else {
            String::new()
        };
        DbEntry::new(string_or_empty(&self.title), link, string_or_empty(&self.summary))
    }
}

/// The values of a list of strings.
pub open spec fn strings_view(v: Seq<String>) -> Seq<Seq<char>> {
    v.map_values(|s: String| s@)
}

/// The values of a list of feed items.
pub open spec fn items_view(v: Seq<FeedItem>) -> Seq<FeedItemView> {
    v.map_values(|i: FeedItem| i@)
}

/// The values of a list of entries.
pub open spec fn entries_view(v: Seq<DbEntry>) -> Seq<EntryView> {
    v.map_values(|e: DbEntry| e@)
}

/// Whether a line of the feeds file names a feed: once trimmed it is not
/// empty and is no comment (a comment starts with `#`).
pub open spec fn is_feed_line(line: Seq<char>) -> bool {
    trim(line).len() > 0 && trim(line)[0] != '#'
}

/// The feed URLs that lines of a feeds file give: each line that names a
/// feed, trimmed, in the order of the lines.
pub open spec fn feed_urls(lines: Seq<Seq<char>>) -> Seq<Seq<char>>
    decreases lines.len(),
{
    if lines.len() == 0 {
        Seq::empty()
    } else if is_feed_line(lines.last()) {
        feed_urls(lines.drop_last()).push(trim(lines.last()))
    } else {
        feed_urls(lines.drop_last())
    }
}

/// What reading the feeds file gave.
pub enum FeedsFile {
    /// There is no file at the path.
    NotFound,
    /// The file exists but could not be opened; the reason.
    OpenFailed(String),
    /// The lines of the file; a line that could not be read is empty.
    Lines(Vec<String>),
}

/// The feed URLs that the feeds file at `path` lists, one per line; blank
/// lines and lines that start with `#` are skipped and each URL is trimmed.
/// Fails when the file does not exist, cannot be opened, or lists no URL.
pub fn read_feed_urls(path: &str, file: FeedsFile) -> (r: Result<Vec<String>, String>)
    ensures
        match file {
            FeedsFile::NotFound => r matches Err(m) && m@ == "Feeds file not found: "@ + path@,
            FeedsFile::OpenFailed(why) => r matches Err(m) && m@ == "Unable to open "@ + path@ + ": "@ + why@,
            FeedsFile::Lines(lines) => {
                let urls = feed_urls(strings_view(lines@));
                &&& urls.len() == 0 ==> (r matches Err(m) && m@ == "No valid URLs found in feeds file"@)
                &&& urls.len() > 0 ==> (r matches Ok(v) && strings_view(v@) == urls)
            },
        },
{
    match file {
        FeedsFile::NotFound => {
            let mut m = String::from_str("Feeds file not found: ");
            m.append(path);
            Err(m)
        },
        FeedsFile::OpenFailed(why) => {
            let mut m = String::from_str("Unable to open ");
            m.append(path);
            m.append(": ");
            m.append(why.as_str());
            Err(m)
        },
        FeedsFile::Lines(lines) => {
            let ghost lv = strings_view(lines@);
            let mut urls: Vec<String> = Vec::new();
            let mut i: usize = 0;
            while i < lines.len()
                invariant
                    i <= lines.len(),
                    lv == strings_view(lines@),
                    strings_view(urls@) == feed_urls(lv.take(i as int)),
                decreases lines.len() - i,
            {
                let trimmed = trim_str(lines[i].as_str());
                proof {
                    assert(lv.take(i + 1).drop_last() =~= lv.take(i as int));
                    assert(lv.take(i + 1).last() == lines@[i as int]@);
                }
                if trimmed.unicode_len() > 0 && trimmed.as_str().get_char(0) != '#' {
                    let ghost before = urls@;
                    urls.push(trimmed);
                    assert(strings_view(urls@) =~= strings_view(before).push(trimmed@));
                }
                i = i + 1;
            }
            assert(lv.take(lines.len() as int) =~= lv);
            if urls.len() == 0 {
                Err(String::from_str("No valid URLs found in feeds file"))
            } else {
                Ok(urls)
            }
        },
    }
}

/// The items of the feeds that were fetched, in order; the feeds that failed
/// give none.
pub open spec fn fetched_items(results: Seq<Result<Vec<FeedItem>, String>>) -> Seq<FeedItemView>
    decreases results.len(),
{
    if results.len() == 0 {
        Seq::empty()
    } else {
        match results.last() {
            Ok(items) => fetched_items(results.drop_last()) + items_view(items@),
            Err(_) => fetched_items(results.drop_last()),
        }
    }
}

/// Gathers the items of all feeds that were fetched, in order, skipping the
/// feeds that failed.
pub fn collect_fetched(results: Vec<Result<Vec<FeedItem>, String>>) -> (r: Vec<FeedItem>)
    ensures
        items_view(r@) == fetched_items(results@),
{
    let ghost rs = results@;
    let mut all: Vec<FeedItem> = Vec::new();
    for res in it: results
        invariant
            rs == it.seq(),
            items_view(all@) == fetched_items(rs.take(it.index())),
    {
        proof {
            assert(rs.take(it.index() + 1).drop_last() =~= rs.take(it.index()));
            assert(rs.take(it.index() + 1).last() == res);
        }
        let ghost before = all@;
        match res {
            Ok(mut items) => {
                let ghost iv = items@;
                all.append(&mut items);
                assert(items_view(all@) =~= items_view(before) + items_view(iv));
            },
            Err(_) => {},
        }
    }
    assert(rs.take(rs.len() as int) =~= rs);
    all
}

/// The table after adding the entries of `items` one after the other, the
/// entries that were new, and whether an insertion failed (which stops the
/// adding).
pub open spec fn add_all(t: TableView, items: Seq<FeedItemView>) -> (TableView, Seq<EntryView>, bool)
    decreases items.len(),
{
    if items.len() == 0 {
        (t, Seq::empty(), false)
    } else {
        let (t1, added, failed) = add_all(t, items.drop_last());
        let e = items.last().db_entry();
        if failed {
            (t1, added, true)
        } else if t1.ignores(e.link) {
            (t1, added, false)
        } else if t1.last_id < i64::MAX {
            (t1.inserted(e), added.push(e), false)
        } else {
            (t1, added, true)
        }
    }
}

/// Adds the entries of the fetched items to the table, skipping those whose
/// link is already there when links are kept unique, then makes the first
/// row current if none is.
/// Returns the entries that were new, in order. When an insertion fails the
/// error is returned and the entries added before it stay.
pub fn refresh_with_entries(table: &mut EntryTable, items: &Vec<FeedItem>) -> (r: Result<Vec<DbEntry>, String>)
    requires
        old(table)@.wf(),
    ensures
        final(table)@.wf(),
        ({
            let (t, added, failed) = add_all(old(table)@, items_view(items@));
            &&& failed ==> (r matches Err(m) && m@ == table_full_message() && final(table)@ == t)
            &&& !failed ==> (r matches Ok(v) && entries_view(v@) == added && final(table)@ == t.initialized())
        }),
{
    let ghost iv = items_view(items@);
    let ghost start = table@;
    let mut added: Vec<DbEntry> = Vec::new();
    let mut i: usize = 0;
    while i < items.len()
        invariant
            i <= items.len(),
            iv == items_view(items@),
            start == old(table)@,
            table@.wf(),
            add_all(start, iv.take(i as int)) == (table@, entries_view(added@), false),
        decreases items.len() - i,
    {
        proof {
            assert(iv.take(i + 1).drop_last() =~= iv.take(i as int));
            assert(iv.take(i + 1).last() == items@[i as int]@);
        }
        let ghost before = added@;
        let inserted = add_entry_to_db(table, &items[i]);
        match inserted {
            Ok(true) => {
                added.push(items[i].to_db_entry());
                assert(entries_view(added@) =~= entries_view(before).push(items@[i as int]@.db_entry()));
            },
            Ok(false) => {},
            Err(e) => {
                proof {
                    assert(add_all(start, iv.take(i + 1)).2);
                    lemma_add_all_failed_stays(start, iv, i + 1);
                }
                return Err(e);
            },
        }
        i = i + 1;
    }
    assert(iv.take(items.len() as int) =~= iv);
    init_current_entry(table);
    Ok(added)
}

/// Once an insertion has failed, adding more items changes nothing.
proof fn lemma_add_all_failed_stays(t: TableView, items: Seq<FeedItemView>, k: int)
    requires
        0 <= k <= items.len(),
        add_all(t, items.take(k)).2,
    ensures
        add_all(t, items) == add_all(t, items.take(k)),
    decreases items.len() - k,
{
    if k < items.len() {
        assert(items.take(k + 1).drop_last() =~= items.take(k));
        lemma_add_all_failed_stays(t, items, k + 1);
    } else {
        assert(items.take(k) =~= items);
    }
}

#[verifier::external_type_specification]
#[verifier::external_body]
pub struct ExParseFeedError(feed_rs::parser::ParseFeedError);

/// The title text, link targets and summary text of each entry of the feed
/// that `feed_rs` parses from `body`, in order; `None` when it cannot parse
/// one.
pub uninterp spec fn parsed_feed(body: Seq<u8>) -> Option<Seq<FeedItemView>>;

/// Parses a feed document (`feed_rs::parser::parse`) and keeps of each entry
/// its title text, its link targets and its summary text. The contract
/// claims that the outcome depends on the bytes alone: whether parsing
/// succeeds, and those fields of each entry.
///
/// `feed_rs` 2.4 reads durations (the text of `itunes:duration`, and the
/// `start`, `end` and `time` attributes of Media RSS) with a regex of `\d`
/// runs and `parse::<u64>().unwrap()`, which panics on a run that does not
/// fit a `u64` or that holds digits other than ASCII ones. The `requires`
/// leaves out every document on which `duration_risk` holds; on the others
/// such a text, once decoded, is ASCII with runs of at most fifteen digits:
/// its bytes are decoded one for one (no byte of a non-ASCII character, no
/// sixteen-bit encoding named by a byte order mark or a declaration, no
/// NUL or ESC byte), no character reference, comment, CDATA section or
/// processing instruction stands in it, and a quoted attribute value or an
/// element's text lies within the region that `duration_risk` inspects.
/// Fifteen digits of hours times 3600, plus minutes and seconds, fit a `u64`.
#[verifier::external_body]
fn parse_feed_items(body: &[u8]) -> (r: Result<Vec<FeedItem>, feed_rs::parser::ParseFeedError>)
    requires
        !duration_risk(body@),
    ensures
        r is Ok <==> parsed_feed(body@) is Some,
        r matches Ok(items) ==> items_view(items@) == parsed_feed(body@)->0,
{
    feed_rs::parser::parse(body).map(|feed| {
        feed.entries.into_iter().map(|e| FeedItem {
            title: e.title.map(|t| t.content),
            links: e.links.into_iter().map(|l| l.href).collect(),
            summary: e.summary.map(|t| t.content),
        }).collect()
    })
}

/// The message of a feed that is refused for a duration that cannot be read
/// safely.
pub open spec fn unsafe_duration_message() -> Seq<char> {
    "Format error: the feed holds a duration that cannot be read safely"@
}

/// The items of the feed document `body` (RSS, Atom or JSON Feed). A document
/// that may hold a duration the parser cannot read safely (`duration_risk`)
/// is refused with [`unsafe_duration_message`]. Otherwise it fails with
/// `Format error: ` and the parser's description of the error when it is no
/// feed.
pub fn parse_feed(body: &[u8]) -> (r: Result<Vec<FeedItem>, String>)
    ensures
        duration_risk(body@) ==> (r matches Err(m) && m@ == unsafe_duration_message()),
        !duration_risk(body@) ==> (r is Ok <==> parsed_feed(body@) is Some),
        !duration_risk(body@) ==> (r matches Ok(items) ==> items_view(items@) == parsed_feed(body@)->0),
        !duration_risk(body@) ==> (r matches Err(m) ==> m@.take(14) == "Format error: "@ && exists|e: feed_rs::parser::ParseFeedError, why: String|
            vstd::string::to_string_from_display_ensures::<feed_rs::parser::ParseFeedError>(&e, why)
                && m@ == "Format error: "@ + why@),
{
    if check_duration_risk(body) {
        return Err(String::from_str("Format error: the feed holds a duration that cannot be read safely"));
    }
    match parse_feed_items(body) {
        Ok(items) => Ok(items),
        Err(e) => {
            let mut m = String::from_str("Format error: ");
            let reason = e.to_string();
            m.append(reason.as_str());
            proof {
                reveal_strlit("Format error: ");
                assert(m@.take(14) =~= "Format error: "@);
                assert(vstd::string::to_string_from_display_ensures::<feed_rs::parser::ParseFeedError>(&e, reason));
            }
            Err(m)
        },
    }
}

/// Every URL that a feeds file gives is trimmed, not empty and no comment.
pub proof fn lemma_feed_urls_clean(lines: Seq<Seq<char>>)
    ensures
        forall|k: int| 0 <= k < feed_urls(lines).len() ==> {
            let u = #[trigger] feed_urls(lines)[k];
            &&& u.len() > 0
            &&& u[0] != '#'
            &&& trim(u) == u
        },
    decreases lines.len(),
{
    if lines.len() > 0 {
        let p = lines.drop_last();
        lemma_feed_urls_clean(p);
        crate::text::lemma_trim_idempotent(lines.last());
        let r = feed_urls(lines);
        assert forall|k: int| 0 <= k < r.len() implies {
            let u = #[trigger] r[k];
            &&& u.len() > 0
            &&& u[0] != '#'
            &&& trim(u) == u
        } by {
            if k < feed_urls(p).len() {
                assert(r[k] == feed_urls(p)[k]);
            }
        }
    }
}

/// Adding items keeps the table well-formed, keeps every link that was
/// there, keeps the current position, grows the table by the entries that
/// were new, and, unless an insertion failed, leaves the link of every item
/// present.
pub proof fn lemma_add_all_grows(t: TableView, items: Seq<FeedItemView>)
    requires
        t.wf(),
    ensures
        ({
            let (u, added, failed) = add_all(t, items);
            &&& u.wf()
            &&& u.current == t.current
            &&& u.unique == t.unique
            &&& u.len() == t.len() + added.len()
            &&& forall|l: Seq<char>| t.has_link(l) ==> u.has_link(l)
            &&& !failed ==> forall|k: int| 0 <= k < items.len() ==> u.has_link(#[trigger] items[k].db_entry().link)
        }),
    decreases items.len(),
{
    if items.len() > 0 {
        let p = items.drop_last();
        lemma_add_all_grows(t, p);
        let (t1, added1, failed1) = add_all(t, p);
        let e = items.last().db_entry();
        if !failed1 && !t1.ignores(e.link) && t1.last_id < i64::MAX {
            crate::db::lemma_inserted(t1, e);
        }
        let (u, added, failed) = add_all(t, items);
        if !failed {
            assert forall|k: int| 0 <= k < items.len() implies u.has_link(#[trigger] items[k].db_entry().link) by {
                if k < items.len() - 1 {
                    assert(p[k] == items[k]);
                }
            }
        }
    }
}

/// In a table that keeps links unique, adding items whose links are all
/// present changes nothing and adds no entry.
pub proof fn lemma_add_all_present(t: TableView, items: Seq<FeedItemView>)
    requires
        t.unique,
        forall|k: int| 0 <= k < items.len() ==> t.has_link(#[trigger] items[k].db_entry().link),
    ensures
        add_all(t, items) == (t, Seq::<EntryView>::empty(), false),
    decreases items.len(),
{
    if items.len() > 0 {
        let p = items.drop_last();
        assert forall|k: int| 0 <= k < p.len() implies t.has_link(#[trigger] p[k].db_entry().link) by {
            assert(p[k] == items[k]);
        }
        lemma_add_all_present(t, p);
        assert(t.has_link(items[items.len() - 1].db_entry().link));
    }
}

/// In a table that keeps links unique, refreshing a second time with the
/// same items adds no entry and changes nothing: entries are told apart by
/// their links.
pub proof fn lemma_refresh_again(t: TableView, items: Seq<FeedItemView>)
    requires
        t.wf(),
        t.unique,
        !add_all(t, items).2,
    ensures
        ({
            let u = add_all(t, items).0.initialized();
            add_all(u, items) == (u, Seq::<EntryView>::empty(), false)
        }),
{
    lemma_add_all_grows(t, items);
    let u0 = add_all(t, items).0;
    let u = u0.initialized();
    assert forall|k: int| 0 <= k < items.len() implies u.has_link(#[trigger] items[k].db_entry().link) by {
        assert(u0.has_link(items[k].db_entry().link));
        let i = choose|i: int| 0 <= i < u0.len() && #[trigger] u0.rows[i].entry.link == items[k].db_entry().link;
        assert(u.rows[i].entry.link == items[k].db_entry().link);
    }
    lemma_add_all_present(u, items);
}

} // verus!
