//! The table of feed entries.
//!
//! The table holds entries in order of id; a new entry gets its id from an
//! ever-increasing counter (the last id ever given is kept, as an
//! autoincrement sequence does). A table that keeps links unique ignores an
//! entry whose link is already there. At most one entry is the current one.
//! Moving forwards goes to the entry with the next larger id and wraps
//! around to the smallest; moving backwards goes to the next smaller id and
//! wraps around to the largest.

use vstd::prelude::*;

use crate::feed::FeedItem;
use crate::text::{is_json_string, json_string, json_string_value, lemma_json_string, lemma_plain_escape};

verus! {

/// A feed entry as shown to users.
#[derive(Debug, Clone)]
pub struct DbEntry {
    pub title: String,
    pub link: String,
    pub summary: String,
}

/// The value of a [`DbEntry`].
pub struct EntryView {
    pub title: Seq<char>,
    pub link: Seq<char>,
    pub summary: Seq<char>,
}

impl View for DbEntry {
    type V = EntryView;

    open spec fn view(&self) -> EntryView {
        EntryView { title: self.title@, link: self.link@, summary: self.summary@ }
    }
}

/// The text of an entry on screen: a newspaper sign and the title, then the
/// link and the summary on indented lines of their own.
pub open spec fn display_text(e: EntryView) -> Seq<char> {
    "\u{1F4F0} "@ + e.title + "\n   "@ + e.link + "\n   "@ + e.summary
}

/// The Waybar JSON object for an entry: `{"text":` and the JSON string of
/// its title, then `,"class":"feed"}`.
pub open spec fn waybar_text(e: EntryView) -> Seq<char> {
    seq!['{', '"', 't', 'e', 'x', 't', '"', ':'] + json_string(e.title) + seq![
        ',',
        '"',
        'c',
        'l',
        'a',
        's',
        's',
        '"',
        ':',
        '"',
        'f',
        'e',
        'e',
        'd',
        '"',
        '}',
    ]
}

/// The Waybar text of an entry is the JSON object with the key `text`
/// holding a JSON string that stands for the title, and the key `class`
/// holding the JSON string `feed`, in that order.
pub proof fn lemma_waybar_is_json(e: EntryView)
    ensures
        waybar_text(e) == seq!['{'] + json_string(seq!['t', 'e', 'x', 't']) + seq![':']
            + json_string(e.title) + seq![','] + json_string(seq!['c', 'l', 'a', 's', 's'])
            + seq![':'] + json_string(seq!['f', 'e', 'e', 'd']) + seq!['}'],
        is_json_string(json_string(e.title)),
        json_string_value(json_string(e.title)) == e.title,
        is_json_string(json_string(seq!['t', 'e', 'x', 't'])),
        json_string_value(json_string(seq!['t', 'e', 'x', 't'])) == seq!['t', 'e', 'x', 't'],
        is_json_string(json_string(seq!['c', 'l', 'a', 's', 's'])),
        json_string_value(json_string(seq!['c', 'l', 'a', 's', 's'])) == seq!['c', 'l', 'a', 's', 's'],
        is_json_string(json_string(seq!['f', 'e', 'e', 'd'])),
        json_string_value(json_string(seq!['f', 'e', 'e', 'd'])) == seq!['f', 'e', 'e', 'd'],
{
    lemma_json_string(e.title);
    lemma_json_string(seq!['t', 'e', 'x', 't']);
    lemma_json_string(seq!['c', 'l', 'a', 's', 's']);
    lemma_json_string(seq!['f', 'e', 'e', 'd']);
    lemma_plain_escape(seq!['t', 'e', 'x', 't']);
    lemma_plain_escape(seq!['c', 'l', 'a', 's', 's']);
    lemma_plain_escape(seq!['f', 'e', 'e', 'd']);
    assert(waybar_text(e) =~= seq!['{'] + json_string(seq!['t', 'e', 'x', 't']) + seq![':']
        + json_string(e.title) + seq![','] + json_string(seq!['c', 'l', 'a', 's', 's'])
        + seq![':'] + json_string(seq!['f', 'e', 'e', 'd']) + seq!['}']);
}

impl DbEntry {
    pub fn new(title: String, link: String, summary: String) -> (r: Self)
        ensures
            r.title == title,
            r.link == link,
            r.summary == summary,
    {
        Self { title, link, summary }
    }

    /// A copy of this entry.
    pub fn duplicate(&self) -> (r: Self)
        ensures
            r@ == self@,
    {
        DbEntry { title: self.title.clone(), link: self.link.clone(), summary: self.summary.clone() }
    }

    /// The entry as shown on a terminal.
    pub fn display(&self) -> (r: String)
        ensures
            r@ == display_text(self@),
    {
        let mut r = String::from_str("\u{1F4F0} ");
        r.append(self.title.as_str());
        r.append("\n   ");
        r.append(self.link.as_str());
        r.append("\n   ");
        r.append(self.summary.as_str());
        r
    }

    /// The entry as a Waybar JSON object.
    pub fn display_waybar(&self) -> (r: String)
        ensures
            r@ == waybar_text(self@),
    {
        let escaped_title = crate::text::escape_json(self.title.as_str());
        let mut r = String::from_str("{\"text\":\"");
        r.append(escaped_title.as_str());
        r.append("\",\"class\":\"feed\"}");
        proof {
            reveal_strlit("{\"text\":\"");
            reveal_strlit("\",\"class\":\"feed\"}");
            assert(r@ =~= waybar_text(self@));
        }
        r
    }
}


/// An entry of the table with its id.
#[derive(Debug, Clone)]
pub struct StoredEntry {
    pub id: i64,
    pub entry: DbEntry,
}

/// The value of a [`StoredEntry`].
pub struct RowView {
    pub id: int,
    pub entry: EntryView,
}

impl View for StoredEntry {
    type V = RowView;

    open spec fn view(&self) -> RowView {
        RowView { id: self.id as int, entry: self.entry@ }
    }
}

/// The value of an [`EntryTable`]: its rows in order of id, the position of
/// the current row, the last id that was given out, and whether links are
/// kept unique (a table whose link column has a unique index ignores a new
/// entry with a link that is already there; one without keeps both).
pub struct TableView {
    pub rows: Seq<RowView>,
    pub current: Option<int>,
    pub last_id: int,
    pub unique: bool,
}

impl TableView {
    pub open spec fn len(self) -> int {
        self.rows.len() as int
    }

    /// Ids are at most the last id given, and strictly increase along the
    /// rows.
    pub open spec fn ids_ok(self) -> bool {
        &&& 0 <= self.last_id <= i64::MAX
        &&& forall|i: int| 0 <= i < self.len() ==> #[trigger] self.rows[i].id <= self.last_id
        &&& forall|i: int, j: int|
            0 <= i < j < self.len() ==> #[trigger] self.rows[i].id < #[trigger] self.rows[j].id
    }

    /// No two rows have the same link.
    pub open spec fn links_unique(self) -> bool {
        forall|i: int, j: int|
            0 <= i < j < self.len() ==> #[trigger] self.rows[i].entry.link
                != #[trigger] self.rows[j].entry.link
    }

    /// The well-formedness of a table.
    pub open spec fn wf(self) -> bool {
        &&& self.ids_ok()
        &&& self.unique ==> self.links_unique()
        &&& self.current matches Some(c) ==> 0 <= c < self.len()
    }

    /// Whether some row has this link.
    pub open spec fn has_link(self, link: Seq<char>) -> bool {
        exists|i: int| 0 <= i < self.len() && #[trigger] self.rows[i].entry.link == link
    }

    /// Whether a new entry with `link` is ignored: links are kept unique and
    /// some row has it.
    pub open spec fn ignores(self, link: Seq<char>) -> bool {
        self.unique && self.has_link(link)
    }

    /// The table after a new row with the next id and entry `e`.
    pub open spec fn inserted(self, e: EntryView) -> TableView {
        TableView {
            rows: self.rows.push(RowView { id: self.last_id + 1, entry: e }),
            current: self.current,
            last_id: self.last_id + 1,
            unique: self.unique,
        }
    }

    /// The same rows with `current` as the current position.
    pub open spec fn with_current(self, current: Option<int>) -> TableView {
        TableView { rows: self.rows, current, last_id: self.last_id, unique: self.unique }
    }

    /// The id of the current row.
    pub open spec fn current_id(self) -> Option<int> {
        match self.current {
            Some(c) => Some(self.rows[c].id),
            None => None,
        }
    }

    /// The current entry.
    pub open spec fn current_entry(self) -> Option<EntryView> {
        match self.current {
            Some(c) => Some(self.rows[c].entry),
            None => None,
        }
    }

    /// Where moving forwards leads: the row after the current one, the first
    /// row (lowest id) after the last one or when there is no current row,
    /// nowhere in an empty table.
    pub open spec fn next_position(self) -> Option<int> {
        if self.len() == 0 {
            None
        } else {
            match self.current {
                Some(c) => Some(if c + 1 < self.len() { c + 1 } else { 0 }),
                None => Some(0),
            }
        }
    }

    /// Where moving backwards leads: the row before the current one, the last
    /// row before the first one or when there is no current row, nowhere in
    /// an empty table.
    pub open spec fn previous_position(self) -> Option<int> {
        if self.len() == 0 {
            None
        } else {
            match self.current {
                Some(c) => Some(if c > 0 { c - 1 } else { self.len() - 1 }),
                None => Some(self.len() - 1),
            }
        }
    }

    /// The table after making sure some row is current when there are rows:
    /// the first row becomes current when none is.
    pub open spec fn initialized(self) -> TableView {
        if self.current is None && self.len() > 0 {
            self.with_current(Some(0))
        } else {
            self
        }
    }
}

/// The table of feed entries.
pub struct EntryTable {
    rows: Vec<StoredEntry>,
    current: Option<usize>,
    last_id: i64,
    unique: bool,
}

impl View for EntryTable {
    type V = TableView;

    closed spec fn view(&self) -> TableView {
        TableView {
            rows: self.rows@.map_values(|r: StoredEntry| r@),
            current: match self.current {
                Some(c) => Some(c as int),
                None => None,
            },
            last_id: self.last_id as int,
            unique: self.unique,
        }
    }
}

impl EntryTable {
    /// An empty table whose id counter has not given out any id.
    pub fn new() -> (t: Self)
        ensures
            t@.wf(),
            t@.rows.len() == 0,
            t@.current is None,
            t@.last_id == 0,
            t@.unique,
    {
        EntryTable { rows: Vec::new(), current: None, last_id: 0, unique: true }
    }

    /// The number of rows.
    pub fn len(&self) -> (n: usize)
        ensures
            n == self@.len(),
    {
        self.rows.len()
    }

    /// The last id given out.
    pub fn last_id(&self) -> (r: i64)
        ensures
            r == self@.last_id,
    {
        self.last_id
    }

    /// The row at position `i`.
    pub fn row(&self, i: usize) -> (r: &StoredEntry)
        requires
            i < self@.len(),
        ensures
            r@ == self@.rows[i as int],
    {
        &self.rows[i]
    }

    /// The id of the current row.
    pub fn current_id(&self) -> (r: Option<i64>)
        requires
            self@.wf(),
        ensures
            r matches Some(id) ==> self@.current_id() == Some(id as int),
            r is None <==> self@.current is None,
    {
        match self.current {
            Some(c) => Some(self.rows[c].id),
            None => None,
        }
    }

    /// The position of the first row with `link`.
    pub fn position_of_link(&self, link: &str) -> (r: Option<usize>)
        ensures
            r matches Some(i) ==> i < self@.len() && self@.rows[i as int].entry.link == link@
                && forall|j: int| 0 <= j < i ==> #[trigger] self@.rows[j].entry.link != link@,
            r is None <==> !self@.has_link(link@),
    {
        self.find_link(&String::from_str(link))
    }

    /// The position of the first row with `link`.
    fn find_link(&self, link: &String) -> (r: Option<usize>)
        ensures
            r matches Some(i) ==> i < self@.len() && self@.rows[i as int].entry.link == link@
                && forall|j: int| 0 <= j < i ==> #[trigger] self@.rows[j].entry.link != link@,
            r is None <==> !self@.has_link(link@),
    {
        let mut i: usize = 0;
        while i < self.rows.len()
            invariant
                i <= self.rows.len(),
                forall|j: int| 0 <= j < i ==> #[trigger] self@.rows[j].entry.link != link@,
            decreases self.rows.len() - i,
        {
            if self.rows[i].entry.link == *link {
                assert(self@.rows[i as int].entry.link == link@);
                return Some(i);
            }
            i = i + 1;
        }
        None
    }
}

/// The message of a failed insertion: no id is left to give out.
pub open spec fn table_full_message() -> Seq<char> {
    "Failed to insert entry: database or disk is full"@
}

/// Adds `entry` with the next id unless links are kept unique and some row
/// already has its link. Returns whether it was added.
pub fn insert_entry(table: &mut EntryTable, entry: DbEntry) -> (r: Result<bool, String>)
    requires
        old(table)@.wf(),
    ensures
        final(table)@.wf(),
        old(table)@.ignores(entry@.link) ==> r == Ok::<bool, String>(false) && final(table)@ == old(table)@,
        !old(table)@.ignores(entry@.link) && old(table)@.last_id < i64::MAX ==> r == Ok::<bool, String>(true)
            && final(table)@ == old(table)@.inserted(entry@),
        !old(table)@.ignores(entry@.link) && old(table)@.last_id == i64::MAX ==> (r matches Err(m)
            && m@ == table_full_message() && final(table)@ == old(table)@),
{
    if table.unique && table.find_link(&entry.link).is_some() {
        return Ok(false);
    }
    if table.last_id == i64::MAX {
        return Err(String::from_str("Failed to insert entry: database or disk is full"));
    }
    let id = table.last_id + 1;
    let ghost before = table@;
    table.rows.push(StoredEntry { id, entry });
    table.last_id = id;
    assert(table@.rows =~= before.rows.push(RowView { id: id as int, entry: entry@ }));
    Ok(true)
}

/// The value of an optional entry.
pub open spec fn entry_view_of(r: Option<DbEntry>) -> Option<EntryView> {
    match r {
        Some(e) => Some(e@),
        None => None,
    }
}

/// The five characters that mark an entry's title as a trigger warning.
pub open spec fn trigger_warning_mark() -> Seq<char> {
    seq!['[', 'T', 'W', ']', ' ']
}

/// Whether `title` begins with the trigger-warning mark.
pub open spec fn is_marked(title: Seq<char>) -> bool {
    title.len() >= 5 && title.take(5) == trigger_warning_mark()
}

/// `title` with the trigger-warning mark put in front (once) when
/// `offensive`, or taken away when not.
pub open spec fn marked_title(title: Seq<char>, offensive: bool) -> Seq<char> {
    if offensive {
        if is_marked(title) {
            title
        } else {
            trigger_warning_mark() + title
        }
    } else {
        if is_marked(title) {
            title.skip(5)
        } else {
            title
        }
    }
}

/// Whether rows with these values, this current id, this last id and this
/// rule on links make a well-formed table.
pub open spec fn restorable(rows: Seq<RowView>, current_id: Option<int>, last_id: int, unique: bool) -> bool {
    &&& (TableView { rows, current: None, last_id, unique }).ids_ok()
    &&& unique ==> (TableView { rows, current: None, last_id, unique }).links_unique()
    &&& current_id matches Some(id) ==> exists|i: int| 0 <= i < rows.len() && #[trigger] rows[i].id == id
}

impl EntryTable {
    /// Rebuilds a table from stored rows (in order of id), the id of the
    /// current row, the last id given out, and whether links are kept unique.
    /// Fails when they would not form a well-formed table.
    pub fn restore(rows: Vec<StoredEntry>, current_id: Option<i64>, last_id: i64, unique: bool) -> (r: Option<EntryTable>)
        ensures
            r is Some <==> restorable(rows@.map_values(|e: StoredEntry| e@), match current_id {
                Some(id) => Some(id as int),
                None => None,
            }, last_id as int, unique),
            r matches Some(t) ==> {
                &&& t@.wf()
                &&& t@.rows == rows@.map_values(|e: StoredEntry| e@)
                &&& t@.last_id == last_id
                &&& t@.unique == unique
                &&& t@.current_id() == match current_id {
                    Some(id) => Some(id as int),
                    None => None,
                }
            },
    {
        let ghost rv = rows@.map_values(|e: StoredEntry| e@);
        let ghost tv = TableView { rows: rv, current: None, last_id: last_id as int, unique };
        if last_id < 0 {
            return None;
        }
        let n = rows.len();
        let mut k: usize = 0;
        while k < n
            invariant
                n == rows.len(),
                rv == rows@.map_values(|e: StoredEntry| e@),
                tv == (TableView { rows: rv, current: None, last_id: last_id as int, unique }),
                0 <= last_id,
                k <= n,
                forall|i: int| 0 <= i < k ==> #[trigger] rv[i].id <= last_id,
                forall|i: int, j: int| 0 <= i < j < k ==> #[trigger] rv[i].id < #[trigger] rv[j].id,
            decreases n - k,
        {
            let id = rows[k].id;
            assert(rv[k as int].id == id);
            if id > last_id {
                assert(!(tv.rows[k as int].id <= tv.last_id));
                return None;
            }
            if k > 0 && rows[k - 1].id >= id {
                assert(rv[k - 1].id == rows[k - 1].id);
                assert(!(tv.rows[k - 1].id < tv.rows[k as int].id));
                return None;
            }
            proof {
                assert forall|i: int, j: int| 0 <= i < j < k + 1 implies #[trigger] rv[i].id < #[trigger] rv[j].id by {
                    if j == k && i < k - 1 {
                        assert(rv[i].id < rv[k - 1].id);
                    }
                }
            }
            k = k + 1;
        }
        assert(tv.ids_ok());
        let mut a: usize = 0;
        while unique && a < n
            invariant
                n == rows.len(),
                rv == rows@.map_values(|e: StoredEntry| e@),
                tv == (TableView { rows: rv, current: None, last_id: last_id as int, unique }),
                a <= n,
                forall|i: int, j: int| 0 <= i < j < n && i < a ==> #[trigger] rv[i].entry.link != #[trigger] rv[j].entry.link,
            decreases n - a,
        {
            let mut b: usize = a + 1;
            while b < n
                invariant
                    n == rows.len(),
                    rv == rows@.map_values(|e: StoredEntry| e@),
                    tv == (TableView { rows: rv, current: None, last_id: last_id as int, unique }),
                    unique,
                    a < n,
                    a + 1 <= b <= n,
                    forall|i: int, j: int| 0 <= i < j < n && i < a ==> #[trigger] rv[i].entry.link != #[trigger] rv[j].entry.link,
                    forall|j: int| a < j < b ==> rv[a as int].entry.link != #[trigger] rv[j].entry.link,
                decreases n - b,
            {
                if rows[a].entry.link == rows[b].entry.link {
                    assert(tv.rows[a as int].entry.link == tv.rows[b as int].entry.link);
                    assert(!tv.links_unique());
                    return None;
                }
                b = b + 1;
            }
            a = a + 1;
        }
        assert(unique ==> tv.links_unique());
        let current = match current_id {
            Some(id) => match find_id(&rows, id) {
                Some(i) => Some(i),
                None => {
                    assert forall|j: int| 0 <= j < rv.len() implies #[trigger] rv[j].id != id by {
                        assert(rv[j].id == rows@[j].id);
                    }
                    assert(!(exists|j: int| 0 <= j < rv.len() && #[trigger] rv[j].id == id as int));
                    assert(!restorable(rv, Some(id as int), last_id as int, unique));
                    return None;
                },
            },
            None => None,
        };
        let t = EntryTable { rows, current, last_id, unique };
        assert(t@.rows =~= rv);
        Some(t)
    }
}

/// The position of the row with id `id`.
fn find_id(rows: &Vec<StoredEntry>, id: i64) -> (r: Option<usize>)
    ensures
        r matches Some(i) ==> i < rows.len() && rows@[i as int].id == id,
        r is None ==> forall|j: int| 0 <= j < rows.len() ==> #[trigger] rows@[j].id != id,
{
    let mut i: usize = 0;
    while i < rows.len()
        invariant
            i <= rows.len(),
            forall|j: int| 0 <= j < i ==> #[trigger] rows@[j].id != id,
        decreases rows.len() - i,
    {
        if rows[i].id == id {
            return Some(i);
        }
        i = i + 1;
    }
    None
}

/// Adds the entry that a feed item gives (see [`FeedItem::to_db_entry`])
/// unless links are kept unique and some row already has its link. Returns whether it was added.
pub fn add_entry_to_db(table: &mut EntryTable, item: &FeedItem) -> (r: Result<bool, String>)
    requires
        old(table)@.wf(),
    ensures
        final(table)@.wf(),
        ({
            let e = item@.db_entry();
            &&& old(table)@.ignores(e.link) ==> r == Ok::<bool, String>(false) && final(table)@ == old(table)@
            &&& !old(table)@.ignores(e.link) && old(table)@.last_id < i64::MAX ==> r == Ok::<bool, String>(true)
                && final(table)@ == old(table)@.inserted(e)
            &&& !old(table)@.ignores(e.link) && old(table)@.last_id == i64::MAX ==> (r matches Err(m)
                && m@ == table_full_message() && final(table)@ == old(table)@)
        }),
{
    insert_entry(table, item.to_db_entry())
}

/// The current entry.
pub fn get_current(table: &EntryTable) -> (r: Option<DbEntry>)
    requires
        table@.wf(),
    ensures
        entry_view_of(r) == table@.current_entry(),
{
    match table.current {
        Some(c) => Some(table.rows[c].entry.duplicate()),
        None => None,
    }
}

/// Makes the row at `pos` current and returns its entry.
fn set_current(table: &mut EntryTable, pos: usize) -> (r: DbEntry)
    requires
        old(table)@.wf(),
        pos < old(table)@.len(),
    ensures
        final(table)@ == old(table)@.with_current(Some(pos as int)),
        r@ == old(table)@.rows[pos as int].entry,
{
    table.current = Some(pos);
    table.rows[pos].entry.duplicate()
}

/// Moves forwards: the row with the next larger id becomes current, or the
/// first row (lowest id) after the last one or when no row is current.
/// Returns the new current entry; an empty table stays as it is.
pub fn advance_to_next(table: &mut EntryTable) -> (r: Option<DbEntry>)
    requires
        old(table)@.wf(),
    ensures
        final(table)@.wf(),
        final(table)@ == old(table)@.with_current(old(table)@.next_position()),
        entry_view_of(r) == final(table)@.current_entry(),
{
    let n = table.rows.len();
    if n == 0 {
        return None;
    }
    let pos = match table.current {
        Some(c) => if c + 1 < n { c + 1 } else { 0 },
        None => 0,
    };
    Some(set_current(table, pos))
}

/// Moves backwards: the row with the next smaller id becomes current, or the
/// last row before the first one or when no row is current. Returns the new
/// current entry; an empty table stays as it is.
pub fn go_to_previous(table: &mut EntryTable) -> (r: Option<DbEntry>)
    requires
        old(table)@.wf(),
    ensures
        final(table)@.wf(),
        final(table)@ == old(table)@.with_current(old(table)@.previous_position()),
        entry_view_of(r) == final(table)@.current_entry(),
{
    let n = table.rows.len();
    if n == 0 {
        return None;
    }
    let pos = match table.current {
        Some(c) => if c > 0 { c - 1 } else { n - 1 },
        None => n - 1,
    };
    Some(set_current(table, pos))
}

/// Makes the first row current when no row is.
pub fn init_current_entry(table: &mut EntryTable)
    requires
        old(table)@.wf(),
    ensures
        final(table)@.wf(),
        final(table)@ == old(table)@.initialized(),
{
    if table.current.is_none() && table.rows.len() > 0 {
        let ghost before = table@;
        table.current = Some(0);
        assert(table@ == before.with_current(Some(0)));
    }
}

/// Deletes every row and returns how many there were. The id counter keeps
/// its value.
pub fn purge_db(table: &mut EntryTable) -> (r: usize)
    requires
        old(table)@.wf(),
    ensures
        final(table)@.wf(),
        r == old(table)@.len(),
        final(table)@.rows.len() == 0,
        final(table)@.current is None,
        final(table)@.last_id == old(table)@.last_id,
        final(table)@.unique == old(table)@.unique,
{
    let n = table.rows.len();
    table.rows = Vec::new();
    table.current = None;
    n
}

/// Whether `title` begins with the trigger-warning mark (executable).
fn has_mark(title: &Vec<char>) -> (r: bool)
    ensures
        r == is_marked(title@),
{
    if title.len() < 5 {
        return false;
    }
    let r = title[0] == '[' && title[1] == 'T' && title[2] == 'W' && title[3] == ']' && title[4] == ' ';
    assert(r == (title@.take(5) =~= trigger_warning_mark()));
    r
}

/// Marks the title of the first entry with `link` as a trigger warning when
/// `offensive`, or takes the mark away when not. Returns whether such an
/// entry exists; the table is unchanged when none does.
pub fn set_offensive(table: &mut EntryTable, link: &str, offensive: bool) -> (r: bool)
    requires
        old(table)@.wf(),
    ensures
        final(table)@.wf(),
        r == old(table)@.has_link(link@),
        !r ==> final(table)@ == old(table)@,
        r ==> exists|i: int| 0 <= i < old(table)@.len() && #[trigger] old(table)@.rows[i].entry.link == link@
            && (forall|j: int| 0 <= j < i ==> #[trigger] old(table)@.rows[j].entry.link != link@)
            && final(table)@ == (TableView {
                rows: old(table)@.rows.update(i, RowView {
                    id: old(table)@.rows[i].id,
                    entry: EntryView {
                        title: marked_title(old(table)@.rows[i].entry.title, offensive),
                        link: old(table)@.rows[i].entry.link,
                        summary: old(table)@.rows[i].entry.summary,
                    },
                }),
                current: old(table)@.current,
                last_id: old(table)@.last_id,
                unique: old(table)@.unique,
            }),
{
    let key = String::from_str(link);
    match table.find_link(&key) {
        None => false,
        Some(i) => {
            let ghost before = table@;
            let chars = crate::text::chars_of(table.rows[i].entry.title.as_str());
            let marked = has_mark(&chars);
            let new_title = if offensive {
                if marked {
                    crate::text::string_of_range(&chars, 0, chars.len())
                } else {
                    let mut t = String::new();
                    crate::text::push_char(&mut t, '[');
                    crate::text::push_char(&mut t, 'T');
                    crate::text::push_char(&mut t, 'W');
                    crate::text::push_char(&mut t, ']');
                    crate::text::push_char(&mut t, ' ');
                    t.append(table.rows[i].entry.title.as_str());
                    assert(t@ =~= trigger_warning_mark() + before.rows[i as int].entry.title);
                    t
                }
            } else {
                if marked {
                    crate::text::string_of_range(&chars, 5, chars.len())
                } else {
                    crate::text::string_of_range(&chars, 0, chars.len())
                }
            };
            assert(chars@.subrange(0, chars@.len() as int) =~= chars@);
            if marked {
                assert(chars@.subrange(5, chars@.len() as int) =~= chars@.skip(5));
            }
            let old_row = &table.rows[i];
            let row = StoredEntry {
                id: old_row.id,
                entry: DbEntry {
                    title: new_title,
                    link: old_row.entry.link.clone(),
                    summary: old_row.entry.summary.clone(),
                },
            };
            table.rows.set(i, row);
            assert(table@.rows =~= before.rows.update(i as int, row@));
            assert(before.rows[i as int].entry.link == link@);
            assert forall|j: int| 0 <= j < before.len() implies #[trigger] table@.rows[j].id == before.rows[j].id
                && table@.rows[j].entry.link == before.rows[j].entry.link by {}
            proof {
                if before.unique {
                    assert forall|a: int, b: int| 0 <= a < b < table@.len() implies #[trigger] table@.rows[a].entry.link
                        != #[trigger] table@.rows[b].entry.link by {
                        assert(table@.rows[a].entry.link == before.rows[a].entry.link);
                        assert(table@.rows[b].entry.link == before.rows[b].entry.link);
                    }
                }
            }
            true
        },
    }
}

/// Moving forwards and then backwards comes back to the entry that was
/// current; so does moving backwards and then forwards.
pub proof fn lemma_next_then_previous(t: TableView)
    requires
        t.wf(),
        t.current is Some,
    ensures
        t.with_current(t.next_position()).with_current(
            t.with_current(t.next_position()).previous_position(),
        ) == t,
        t.with_current(t.previous_position()).with_current(
            t.with_current(t.previous_position()).next_position(),
        ) == t,
{
}

/// Moving forwards makes current the row with the least id greater than the
/// current id, or, when there is none or when no row is current, the row
/// with the least id.
pub proof fn lemma_next_is_least_greater_id(t: TableView)
    requires
        t.wf(),
        t.len() > 0,
    ensures
        ({
            let k = t.next_position()->0;
            let bound = match t.current_id() {
                Some(id) => id,
                None => 0,
            };
            &&& 0 <= k < t.len()
            &&& t.current is None ==> forall|j: int| 0 <= j < t.len() ==> t.rows[k].id <= #[trigger] t.rows[j].id
            &&& t.current is Some && (exists|j: int| 0 <= j < t.len() && #[trigger] t.rows[j].id > bound) ==> {
                &&& t.rows[k].id > bound
                &&& forall|j: int| 0 <= j < t.len() && #[trigger] t.rows[j].id > bound ==> t.rows[k].id <= t.rows[j].id
            }
            &&& t.current is Some && !(exists|j: int| 0 <= j < t.len() && #[trigger] t.rows[j].id > bound) ==> forall|j: int|
                0 <= j < t.len() ==> t.rows[k].id <= #[trigger] t.rows[j].id
        }),
{
    let k = t.next_position()->0;
    let bound = match t.current_id() {
        Some(id) => id,
        None => 0,
    };
    assert forall|j: int| 0 <= j < t.len() implies t.rows[0].id <= #[trigger] t.rows[j].id by {
        if j > 0 {
            assert(t.rows[0].id < t.rows[j].id);
        }
    }
    match t.current {
        Some(c) => {
            if c + 1 < t.len() {
                assert(t.rows[c].id < t.rows[c + 1].id);
                assert forall|j: int| 0 <= j < t.len() && #[trigger] t.rows[j].id > bound implies t.rows[k].id
                    <= t.rows[j].id by {
                    if j <= c {
                        if j < c {
                            assert(t.rows[j].id < t.rows[c].id);
                        }
                    } else if j > c + 1 {
                        assert(t.rows[c + 1].id < t.rows[j].id);
                    }
                }
            } else {
                assert forall|j: int| 0 <= j < t.len() implies !(#[trigger] t.rows[j].id > bound) by {
                    if j < c {
                        assert(t.rows[j].id < t.rows[c].id);
                    }
                }
            }
        },
        None => {},
    }
}

/// Moving backwards makes current the row with the greatest id less than the
/// current id (than one more than the greatest id when no row is current),
/// or, when there is none, the row with the greatest id.
pub proof fn lemma_previous_is_greatest_smaller_id(t: TableView)
    requires
        t.wf(),
        t.len() > 0,
    ensures
        ({
            let k = t.previous_position()->0;
            let bound = match t.current_id() {
                Some(id) => id,
                None => t.rows[t.len() - 1].id + 1,
            };
            &&& 0 <= k < t.len()
            &&& (exists|j: int| 0 <= j < t.len() && #[trigger] t.rows[j].id < bound) ==> {
                &&& t.rows[k].id < bound
                &&& forall|j: int| 0 <= j < t.len() && #[trigger] t.rows[j].id < bound ==> t.rows[j].id <= t.rows[k].id
            }
            &&& !(exists|j: int| 0 <= j < t.len() && #[trigger] t.rows[j].id < bound) ==> forall|j: int|
                0 <= j < t.len() ==> #[trigger] t.rows[j].id <= t.rows[k].id
        }),
{
    let n = t.len();
    let k = t.previous_position()->0;
    let bound = match t.current_id() {
        Some(id) => id,
        None => t.rows[n - 1].id + 1,
    };
    assert forall|j: int| 0 <= j < n implies #[trigger] t.rows[j].id <= t.rows[n - 1].id by {
        if j < n - 1 {
            assert(t.rows[j].id < t.rows[n - 1].id);
        }
    }
    match t.current {
        Some(c) => {
            if c > 0 {
                assert(t.rows[c - 1].id < t.rows[c].id);
                assert forall|j: int| 0 <= j < n && #[trigger] t.rows[j].id < bound implies t.rows[j].id
                    <= t.rows[k].id by {
                    if j >= c {
                        if j > c {
                            assert(t.rows[c].id < t.rows[j].id);
                        }
                    } else if j < c - 1 {
                        assert(t.rows[j].id < t.rows[c - 1].id);
                    }
                }
            } else {
                assert forall|j: int| 0 <= j < n implies !(#[trigger] t.rows[j].id < bound) by {
                    if j > c {
                        assert(t.rows[c].id < t.rows[j].id);
                    }
                }
            }
        },
        None => {},
    }
}

/// The table after moving forwards `k` times.
pub open spec fn advanced(t: TableView, k: nat) -> TableView
    decreases k,
{
    if k == 0 {
        t
    } else {
        let u = advanced(t, (k - 1) as nat);
        u.with_current(u.next_position())
    }
}

/// The table after moving backwards `k` times.
pub open spec fn went_back(t: TableView, k: nat) -> TableView
    decreases k,
{
    if k == 0 {
        t
    } else {
        let u = went_back(t, (k - 1) as nat);
        u.with_current(u.previous_position())
    }
}

/// After `k` moves forwards from a current row at position `c`, the row at
/// position `(c + k) mod n` is current: rows come up in order of id and wrap
/// around.
pub proof fn lemma_advanced_position(t: TableView, k: nat)
    requires
        t.wf(),
        t.current is Some,
    ensures
        advanced(t, k) == t.with_current(Some((t.current->0 + k) % t.len())),
    decreases k,
{
    let n = t.len();
    let c = t.current->0;
    if k > 0 {
        lemma_advanced_position(t, (k - 1) as nat);
        let p = (c + k - 1) % n;
        assert(0 <= p < n) by (nonlinear_arith)
            requires
                n > 0,
                p == (c + k - 1) % n,
        ;
        assert((c + k) % n == if p + 1 < n { p + 1 } else { 0 }) by (nonlinear_arith)
            requires
                n > 0,
                p == (c + k - 1) % n,
                0 <= c,
                k >= 1,
        {
            vstd::arithmetic::div_mod::lemma_add_mod_noop(c + k - 1, 1, n);
            vstd::arithmetic::div_mod::lemma_mod_self_0(n);
            if p + 1 < n {
                vstd::arithmetic::div_mod::lemma_small_mod((p + 1) as nat, n as nat);
            }
        }
    } else {
        vstd::arithmetic::div_mod::lemma_small_mod(c as nat, n as nat);
    }
}

proof fn lemma_went_back_position(t: TableView, k: nat)
    requires
        t.wf(),
        t.current is Some,
        k <= t.len(),
    ensures
        went_back(t, k) == t.with_current(Some(
            if t.current->0 >= k { t.current->0 - k } else { t.current->0 - k + t.len() },
        )),
    decreases k,
{
    if k > 0 {
        lemma_went_back_position(t, (k - 1) as nat);
    }
}

/// Moving forwards as many times as there are rows comes back to the entry
/// that was current; so does moving backwards as many times.
pub proof fn lemma_full_cycle(t: TableView)
    requires
        t.wf(),
        t.current is Some,
    ensures
        advanced(t, t.len() as nat) == t,
        went_back(t, t.len() as nat) == t,
{
    lemma_advanced_position(t, t.len() as nat);
    let n = t.len();
    let c = t.current->0;
    vstd::arithmetic::div_mod::lemma_add_mod_noop(c, n, n);
    vstd::arithmetic::div_mod::lemma_mod_self_0(n);
    vstd::arithmetic::div_mod::lemma_small_mod(c as nat, n as nat);
    lemma_went_back_position(t, t.len() as nat);
}

proof fn lemma_mod_distinct(c: int, k1: int, k2: int, n: int)
    requires
        n > 0,
        c >= 0,
        1 <= k1 < k2 <= n,
    ensures
        (c + k1) % n != (c + k2) % n,
{
    vstd::arithmetic::div_mod::lemma_fundamental_div_mod(c + k1, n);
    vstd::arithmetic::div_mod::lemma_fundamental_div_mod(c + k2, n);
    let q1 = (c + k1) / n;
    let q2 = (c + k2) / n;
    if (c + k1) % n == (c + k2) % n {
        assert(n * (q2 - q1) == k2 - k1) by (nonlinear_arith)
            requires
                c + k1 == n * q1 + (c + k1) % n,
                c + k2 == n * q2 + (c + k2) % n,
                (c + k1) % n == (c + k2) % n,
        ;
        assert(false) by (nonlinear_arith)
            requires
                n * (q2 - q1) == k2 - k1,
                0 < k2 - k1 < n,
                n > 0,
        ;
    }
}

/// Whether the row at position `j` becomes current within as many moves
/// forwards as there are rows.
pub open spec fn comes_up(t: TableView, j: int) -> bool {
    exists|k: nat| 1 <= k <= t.len() && #[trigger] advanced(t, k).current == Some(j)
}

/// Moving forwards as many times as there are rows makes every row current
/// exactly once: the moves bring up distinct rows, and every row comes up.
pub proof fn lemma_cycle_visits_each_once(t: TableView)
    requires
        t.wf(),
        t.current is Some,
    ensures
        forall|k1: nat, k2: nat|
            1 <= k1 < k2 <= t.len() ==> #[trigger] advanced(t, k1).current != #[trigger] advanced(t, k2).current,
        forall|j: int| 0 <= j < t.len() ==> #[trigger] comes_up(t, j),
{
    let n = t.len();
    let c = t.current->0;
    assert forall|k1: nat, k2: nat| 1 <= k1 < k2 <= n implies #[trigger] advanced(t, k1).current
        != #[trigger] advanced(t, k2).current by {
        lemma_advanced_position(t, k1);
        lemma_advanced_position(t, k2);
        lemma_mod_distinct(c, k1 as int, k2 as int, n);
    }
    assert forall|j: int| 0 <= j < n implies #[trigger] comes_up(t, j) by {
        let k: nat = if j > c { (j - c) as nat } else { (j - c + n) as nat };
        lemma_advanced_position(t, k);
        if j > c {
            vstd::arithmetic::div_mod::lemma_small_mod(j as nat, n as nat);
        } else {
            vstd::arithmetic::div_mod::lemma_add_mod_noop(j, n, n);
            vstd::arithmetic::div_mod::lemma_mod_self_0(n);
            vstd::arithmetic::div_mod::lemma_small_mod(j as nat, n as nat);
        }
        assert(advanced(t, k).current == Some(j));
    }
}

/// A new row keeps the table well-formed, keeps the current entry, and makes
/// its link present, so that adding the same entry again is ignored.
pub proof fn lemma_inserted(t: TableView, e: EntryView)
    requires
        t.wf(),
        !t.ignores(e.link),
        t.last_id < i64::MAX,
    ensures
        t.inserted(e).wf(),
        t.inserted(e).current_entry() == t.current_entry(),
        t.inserted(e).has_link(e.link),
        t.inserted(e).len() == t.len() + 1,
        forall|l: Seq<char>| t.has_link(l) ==> t.inserted(e).has_link(l),
{
    let u = t.inserted(e);
    assert(u.rows[t.len()].entry.link == e.link);
    if t.unique {
        assert forall|i: int, j: int| 0 <= i < j < u.len() implies #[trigger] u.rows[i].entry.link
            != #[trigger] u.rows[j].entry.link by {
            if j == t.len() {
                assert(t.rows[i].entry.link == u.rows[i].entry.link);
            } else {
                assert(t.rows[i].entry.link != t.rows[j].entry.link);
            }
        }
    }
    assert forall|l: Seq<char>| t.has_link(l) implies u.has_link(l) by {
        let i = choose|i: int| 0 <= i < t.len() && #[trigger] t.rows[i].entry.link == l;
        assert(u.rows[i].entry.link == l);
    }
}

/// Making sure some row is current a second time changes nothing, and after
/// it a table with rows has a current entry.
pub proof fn lemma_initialized(t: TableView)
    requires
        t.wf(),
    ensures
        t.initialized().wf(),
        t.initialized().initialized() == t.initialized(),
        t.len() > 0 ==> t.initialized().current is Some,
        t.current is Some ==> t.initialized() == t,
{
}

/// What is shown of an entry: the newspaper sign and a space, the whole
/// title, a line break and three spaces, the whole link, a line break and
/// three spaces, and the whole summary, nothing cut and nothing added.
pub proof fn lemma_display_shows_all(e: EntryView)
    ensures
        display_text(e).len() == 10 + e.title.len() as int + e.link.len() + e.summary.len(),
        display_text(e).take(2) == seq!['\u{1F4F0}', ' '],
        display_text(e).subrange(2, 2 + e.title.len() as int) == e.title,
        display_text(e).subrange(2 + e.title.len() as int, 6 + e.title.len() as int) == seq!['\n', ' ', ' ', ' '],
        display_text(e).subrange(6 + e.title.len() as int, 6 + e.title.len() as int + e.link.len()) == e.link,
        display_text(e).subrange(6 + e.title.len() as int + e.link.len(), 10 + e.title.len() as int + e.link.len())
            == seq!['\n', ' ', ' ', ' '],
        display_text(e).skip(10 + e.title.len() as int + e.link.len()) == e.summary,
{
    reveal_strlit("\u{1F4F0} ");
    reveal_strlit("\n   ");
    let d = display_text(e);
    let t = e.title.len() as int;
    let l = e.link.len() as int;
    assert(d.take(2) =~= seq!['\u{1F4F0}', ' ']);
    assert(d.subrange(2, 2 + t) =~= e.title);
    assert(d.subrange(2 + t, 6 + t) =~= seq!['\n', ' ', ' ', ' ']);
    assert(d.subrange(6 + t, 6 + t + l) =~= e.link);
    assert(d.subrange(6 + t + l, 10 + t + l) =~= seq!['\n', ' ', ' ', ' ']);
    assert(d.skip(10 + t + l) =~= e.summary);
}

/// Marking a title offensive puts `[TW] ` in front of it, unless it already
/// begins with exactly those five characters, in which case it stays as it
/// is; taking the mark away removes exactly those five characters, and only
/// from a title that begins with them. Marking and then unmarking a title
/// that was not marked gives it back.
pub proof fn lemma_mark_title(title: Seq<char>)
    ensures
        marked_title(title, true).len() >= 5,
        marked_title(title, true).take(5) == seq!['[', 'T', 'W', ']', ' '],
        !(title.len() >= 5 && title.take(5) == seq!['[', 'T', 'W', ']', ' ']) ==> marked_title(title, true)
            == seq!['[', 'T', 'W', ']', ' '] + title,
        title.len() >= 5 && title.take(5) == seq!['[', 'T', 'W', ']', ' '] ==> marked_title(title, true)
            == title,
        title.len() >= 5 && title.take(5) == seq!['[', 'T', 'W', ']', ' '] ==> marked_title(title, false)
            == title.skip(5),
        !(title.len() >= 5 && title.take(5) == seq!['[', 'T', 'W', ']', ' ']) ==> marked_title(title, false)
            == title,
        !(title.len() >= 5 && title.take(5) == seq!['[', 'T', 'W', ']', ' ']) ==> marked_title(
            marked_title(title, true),
            false,
        ) == title,
{
    let mark = seq!['[', 'T', 'W', ']', ' '];
    assert(trigger_warning_mark() =~= mark);
    let m = mark + title;
    assert(m.take(5) =~= mark);
    assert(m.skip(5) =~= title);
}

/// Every well-formed table can be stored and restored: its rows, the id of
/// its current row (whichever row that is, the first included), its last id
/// and its uniqueness flag are accepted by [`EntryTable::restore`].
pub proof fn lemma_restore_accepts_every_table(t: TableView)
    requires
        t.wf(),
    ensures
        restorable(t.rows, t.current_id(), t.last_id, t.unique),
{
    let u = TableView { rows: t.rows, current: None, last_id: t.last_id, unique: t.unique };
    assert(u.ids_ok());
    if let Some(c) = t.current {
        assert(t.rows[c].id == t.rows[c].id);
    }
}

} // verus!
