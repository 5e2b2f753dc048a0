//! The mapping of values scraped from the site into series, chapters, pages,
//! listings and deep links.

use crate::codec::{component_encoded, encode_component, push_char};
use crate::date::{chapter_date, parse_chapter_date};
use crate::path::{derive_from_path, derived_from_path, normalize_chapter_href, site_path_of};
use vstd::prelude::*;
use vstd::string::{StrSliceExecFns, StringExecFns, StringSliceAdditionalSpecFns};
use vstd::utf8::encode_utf8;

verus! {

/// Publication status of a series.
#[derive(Clone, Copy, Debug, PartialEq, Eq, Structural)]
pub enum SeriesStatus {
    Unknown,
    Ongoing,
    Completed,
}

/// The status that the site's status text stands for.
pub open spec fn status_for(text: Seq<char>) -> SeriesStatus {
    if text == seq!['Y', 'e', 's'] {
        SeriesStatus::Completed
    } else if text == seq!['N', 'o'] {
        SeriesStatus::Ongoing
    } else {
        SeriesStatus::Unknown
    }
}

/// Maps the status text of a series page: `Yes` is completed, `No` ongoing,
/// anything else unknown.
pub fn status_from_text(text: &str) -> (r: SeriesStatus)
    ensures
        r == status_for(text@),
{
    let n = text.unicode_len();
    if n == 3 && text.get_char(0) == 'Y' && text.get_char(1) == 'e' && text.get_char(2) == 's' {
        assert(text@ =~= seq!['Y', 'e', 's']);
        SeriesStatus::Completed
    } else if n == 2 && text.get_char(0) == 'N' && text.get_char(1) == 'o' {
        assert(text@ =~= seq!['N', 'o']);
        SeriesStatus::Ongoing
    } else {
        proof {
            if text@ == seq!['Y', 'e', 's'] {
                assert(text@[0] == 'Y' && text@[1] == 'e' && text@[2] == 's');
            }
            if text@ == seq!['N', 'o'] {
                assert(text@[0] == 'N' && text@[1] == 'o');
            }
        }
        SeriesStatus::Unknown
    }
}

/// The characters of an optional string.
pub open spec fn opt_view(o: Option<String>) -> Option<Seq<char>> {
    match o {
        Some(s) => Some(s@),
        None => None,
    }
}

/// A series as a listing shows it.
#[derive(Debug)]
pub struct SeriesEntry {
    /// Site-relative path of the series.
    pub key: String,
    pub title: String,
    pub description: Option<String>,
}

pub struct SeriesEntryView {
    pub key: Seq<char>,
    pub title: Seq<char>,
    pub description: Option<Seq<char>>,
}

impl View for SeriesEntry {
    type V = SeriesEntryView;

    open spec fn view(&self) -> SeriesEntryView {
        SeriesEntryView { key: self.key@, title: self.title@, description: opt_view(self.description) }
    }
}

/// The entry that a link to `href` makes, keyed by the link as a site-relative
/// path: none where the path yields no title.
pub open spec fn entry_for(href: Seq<char>) -> Option<SeriesEntryView> {
    let (title, description) = derived_from_path(encode_utf8(href));
    if title.len() == 0 {
        None
    } else {
        Some(
            SeriesEntryView {
                key: site_path_of(href),
                title,
                description: match description {
                    Some(d) => if d.len() > 0 {
                        Some(d)
                    } else {
                        None
                    },
                    None => None,
                },
            },
        )
    }
}

/// Builds the entry for a link to `href`, titled from its path; its key is
/// the link as a site-relative path.
pub fn entry_from_href(href: &str) -> (r: Option<SeriesEntry>)
    ensures
        match r {
            Some(e) => entry_for(href@) == Some(e@),
            None => entry_for(href@) is None,
        },
        r matches Some(e) ==> is_listed_entry(e@),
{
    let (title, description) = derive_from_path(href);
    if title.as_str().is_empty() {
        return None;
    }
    let description = match description {
        Some(d) => if d.as_str().is_empty() {
            None
        } else {
            Some(d)
        },
        None => None,
    };
    Some(SeriesEntry { key: normalize_chapter_href(href), title, description })
}

/// The entries of a listing whose rows link to `links`, in order; a row
/// without a link, or whose path yields no title, is left out.
pub open spec fn listed(links: Seq<Option<Seq<char>>>) -> Seq<SeriesEntryView>
    decreases links.len(),
{
    if links.len() == 0 {
        Seq::empty()
    } else {
        listed(links.drop_last()) + match links.last() {
            Some(h) => match entry_for(h) {
                Some(e) => seq![e],
                None => Seq::empty(),
            },
            None => Seq::empty(),
        }
    }
}

/// An entry keyed by a site-relative path, with a title.
pub open spec fn is_listed_entry(e: SeriesEntryView) -> bool {
    e.key.len() > 0 && e.key[0] == '/' && e.title.len() > 0
}

/// The views of a sequence of entries.
pub open spec fn entries_view(v: Seq<SeriesEntry>) -> Seq<SeriesEntryView> {
    v.map_values(|e: SeriesEntry| e@)
}

/// The characters of a sequence of optional strings.
pub open spec fn links_view(v: Seq<Option<String>>) -> Seq<Option<Seq<char>>> {
    v.map_values(|o: Option<String>| opt_view(o))
}

/// Builds the entries for the rows of a result table, given the link of each row.
pub fn entries_from_links(links: &Vec<Option<String>>) -> (r: Vec<SeriesEntry>)
    ensures
        entries_view(r@) == listed(links_view(links@)),
        forall|i| 0 <= i < r@.len() ==> is_listed_entry(#[trigger] r@[i]@),
{
    let mut out: Vec<SeriesEntry> = Vec::new();
    let mut i: usize = 0;
    assert(links_view(links@).subrange(0, 0) =~= Seq::<Option<Seq<char>>>::empty());
    assert(entries_view(out@) =~= Seq::<SeriesEntryView>::empty());
    while i < links.len()
        invariant
            i <= links@.len(),
            entries_view(out@) == listed(links_view(links@).subrange(0, i as int)),
            forall|k| 0 <= k < out@.len() ==> is_listed_entry(#[trigger] out@[k]@),
        decreases links@.len() - i,
    {
        let ghost before = out@;
        let ghost lv = links_view(links@);
        assert(lv.subrange(0, i + 1).drop_last() =~= lv.subrange(0, i as int));
        assert(lv.subrange(0, i + 1).last() == opt_view(links@[i as int]));
        match &links[i] {
            Some(h) => {
                match entry_from_href(h.as_str()) {
                    Some(e) => {
                        out.push(e);
                        assert(entries_view(out@) =~= entries_view(before) + seq![e@]);
                    },
                    None => {
                        assert(entries_view(before) + Seq::<SeriesEntryView>::empty()
                            =~= entries_view(before));
                    },
                }
            },
            None => {
                assert(entries_view(before) + Seq::<SeriesEntryView>::empty() =~= entries_view(
                    before,
                ));
            },
        }
        i = i + 1;
    }
    assert(links_view(links@).subrange(0, links@.len() as int) =~= links_view(links@));
    out
}

/// One page of a listing.
#[derive(Debug)]
pub struct ListingPage {
    pub entries: Vec<SeriesEntry>,
    pub has_next_page: bool,
}

/// The result of a search, whose rows link to `links`; search results come on
/// a single page.
pub fn search_result(links: &Vec<Option<String>>) -> (r: ListingPage)
    ensures
        entries_view(r.entries@) == listed(links_view(links@)),
        forall|i| 0 <= i < r.entries@.len() ==> is_listed_entry(#[trigger] r.entries@[i]@),
        !r.has_next_page,
{
    ListingPage { entries: entries_from_links(links), has_next_page: false }
}

/// The listings that the site offers.
#[derive(Clone, Copy, Debug, PartialEq, Eq, Structural)]
pub enum ListingKind {
    Recent,
}

/// Why a listing cannot be had.
#[derive(Clone, Copy, Debug, PartialEq, Eq, Structural)]
pub enum ListingError {
    /// The listing id names no listing of the site.
    Unimplemented,
}

/// The listing that an id names: only `recent` is offered.
pub fn listing_kind(id: &str) -> (r: Result<ListingKind, ListingError>)
    ensures
        id@ == seq!['r', 'e', 'c', 'e', 'n', 't'] ==> r == Ok::<ListingKind, ListingError>(
            ListingKind::Recent,
        ),
        id@ != seq!['r', 'e', 'c', 'e', 'n', 't'] ==> r == Err::<ListingKind, ListingError>(
            ListingError::Unimplemented,
        ),
{
    let n = id.unicode_len();
    if n == 6 && id.get_char(0) == 'r' && id.get_char(1) == 'e' && id.get_char(2) == 'c'
        && id.get_char(3) == 'e' && id.get_char(4) == 'n' && id.get_char(5) == 't' {
        assert(id@ =~= seq!['r', 'e', 'c', 'e', 'n', 't']);
        Ok(ListingKind::Recent)
    } else {
        proof {
            if id@ == seq!['r', 'e', 'c', 'e', 'n', 't'] {
                assert(id@[0] == 'r' && id@[1] == 'e' && id@[2] == 'c' && id@[3] == 'e' && id@[4]
                    == 'n' && id@[5] == 't');
            }
        }
        Err(ListingError::Unimplemented)
    }
}

/// A page of the recent listing, whose rows link to `links`; there is a next
/// page exactly where the page holds a pagination-next anchor.
pub fn recent_listing(links: &Vec<Option<String>>, next_anchor_present: bool) -> (r: ListingPage)
    ensures
        entries_view(r.entries@) == listed(links_view(links@)),
        forall|i| 0 <= i < r.entries@.len() ==> is_listed_entry(#[trigger] r.entries@[i]@),
        r.has_next_page == next_anchor_present,
{
    ListingPage { entries: entries_from_links(links), has_next_page: next_anchor_present }
}


/// The title of a series after its page is read: the page's own title where
/// it has a non-empty one; else, where the series has no title yet, the title
/// derived from its key, if any; else the title it had.
pub open spec fn detail_title_of(
    current: Seq<char>,
    key: Seq<char>,
    page_title: Option<Seq<char>>,
) -> Seq<char> {
    if page_title matches Some(t) && t.len() > 0 {
        page_title->0
    } else if current.len() == 0 && derived_from_path(encode_utf8(key)).0.len() > 0 {
        derived_from_path(encode_utf8(key)).0
    } else {
        current
    }
}

/// Chooses the title of a series from what it had, its key and its page.
pub fn detail_title(current: &str, key: &str, page_title: Option<String>) -> (r: String)
    ensures
        r@ == detail_title_of(current@, key@, opt_view(page_title)),
{
    if let Some(t) = page_title {
        if !t.as_str().is_empty() {
            return t;
        }
    }
    if current.is_empty() {
        let (derived, _) = derive_from_path(key);
        if !derived.as_str().is_empty() {
            return derived;
        }
    }
    current.to_owned()
}

/// What one row of a series' chapter table holds.
#[derive(Debug)]
pub struct ChapterRow {
    /// Link of the reader anchor, where the row has one.
    pub href: Option<String>,
    /// Text of the row's title anchor.
    pub title: Option<String>,
    /// Text of the row's date cell.
    pub date_text: Option<String>,
}

pub struct ChapterRowView {
    pub href: Option<Seq<char>>,
    pub title: Option<Seq<char>>,
    pub date_text: Option<Seq<char>>,
}

impl View for ChapterRow {
    type V = ChapterRowView;

    open spec fn view(&self) -> ChapterRowView {
        ChapterRowView {
            href: opt_view(self.href),
            title: opt_view(self.title),
            date_text: opt_view(self.date_text),
        }
    }
}

/// A chapter of a series.
#[derive(Debug)]
pub struct ChapterEntry {
    /// Site-relative path of the chapter's reader page.
    pub key: String,
    pub title: Option<String>,
    /// Upload time in seconds; 0 where the date could not be read.
    pub date_uploaded: i64,
}

pub struct ChapterEntryView {
    pub key: Seq<char>,
    pub title: Option<Seq<char>>,
    pub date_uploaded: int,
}

impl View for ChapterEntry {
    type V = ChapterEntryView;

    open spec fn view(&self) -> ChapterEntryView {
        ChapterEntryView {
            key: self.key@,
            title: opt_view(self.title),
            date_uploaded: self.date_uploaded as int,
        }
    }
}

/// The chapter that a row makes: none for a row without a reader link.
pub open spec fn chapter_for(row: ChapterRowView) -> Option<ChapterEntryView> {
    match row.href {
        Some(h) => Some(
            ChapterEntryView {
                key: site_path_of(h),
                title: row.title,
                date_uploaded: match row.date_text {
                    Some(d) => chapter_date(encode_utf8(d)),
                    None => 0,
                },
            },
        ),
        None => None,
    }
}

/// The chapters of a table whose rows run newest first: the chapters of the
/// rows, oldest first.
pub open spec fn chapters_of(rows: Seq<ChapterRowView>) -> Seq<ChapterEntryView>
    decreases rows.len(),
{
    if rows.len() == 0 {
        Seq::empty()
    } else {
        chapters_of(rows.drop_first()) + match chapter_for(rows[0]) {
            Some(c) => seq![c],
            None => Seq::empty(),
        }
    }
}

/// The chapter list runs opposite to the table: where every row has a reader
/// link, the chapter at position `i` is made from the row at position `i` from
/// the end.
pub proof fn lemma_chapters_reverse_rows(rows: Seq<ChapterRowView>)
    requires
        forall|i| 0 <= i < rows.len() ==> (#[trigger] rows[i]).href is Some,
    ensures
        chapters_of(rows).len() == rows.len(),
        forall|i|
            0 <= i < rows.len() ==> Some(#[trigger] chapters_of(rows)[i]) == chapter_for(
                rows[rows.len() - 1 - i],
            ),
    decreases rows.len(),
{
    if rows.len() > 0 {
        let tail = rows.drop_first();
        assert forall|i| 0 <= i < tail.len() implies (#[trigger] tail[i]).href is Some by {
            assert(tail[i] == rows[i + 1]);
        }
        lemma_chapters_reverse_rows(tail);
        assert(rows[0].href is Some);
        let rest = chapters_of(tail);
        assert forall|i| 0 <= i < rows.len() implies Some(#[trigger] chapters_of(rows)[i])
            == chapter_for(rows[rows.len() - 1 - i]) by {
            if i < rest.len() {
                assert(chapters_of(rows)[i] == rest[i]);
                assert(tail[tail.len() - 1 - i] == rows[rows.len() - 1 - i]);
            }
        }
    }
}

/// The views of a sequence of rows.
pub open spec fn rows_view(v: Seq<ChapterRow>) -> Seq<ChapterRowView> {
    v.map_values(|r: ChapterRow| r@)
}

/// The views of a sequence of chapters.
pub open spec fn chapters_view(v: Seq<ChapterEntry>) -> Seq<ChapterEntryView> {
    v.map_values(|c: ChapterEntry| c@)
}

/// Builds the chapter of one row.
pub fn chapter_from_row(row: &ChapterRow) -> (r: Option<ChapterEntry>)
    ensures
        match r {
            Some(c) => chapter_for(row@) == Some(c@),
            None => chapter_for(row@) is None,
        },
{
    match &row.href {
        Some(h) => {
            let date_uploaded = match &row.date_text {
                Some(d) => parse_chapter_date(d.as_str()),
                None => 0,
            };
            Some(
                ChapterEntry {
                    key: normalize_chapter_href(h.as_str()),
                    title: row.title.clone(),
                    date_uploaded,
                },
            )
        },
        None => None,
    }
}

/// Builds the chapter list of a series from its table rows, which the site
/// lists newest first: the result runs oldest first.
pub fn chapters_from_rows(rows: &Vec<ChapterRow>) -> (r: Vec<ChapterEntry>)
    ensures
        chapters_view(r@) == chapters_of(rows_view(rows@)),
{
    let n = rows.len();
    let mut out: Vec<ChapterEntry> = Vec::new();
    let mut j: usize = n;
    let ghost rv = rows_view(rows@);
    assert(rv.subrange(n as int, n as int) =~= Seq::<ChapterRowView>::empty());
    assert(chapters_view(out@) =~= Seq::<ChapterEntryView>::empty());
    while j > 0
        invariant
            j <= n == rows@.len(),
            rv == rows_view(rows@),
            chapters_view(out@) == chapters_of(rv.subrange(j as int, n as int)),
        decreases j,
    {
        let ghost before = out@;
        assert(rv.subrange(j - 1, n as int).drop_first() =~= rv.subrange(j as int, n as int));
        assert(rv.subrange(j - 1, n as int)[0] == rows@[j - 1]@);
        match chapter_from_row(&rows[j - 1]) {
            Some(c) => {
                out.push(c);
                assert(chapters_view(out@) =~= chapters_view(before) + seq![c@]);
            },
            None => {
                assert(chapters_view(before) + Seq::<ChapterEntryView>::empty() =~= chapters_view(
                    before,
                ));
            },
        }
        j = j - 1;
    }
    assert(rv.subrange(0, n as int) =~= rv);
    out
}


/// Origin of every request and of every link that the site hands out.
pub const BASE_URL: &'static str = "https://manga.madokami.al";

/// The address of a site-relative path on the site.
pub open spec fn site_url_of(key: Seq<char>) -> Seq<char> {
    BASE_URL@ + key
}

/// Builds the address of a series or chapter page from its key.
pub fn site_url(key: &str) -> (r: String)
    ensures
        r@ == site_url_of(key@),
{
    let r = String::from_str(BASE_URL);
    r.concat(key)
}

/// The search address for an already URI-encoded query.
pub fn search_url(encoded_query: &str) -> (r: String)
    ensures
        r@ == BASE_URL@ + "/search?q="@ + encoded_query@,
{
    let mut r = String::from_str(BASE_URL);
    r.append("/search?q=");
    r.append(encoded_query);
    r
}

/// The decimal digit for a value below ten.
pub open spec fn digit_char(v: int) -> char {
    (0x30 + v) as u8 as char
}

/// Decimal digits of a natural number, without leading zeros.
pub open spec fn digits_text(n: nat) -> Seq<char>
    decreases n,
{
    if n < 10 {
        seq![digit_char(n as int)]
    } else {
        digits_text(n / 10) + seq![digit_char((n % 10) as int)]
    }
}

/// Decimal text of an integer, with `-` before a negative one.
pub open spec fn decimal_text(n: int) -> Seq<char> {
    if n < 0 {
        seq!['-'] + digits_text((-n) as nat)
    } else {
        digits_text(n as nat)
    }
}

fn push_digits(s: &mut String, n: u64)
    ensures
        final(s)@ == old(s)@ + digits_text(n as nat),
    decreases n,
{
    if n >= 10 {
        push_digits(s, n / 10);
    }
    push_char(s, ((n % 10) as u8 + 0x30u8) as char);
}

/// The address of a page of the recent listing.
pub fn recent_url(page: i32) -> (r: String)
    ensures
        r@ == BASE_URL@ + "/recent?page="@ + decimal_text(page as int),
{
    let mut r = String::from_str(BASE_URL);
    r.append("/recent?page=");
    if page < 0 {
        push_char(&mut r, '-');
        push_digits(&mut r, (-(page as i64)) as u64);
    } else {
        push_digits(&mut r, page as u64);
    }
    r
}

/// The file names that a JSON text lists, where it is an array of strings.
pub uninterp spec fn json_string_list_of(text: Seq<char>) -> Option<Seq<Seq<char>>>;

/// The characters of each string of a sequence.
pub open spec fn strings_view(v: Seq<String>) -> Seq<Seq<char>> {
    v.map_values(|s: String| s@)
}

/// Relies on `serde_json::from_str::<Vec<String>>`: it succeeds on a JSON array
/// of strings and gives the decoded strings in order; the result depends on the
/// text alone.
#[verifier::external_body]
fn parse_file_list(text: &str) -> (r: Option<Vec<String>>)
    ensures
        match r {
            Some(v) => json_string_list_of(text@) == Some(strings_view(v@)),
            None => json_string_list_of(text@) is None,
        },
{
    serde_json::from_str::<Vec<String>>(text).ok()
}

/// The image URL of one file of a chapter.
pub open spec fn page_url_of(data_path: Seq<char>, file: Seq<char>) -> Seq<char> {
    BASE_URL@ + "/reader/image?path="@ + component_encoded(encode_utf8(data_path)) + "&file="@
        + component_encoded(encode_utf8(file))
}

/// Builds the image URL of one file of a chapter.
pub fn page_url(data_path: &str, file: &str) -> (r: String)
    ensures
        r@ == page_url_of(data_path@, file@),
{
    let mut r = String::from_str(BASE_URL);
    r.append("/reader/image?path=");
    let p = encode_component(data_path);
    r.append(p.as_str());
    r.append("&file=");
    let f = encode_component(file);
    r.append(f.as_str());
    r
}

/// Builds the image URLs of a chapter's files, one per file, in order.
pub fn page_urls(data_path: &str, files: &Vec<String>) -> (r: Vec<String>)
    ensures
        r@.len() == files@.len(),
        forall|i| 0 <= i < files@.len() ==> #[trigger] r@[i]@ == page_url_of(data_path@, files@[i]@),
{
    let mut out: Vec<String> = Vec::new();
    let mut i: usize = 0;
    while i < files.len()
        invariant
            i <= files@.len(),
            out@.len() == i,
            forall|k| 0 <= k < i ==> #[trigger] out@[k]@ == page_url_of(data_path@, files@[k]@),
        decreases files@.len() - i,
    {
        out.push(page_url(data_path, files[i].as_str()));
        i = i + 1;
    }
    out
}

/// Builds the page list of a chapter from its reader element's base path and
/// JSON file list: empty where either is empty or the list is not a JSON array
/// of strings, otherwise one image URL per file, in order.
pub fn page_list(data_path: &str, files_json: &str) -> (r: Vec<String>)
    ensures
        data_path@.len() == 0 || files_json@.len() == 0 ==> r@.len() == 0,
        data_path@.len() > 0 && files_json@.len() > 0 ==> match json_string_list_of(files_json@) {
            Some(files) => r@.len() == files.len() && forall|i|
                0 <= i < files.len() ==> #[trigger] r@[i]@ == page_url_of(data_path@, files[i]),
            None => r@.len() == 0,
        },
{
    if data_path.is_empty() || files_json.is_empty() {
        return Vec::new();
    }
    match parse_file_list(files_json) {
        Some(files) => {
            let r = page_urls(data_path, &files);
            assert forall|i| 0 <= i < files@.len() implies #[trigger] r@[i]@ == page_url_of(
                data_path@,
                strings_view(files@)[i],
            ) by {
                assert(r@[i]@ == page_url_of(data_path@, files@[i]@));
            }
            r
        },
        None => Vec::new(),
    }
}

/// Where a link into the site leads.
#[derive(Debug)]
pub enum DeepLink {
    /// A series, by its key.
    Series { key: String },
    /// A chapter, by its key; the series it belongs to is not known.
    Chapter { series_key: String, key: String },
}

/// `reader/`
pub open spec fn reader_prefix() -> Seq<char> {
    seq!['r', 'e', 'a', 'd', 'e', 'r', '/']
}

/// `/reader/`
pub open spec fn reader_segment() -> Seq<char> {
    seq!['/', 'r', 'e', 'a', 'd', 'e', 'r', '/']
}

/// True where `p` occurs in `s` at `i`.
pub open spec fn occurs_at(s: Seq<char>, p: Seq<char>, i: int) -> bool {
    0 <= i && i + p.len() <= s.len() && s.subrange(i, i + p.len()) == p
}

/// True where a site path leads to the reader: it begins with `reader/` or
/// holds `/reader/`.
pub open spec fn is_reader_path(key: Seq<char>) -> bool {
    occurs_at(key, reader_prefix(), 0) || exists|i| occurs_at(key, reader_segment(), i)
}

/// Where a URL leads: nowhere unless it begins with the site's origin; a
/// chapter where the rest is a reader path; else the series the rest names.
/// The key is the rest as a site-relative path.
pub open spec fn deep_link_for(url: Seq<char>) -> Option<(bool, Seq<char>)> {
    if occurs_at(url, BASE_URL@, 0) {
        let rest = url.subrange(BASE_URL@.len() as int, url.len() as int);
        Some((is_reader_path(rest), site_path_of(rest)))
    } else {
        None
    }
}

/// The characters of a deep link: whether it leads to a chapter, and its key.
pub open spec fn deep_link_view(d: DeepLink) -> (bool, Seq<char>) {
    match d {
        DeepLink::Series { key } => (false, key@),
        DeepLink::Chapter { key, .. } => (true, key@),
    }
}

fn occurs_in_at(s: &str, n: usize, p: &str, m: usize, i: usize) -> (r: bool)
    requires
        n == s@.len(),
        m == p@.len(),
    ensures
        r == occurs_at(s@, p@, i as int),
{
    if i > n || m > n - i {
        return false;
    }
    let mut j: usize = 0;
    while j < m
        invariant
            j <= m == p@.len(),
            i + m <= n == s@.len(),
            forall|k| 0 <= k < j ==> s@[i + k] == #[trigger] p@[k],
        decreases m - j,
    {
        if s.get_char(i + j) != p.get_char(j) {
            assert(s@.subrange(i as int, i + m)[j as int] != p@[j as int]);
            return false;
        }
        j = j + 1;
    }
    assert(s@.subrange(i as int, i + m) =~= p@);
    true
}

fn reader_path(key: &str) -> (r: bool)
    ensures
        r == is_reader_path(key@),
{
    let n = key.unicode_len();
    let prefix = "reader/";
    let segment = "/reader/";
    proof {
        reveal_strlit("reader/");
        reveal_strlit("/reader/");
    }
    assert(prefix@ =~= reader_prefix());
    assert(segment@ =~= reader_segment());
    if occurs_in_at(key, n, prefix, 7, 0) {
        return true;
    }
    let mut i: usize = 0;
    while i < n
        invariant
            i <= n == key@.len(),
            segment@ == reader_segment(),
            !occurs_at(key@, reader_prefix(), 0),
            forall|k| 0 <= k < i ==> !occurs_at(key@, reader_segment(), k),
        decreases n - i,
    {
        if occurs_in_at(key, n, segment, 8, i) {
            return true;
        }
        i = i + 1;
    }
    assert forall|k| !occurs_at(key@, reader_segment(), k) by {
        if 0 <= k < n {
        }
    }
    false
}

/// Resolves a link into the site to the series or chapter that it leads to.
pub fn handle_deep_link(url: &str) -> (r: Option<DeepLink>)
    ensures
        match r {
            Some(d) => deep_link_for(url@) == Some(deep_link_view(d)),
            None => deep_link_for(url@) is None,
        },
        r matches Some(DeepLink::Chapter { series_key, .. }) ==> series_key@.len() == 0,
        r matches Some(d) ==> deep_link_view(d).1.len() > 0 && deep_link_view(d).1[0] == '/',
{
    let n = url.unicode_len();
    proof {
        reveal_strlit("https://manga.madokami.al");
    }
    let m = BASE_URL.unicode_len();
    if !occurs_in_at(url, n, BASE_URL, m, 0) {
        return None;
    }
    let rest = url.substring_char(m, n);
    let key = normalize_chapter_href(rest);
    if reader_path(rest) {
        Some(DeepLink::Chapter { series_key: String::new(), key })
    } else {
        Some(DeepLink::Series { key })
    }
}

} // verus!
