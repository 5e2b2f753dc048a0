use madokami::adapter::{
    chapter_from_row, chapters_from_rows, detail_title, entries_from_links, entry_from_href,
    handle_deep_link, listing_kind, page_list, page_url, page_urls, recent_listing, recent_url,
    search_result, search_url, site_url,
    status_from_text, ChapterRow, DeepLink, ListingError, ListingKind, SeriesStatus,
};

fn row(href: Option<&str>, title: &str, date: &str) -> ChapterRow {
    ChapterRow {
        href: href.map(|h| h.to_string()),
        title: Some(title.to_string()),
        date_text: Some(date.to_string()),
    }
}

#[test]
fn status_vocabulary() {
    assert_eq!(status_from_text("Yes"), SeriesStatus::Completed);
    assert_eq!(status_from_text("No"), SeriesStatus::Ongoing);
    assert_eq!(status_from_text(""), SeriesStatus::Unknown);
    assert_eq!(status_from_text("yes"), SeriesStatus::Unknown);
    assert_eq!(status_from_text("Ongoing"), SeriesStatus::Unknown);
}

#[test]
fn chapters_come_oldest_first() {
    let rows = vec![
        row(Some("/reader/5"), "Ch. 5", "1 min ago"),
        row(Some("/reader/4"), "Ch. 4", "2 min ago"),
        row(Some("reader/3"), "Ch. 3", "3 min ago"),
    ];
    let chapters = chapters_from_rows(&rows);
    let keys: Vec<&str> = chapters.iter().map(|c| c.key.as_str()).collect();
    assert_eq!(keys, vec!["/reader/3", "/reader/4", "/reader/5"]);
    let titles: Vec<Option<String>> = chapters.iter().map(|c| c.title.clone()).collect();
    assert_eq!(
        titles,
        vec![Some("Ch. 3".to_string()), Some("Ch. 4".to_string()), Some("Ch. 5".to_string())]
    );
    let dates: Vec<i64> = chapters.iter().map(|c| c.date_uploaded).collect();
    assert_eq!(dates, vec![-180, -120, -60]);
}

#[test]
fn row_without_link_is_dropped() {
    let rows = vec![row(Some("/reader/2"), "Ch. 2", ""), row(None, "Ch. 1", "")];
    let chapters = chapters_from_rows(&rows);
    assert_eq!(chapters.len(), 1);
    assert_eq!(chapters[0].key, "/reader/2");
    assert_eq!(chapters[0].date_uploaded, 0);
    assert!(chapter_from_row(&row(None, "x", "")).is_none());
}

#[test]
fn row_without_date_has_zero_date() {
    let r = ChapterRow { href: Some("/r".to_string()), title: None, date_text: None };
    let c = chapter_from_row(&r).unwrap();
    assert_eq!(c.key, "/r");
    assert_eq!(c.title, None);
    assert_eq!(c.date_uploaded, 0);
}

#[test]
fn listing_entries_from_links() {
    let links = vec![
        Some("/Manga/A/Alpha/!Scans".to_string()),
        None,
        Some("/!x/".to_string()),
        Some("/Manga/B/Beta".to_string()),
    ];
    let entries = entries_from_links(&links);
    assert_eq!(entries.len(), 2);
    assert_eq!(entries[0].key, "/Manga/A/Alpha/!Scans");
    assert_eq!(entries[0].title, "Alpha");
    assert_eq!(entries[0].description, Some("!Scans".to_string()));
    assert_eq!(entries[1].title, "Beta");
    assert!(entry_from_href("").is_none());
}

#[test]
fn search_has_no_next_page() {
    let page = search_result(&vec![Some("/Manga/A/Alpha".to_string())]);
    assert!(!page.has_next_page);
    assert_eq!(page.entries.len(), 1);
}

#[test]
fn unsupported_listing_is_unimplemented() {
    assert_eq!(listing_kind("popular").unwrap_err(), ListingError::Unimplemented);
    assert_eq!(listing_kind("").unwrap_err(), ListingError::Unimplemented);
    assert_eq!(listing_kind("recent").unwrap(), ListingKind::Recent);
}

#[test]
fn recent_next_page_follows_anchor() {
    let links = vec![Some("/Manga/A/Alpha".to_string())];
    assert!(recent_listing(&links, true).has_next_page);
    assert!(!recent_listing(&links, false).has_next_page);
    assert_eq!(recent_listing(&links, false).entries[0].title, "Alpha");
}

#[test]
fn missing_file_list_gives_no_pages() {
    assert!(page_list("/Manga/A/Alpha", "").is_empty());
    assert!(page_list("", "[\"01.jpg\"]").is_empty());
    assert!(page_list("/Manga/A/Alpha", "not json").is_empty());
    assert!(page_list("/Manga/A/Alpha", "[1, 2]").is_empty());
}

#[test]
fn pages_follow_file_list() {
    let pages = page_list("/Manga/A b", "[\"01.jpg\", \"02 x.png\"]");
    assert_eq!(
        pages,
        vec![
            "https://manga.madokami.al/reader/image?path=%2FManga%2FA%20b&file=01.jpg".to_string(),
            "https://manga.madokami.al/reader/image?path=%2FManga%2FA%20b&file=02%20x.png"
                .to_string(),
        ]
    );
    assert_eq!(page_list("/p", "[]"), Vec::<String>::new());
}

#[test]
fn page_url_parts() {
    assert_eq!(page_url("a/b", "c&d"), "https://manga.madokami.al/reader/image?path=a%2Fb&file=c%26d");
    let urls = page_urls("p", &vec!["1".to_string(), "2".to_string()]);
    assert_eq!(urls.len(), 2);
    assert!(urls[1].ends_with("path=p&file=2"));
}

#[test]
fn detail_title_choice() {
    assert_eq!(detail_title("Old", "/Manga/A/Alpha", Some("Page".to_string())), "Page");
    assert_eq!(detail_title("Old", "/Manga/A/Alpha", Some(String::new())), "Old");
    assert_eq!(detail_title("", "/Manga/A/Alpha", None), "Alpha");
    assert_eq!(detail_title("", "/!x", None), "");
    assert_eq!(detail_title("Old", "/Manga/A/Alpha", None), "Old");
}

#[test]
fn deep_links() {
    assert!(handle_deep_link("https://example.com/Manga/A").is_none());
    assert!(handle_deep_link("https://manga.madokami").is_none());
    match handle_deep_link("https://manga.madokami.al/Manga/A/Alpha") {
        Some(DeepLink::Series { key }) => assert_eq!(key, "/Manga/A/Alpha"),
        other => panic!("unexpected {:?}", other),
    }
    match handle_deep_link("https://manga.madokami.al/reader/Manga/A/x.zip") {
        Some(DeepLink::Chapter { series_key, key }) => {
            assert_eq!(series_key, "");
            assert_eq!(key, "/reader/Manga/A/x.zip");
        }
        other => panic!("unexpected {:?}", other),
    }
    match handle_deep_link("https://manga.madokami.alreader/x") {
        Some(DeepLink::Chapter { key, .. }) => assert_eq!(key, "/reader/x"),
        other => panic!("unexpected {:?}", other),
    }
    match handle_deep_link("https://manga.madokami.alfoo") {
        Some(DeepLink::Series { key }) => assert_eq!(key, "/foo"),
        other => panic!("unexpected {:?}", other),
    }
    match handle_deep_link("https://manga.madokami.al") {
        Some(DeepLink::Series { key }) => assert_eq!(key, "/"),
        other => panic!("unexpected {:?}", other),
    }
    assert!(matches!(
        handle_deep_link("https://manga.madokami.al/Manga/readers/x"),
        Some(DeepLink::Series { .. })
    ));
}

#[test]
fn listing_keys_are_site_relative() {
    let links = vec![Some("Manga/A/Alpha".to_string()), Some("/Manga/B/Beta".to_string())];
    let entries = entries_from_links(&links);
    assert_eq!(entries[0].key, "/Manga/A/Alpha");
    assert_eq!(entries[0].title, "Alpha");
    assert_eq!(entries[1].key, "/Manga/B/Beta");
    assert_eq!(entry_from_href("x").unwrap().key, "/x");
}

#[test]
fn request_addresses() {
    assert_eq!(site_url("/Manga/A"), "https://manga.madokami.al/Manga/A");
    assert_eq!(search_url("a%20b"), "https://manga.madokami.al/search?q=a%20b");
    assert_eq!(recent_url(2), "https://manga.madokami.al/recent?page=2");
    assert_eq!(recent_url(0), "https://manga.madokami.al/recent?page=0");
    assert_eq!(recent_url(1234), "https://manga.madokami.al/recent?page=1234");
    assert_eq!(recent_url(-15), "https://manga.madokami.al/recent?page=-15");
    assert_eq!(recent_url(i32::MIN), "https://manga.madokami.al/recent?page=-2147483648");
    assert_eq!(recent_url(i32::MAX), "https://manga.madokami.al/recent?page=2147483647");
}
