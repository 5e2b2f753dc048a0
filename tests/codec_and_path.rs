use madokami::codec::{encode_component, hex, percent_decode};
use madokami::path::{derive_from_path, normalize_chapter_href};

#[test]
fn decodes_triplets_and_plus() {
    assert_eq!(percent_decode("a%20b+c"), "a b c");
    assert_eq!(percent_decode("%41%6a"), "Aj");
}

#[test]
fn malformed_percent_is_kept() {
    assert_eq!(percent_decode("%zz"), "%zz");
    assert_eq!(percent_decode("%4"), "%4");
    assert_eq!(percent_decode("100%"), "100%");
    assert_eq!(percent_decode(""), "");
}

#[test]
fn hex_digits() {
    assert_eq!(hex(b'0'), Some(0));
    assert_eq!(hex(b'a'), Some(10));
    assert_eq!(hex(b'F'), Some(15));
    assert_eq!(hex(b'g'), None);
}

#[test]
fn encodes_reserved_bytes() {
    assert_eq!(encode_component("a b/c~"), "a%20b%2Fc~");
    assert_eq!(encode_component("Az09-_.~"), "Az09-_.~");
    assert_eq!(encode_component("+&="), "%2B%26%3D");
    assert_eq!(encode_component("é"), "%C3%A9");
}

#[test]
fn decode_undoes_encode_on_printable_ascii() {
    let all: String = (0x20u8..0x7f).map(|b| b as char).collect();
    assert_eq!(percent_decode(&encode_component(&all)), all);
    let s = "Series Name (2020) + 100% [v1]";
    assert_eq!(percent_decode(&encode_component(s)), s);
}

#[test]
fn path_title_skips_bang_segments_description_does_not() {
    let (title, description) = derive_from_path("/Manga/S/Series-Name/!Group/Chapter-1/");
    assert_eq!(title, "Chapter-1");
    assert_eq!(description, Some("Chapter-1".to_string()));
    let (title, description) = derive_from_path("/Manga/S/Series%20Name/!Group/");
    assert_eq!(title, "Series Name");
    assert_eq!(description, Some("!Group".to_string()));
}

#[test]
fn encoded_bang_segment_is_skipped_for_title() {
    let (title, description) = derive_from_path("/Manga/A/Alpha/%21Scans");
    assert_eq!(title, "Alpha");
    assert_eq!(description, Some("!Scans".to_string()));
}

#[test]
fn empty_path_yields_no_description() {
    assert_eq!(derive_from_path(""), (String::new(), None));
    assert_eq!(derive_from_path("///"), (String::new(), None));
    assert_eq!(derive_from_path("/!only/"), (String::new(), Some("!only".to_string())));
}

#[test]
fn chapter_href_gets_leading_slash() {
    assert_eq!(normalize_chapter_href("reader/x"), "/reader/x");
    assert_eq!(normalize_chapter_href("/reader/x"), "/reader/x");
    assert_eq!(normalize_chapter_href(""), "/");
}
