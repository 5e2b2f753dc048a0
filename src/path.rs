//! Titles and descriptions derived from the segments of a site path.

use crate::codec::{percent_decode_range, percent_decoded, push_char};
use vstd::prelude::*;
use vstd::string::{StrSliceExecFns, StringExecFns, StringSliceAdditionalSpecFns};

verus! {

const SLASH: u8 = 0x2f;

/// The segments of `b` that follow a partial segment `cur`: the non-empty runs
/// of bytes between slashes, in order.
pub open spec fn segments_after(b: Seq<u8>, cur: Seq<u8>) -> Seq<Seq<u8>>
    decreases b.len(),
{
    if b.len() == 0 {
        if cur.len() > 0 {
            seq![cur]
        } else {
            Seq::empty()
        }
    } else if b[0] == 0x2fu8 {
        (if cur.len() > 0 {
            seq![cur]
        } else {
            Seq::empty()
        }) + segments_after(b.drop_first(), Seq::empty())
    } else {
        segments_after(b.drop_first(), cur.push(b[0]))
    }
}

/// The non-empty segments of a path, in order.
pub open spec fn path_segments(b: Seq<u8>) -> Seq<Seq<u8>> {
    segments_after(b, Seq::empty())
}

/// Segment text that marks an annotation (a scan group, say): it begins with `!`.
pub open spec fn is_marked(d: Seq<char>) -> bool {
    d.len() > 0 && d[0] == '!'
}

/// The decoded segment nearest the end whose text does not begin with `!`;
/// empty where there is none.
pub open spec fn title_of(segs: Seq<Seq<u8>>) -> Seq<char>
    decreases segs.len(),
{
    if segs.len() == 0 {
        Seq::empty()
    } else {
        let d = percent_decoded(segs.last());
        if is_marked(d) {
            title_of(segs.drop_last())
        } else {
            d
        }
    }
}

/// The title of a list of segments is the decoded segment nearest the end that
/// is not marked with `!`, and empty where every segment is marked.
pub proof fn lemma_title_is_last_unmarked(segs: Seq<Seq<u8>>)
    ensures
        (forall|j| 0 <= j < segs.len() ==> is_marked(percent_decoded(#[trigger] segs[j])))
            ==> title_of(segs).len() == 0,
        forall|k|
            0 <= k < segs.len() && !is_marked(percent_decoded(#[trigger] segs[k])) && (forall|j|
                k < j < segs.len() ==> is_marked(percent_decoded(#[trigger] segs[j])))
                ==> title_of(segs) == percent_decoded(segs[k]),
    decreases segs.len(),
{
    if segs.len() > 0 {
        let init = segs.drop_last();
        lemma_title_is_last_unmarked(init);
        if forall|j| 0 <= j < segs.len() ==> is_marked(percent_decoded(#[trigger] segs[j])) {
            assert(is_marked(percent_decoded(segs[segs.len() - 1])));
            assert forall|j| 0 <= j < init.len() implies is_marked(
                percent_decoded(#[trigger] init[j]),
            ) by {
                assert(init[j] == segs[j]);
            }
        }
        assert forall|k|
            0 <= k < segs.len() && !is_marked(percent_decoded(#[trigger] segs[k])) && (forall|j|
                k < j < segs.len() ==> is_marked(percent_decoded(#[trigger] segs[j])))
                implies title_of(segs) == percent_decoded(segs[k]) by {
            if k < segs.len() - 1 {
                assert(is_marked(percent_decoded(segs[segs.len() - 1])));
                assert(init[k] == segs[k]);
                assert forall|j| k < j < init.len() implies is_marked(
                    percent_decoded(#[trigger] init[j]),
                ) by {
                    assert(init[j] == segs[j]);
                }
            }
        }
    }
}

/// Title and description that a path yields: no segments give an empty title
/// and no description; otherwise the description is the last decoded segment.
pub open spec fn derived_from_path(b: Seq<u8>) -> (Seq<char>, Option<Seq<char>>) {
    let segs = path_segments(b);
    if segs.len() == 0 {
        (Seq::empty(), None)
    } else {
        (title_of(segs), Some(percent_decoded(segs.last())))
    }
}

spec fn ranges_of(b: Seq<u8>, rs: Seq<(usize, usize)>) -> Seq<Seq<u8>> {
    Seq::new(rs.len(), |k: int| b.subrange(rs[k].0 as int, rs[k].1 as int))
}

fn segment_ranges(bytes: &[u8]) -> (rs: Vec<(usize, usize)>)
    ensures
        forall|k| 0 <= k < rs@.len() ==> #[trigger] rs@[k].0 <= rs@[k].1 <= bytes@.len(),
        ranges_of(bytes@, rs@) == path_segments(bytes@),
{
    let n = bytes.len();
    let mut rs: Vec<(usize, usize)> = Vec::new();
    let mut start: usize = 0;
    let mut i: usize = 0;
    assert(bytes@.subrange(0, n as int) =~= bytes@);
    assert(bytes@.subrange(0, 0) =~= Seq::<u8>::empty());
    assert(ranges_of(bytes@, rs@) + path_segments(bytes@) =~= path_segments(bytes@));
    while i < n
        invariant
            n == bytes@.len(),
            start <= i <= n,
            forall|k| 0 <= k < rs@.len() ==> #[trigger] rs@[k].0 <= rs@[k].1 <= bytes@.len(),
            ranges_of(bytes@, rs@) + segments_after(
                bytes@.subrange(i as int, n as int),
                bytes@.subrange(start as int, i as int),
            ) == path_segments(bytes@),
        decreases n - i,
    {
        let ghost rest = bytes@.subrange(i as int, n as int);
        let ghost cur = bytes@.subrange(start as int, i as int);
        let ghost before = ranges_of(bytes@, rs@);
        assert(rest.drop_first() =~= bytes@.subrange(i + 1, n as int));
        if bytes[i] == SLASH {
            if start < i {
                rs.push((start, i));
                assert(ranges_of(bytes@, rs@) =~= before + seq![cur]);
                assert(before + (seq![cur] + segments_after(rest.drop_first(), Seq::empty()))
                    =~= ranges_of(bytes@, rs@) + segments_after(rest.drop_first(), Seq::empty()));
            } else {
                assert(cur.len() == 0);
                assert(Seq::<Seq<u8>>::empty() + segments_after(rest.drop_first(), Seq::empty())
                    =~= segments_after(rest.drop_first(), Seq::empty()));
            }
            start = i + 1;
            i = i + 1;
            assert(bytes@.subrange(start as int, i as int) =~= Seq::<u8>::empty());
        } else {
            assert(cur.push(bytes@[i as int]) =~= bytes@.subrange(start as int, i + 1));
            i = i + 1;
        }
    }
    let ghost cur = bytes@.subrange(start as int, n as int);
    let ghost before = ranges_of(bytes@, rs@);
    assert(bytes@.subrange(n as int, n as int).len() == 0);
    if start < n {
        rs.push((start, n));
        assert(ranges_of(bytes@, rs@) =~= before + seq![cur]);
    } else {
        assert(before + Seq::<Seq<u8>>::empty() =~= before);
    }
    rs
}

/// Derives a title and a description from the segments of a path: the
/// description is the last segment, decoded; the title is the decoded segment
/// nearest the end that does not begin with `!`.
pub fn derive_from_path(path: &str) -> (r: (String, Option<String>))
    ensures
        r.0@ == derived_from_path(path.spec_bytes()).0,
        match (r.1, derived_from_path(path.spec_bytes()).1) {
            (Some(d), Some(e)) => d@ == e,
            (None, None) => true,
            _ => false,
        },
{
    let bytes = path.as_bytes();
    let rs = segment_ranges(bytes);
    let ghost segs = ranges_of(bytes@, rs@);
    if rs.len() == 0 {
        return (String::new(), None);
    }
    let last = rs[rs.len() - 1];
    let description = percent_decode_range(bytes, last.0, last.1);
    let mut title = String::new();
    let mut found = false;
    let mut j: usize = rs.len();
    assert(segs.subrange(0, j as int) =~= segs);
    while j > 0 && !found
        invariant
            j <= rs@.len(),
            segs == ranges_of(bytes@, rs@),
            forall|k| 0 <= k < rs@.len() ==> #[trigger] rs@[k].0 <= rs@[k].1 <= bytes@.len(),
            found ==> title@ == title_of(segs),
            !found ==> title_of(segs) == title_of(segs.subrange(0, j as int)),
            !found ==> title@.len() == 0,
        decreases j + if found {
            0int
        } else {
            1int
        },
    {
        let seg = rs[j - 1];
        let d = percent_decode_range(bytes, seg.0, seg.1);
        let ghost sub = segs.subrange(0, j as int);
        assert(sub.last() == segs[j - 1]);
        let bang = d.as_str().unicode_len() > 0 && d.as_str().get_char(0) == '!';
        if bang {
            assert(sub.drop_last() =~= segs.subrange(0, j - 1));
            j = j - 1;
        } else {
            title = d;
            found = true;
        }
    }
    if !found {
        assert(segs.subrange(0, 0) =~= Seq::<Seq<u8>>::empty());
    }
    (title, Some(description))
}

/// A link as a site-relative path: `raw` itself where it begins with `/`,
/// otherwise `raw` after a leading `/`.
pub open spec fn site_path_of(raw: Seq<char>) -> Seq<char> {
    if raw.len() > 0 && raw[0] == '/' {
        raw
    } else {
        seq!['/'] + raw
    }
}

/// Makes a link a site-relative path, beginning with `/`.
pub fn normalize_chapter_href(raw: &str) -> (r: String)
    ensures
        r@ == site_path_of(raw@),
        r@.len() > 0 && r@[0] == '/',
{
    if raw.unicode_len() > 0 && raw.get_char(0) == '/' {
        raw.to_owned()
    } else {
        let mut r = String::new();
        push_char(&mut r, '/');
        r.append(raw);
        r
    }
}

} // verus!
