//! Reading a master playlist from its text.
//!
//! The text is taken line by line. Each line is trimmed, and a line that is
//! then empty is passed over. A line that begins with the tag of a variant
//! stream takes the line below it as its URI, whatever that line holds; where
//! no line is left below it, the variant stream is not recorded. A line that
//! begins with no known tag is passed over.
use crate::attribute::{lemma_first_pair_bounds, pairs_of, AttributePairs};
use crate::playlist::{collect, entry_views, Attributes, Entry, EntryView, MasterPlaylist, Pair};
use crate::playlist::{PlaylistView, HEADER, INDEPENDENT_SEGMENTS, PREFIX, PREFIX_EXTXIFRAME};
use crate::playlist::PREFIX_EXTXSTREAMINF;
use crate::text::{chars_of, find_char, find_from, has_prefix, lemma_trim_keeps_prefix};
use crate::text::{starts_with, trim, trim_range};
use vstd::prelude::*;

verus! {

/// What a line of a playlist is, by what it begins with.
#[derive(Debug, Clone, Copy, PartialEq, Eq)]
pub enum LineKind {
    StreamInf,
    IFrame,
    Media,
    IndependentSegments,
    Header,
    Unknown,
}

/// The kind of `line`. Where it begins with more than one tag, the first in
/// the order of `LineKind` counts.
pub open spec fn kind_of(line: Seq<char>) -> LineKind {
    if starts_with(line, PREFIX_EXTXSTREAMINF@) {
        LineKind::StreamInf
    } else if starts_with(line, PREFIX_EXTXIFRAME@) {
        LineKind::IFrame
    } else if starts_with(line, PREFIX@) {
        LineKind::Media
    } else if starts_with(line, INDEPENDENT_SEGMENTS@) {
        LineKind::IndependentSegments
    } else if starts_with(line, HEADER@) {
        LineKind::Header
    } else {
        LineKind::Unknown
    }
}

/// The lines of `text` that hold anything, each trimmed, in their order. A
/// line ends at a line feed or at the end of the text.
pub open spec fn content_lines(text: Seq<char>) -> Seq<Seq<char>>
    decreases text.len(),
{
    let n = find_from(text, '\n', 0);
    let line = trim(text.take(n));
    let rest = if 0 <= n < text.len() {
        content_lines(text.skip(n + 1))
    } else {
        Seq::empty()
    };
    if line.len() > 0 {
        seq![line] + rest
    } else {
        rest
    }
}

/// The attribute list of `line`, which begins with a tag of `tag_len`
/// characters: the pairs of what follows the tag once the line is trimmed.
pub open spec fn attributes_in(line: Seq<char>, tag_len: nat) -> Seq<Pair> {
    collect(pairs_of(trim(line).skip(tag_len as int)))
}

/// Whether `s` holds no line feed.
pub open spec fn is_one_line(s: Seq<char>) -> bool {
    forall|i: int| 0 <= i < s.len() ==> #[trigger] s[i] != '\n'
}

/// What the tags hold, character by character.
pub proof fn lemma_tags()
    ensures
        HEADER@ == seq!['#', 'E', 'X', 'T', 'M', '3', 'U'],
        INDEPENDENT_SEGMENTS@.len() == 27,
        INDEPENDENT_SEGMENTS@[0] == '#',
        INDEPENDENT_SEGMENTS@[7] == 'I',
        INDEPENDENT_SEGMENTS@[8] == 'N',
        INDEPENDENT_SEGMENTS@[26] == 'S',
        is_one_line(INDEPENDENT_SEGMENTS@),
        PREFIX@.len() == 13,
        PREFIX@[0] == '#',
        PREFIX@[7] == 'M',
        PREFIX@[12] == ':',
        is_one_line(PREFIX@),
        PREFIX_EXTXIFRAME@.len() == 26,
        PREFIX_EXTXIFRAME@[0] == '#',
        PREFIX_EXTXIFRAME@[7] == 'I',
        PREFIX_EXTXIFRAME@[8] == '-',
        PREFIX_EXTXIFRAME@[25] == ':',
        is_one_line(PREFIX_EXTXIFRAME@),
        PREFIX_EXTXSTREAMINF@.len() == 18,
        PREFIX_EXTXSTREAMINF@[0] == '#',
        PREFIX_EXTXSTREAMINF@[7] == 'S',
        PREFIX_EXTXSTREAMINF@[17] == ':',
        is_one_line(PREFIX_EXTXSTREAMINF@),
{
    reveal_strlit("#EXTM3U");
    reveal_strlit("#EXT-X-INDEPENDENT-SEGMENTS");
    reveal_strlit("#EXT-X-MEDIA:");
    reveal_strlit("#EXT-X-I-FRAME-STREAM-INF:");
    reveal_strlit("#EXT-X-STREAM-INF:");
    assert(HEADER@ =~= seq!['#', 'E', 'X', 'T', 'M', '3', 'U']);
}


/// The playlist without header, marker or entries.
pub open spec fn empty_playlist() -> PlaylistView {
    PlaylistView { valid_header: false, independent_segments: false, entries: Seq::empty() }
}

/// `p` with one more entry at its front.
pub open spec fn with_entry(e: EntryView, p: PlaylistView) -> PlaylistView {
    PlaylistView {
        valid_header: p.valid_header,
        independent_segments: p.independent_segments,
        entries: seq![e] + p.entries,
    }
}

/// The playlist that the lines `lines` describe. No line is dropped, and a
/// line is matched against the tags as it is; only the attribute list of a
/// tag line is read from the trimmed line.
pub open spec fn parse_lines(lines: Seq<Seq<char>>) -> PlaylistView
    decreases lines.len(),
{
    if lines.len() == 0 {
        empty_playlist()
    } else {
        match kind_of(lines[0]) {
            LineKind::StreamInf => if lines.len() == 1 {
                empty_playlist()
            } else {
                with_entry(
                    EntryView::ExtXStreamInf {
                        attributes: attributes_in(lines[0], PREFIX_EXTXSTREAMINF@.len()),
                        uri: lines[1],
                    },
                    parse_lines(lines.skip(2)),
                )
            },
            LineKind::IFrame => with_entry(
                EntryView::ExtXIFrame {
                    attributes: attributes_in(lines[0], PREFIX_EXTXIFRAME@.len()),
                },
                parse_lines(lines.skip(1)),
            ),
            LineKind::Media => with_entry(
                EntryView::Alternative { attributes: attributes_in(lines[0], PREFIX@.len()) },
                parse_lines(lines.skip(1)),
            ),
            LineKind::IndependentSegments => {
                let rest = parse_lines(lines.skip(1));
                PlaylistView {
                    valid_header: rest.valid_header,
                    independent_segments: true,
                    entries: rest.entries,
                }
            },
            LineKind::Header => {
                let rest = parse_lines(lines.skip(1));
                PlaylistView {
                    valid_header: true,
                    independent_segments: rest.independent_segments,
                    entries: rest.entries,
                }
            },
            LineKind::Unknown => parse_lines(lines.skip(1)),
        }
    }
}

/// The playlist that `text` describes.
pub open spec fn parse_text(text: Seq<char>) -> PlaylistView {
    parse_lines(content_lines(text))
}

/// `first`, then `second`: a flag is set where either sets it.
pub open spec fn join(first: PlaylistView, second: PlaylistView) -> PlaylistView {
    PlaylistView {
        valid_header: first.valid_header || second.valid_header,
        independent_segments: first.independent_segments || second.independent_segments,
        entries: first.entries + second.entries,
    }
}

/// The texts of the lines `lines`.
pub open spec fn line_views(lines: Seq<&str>) -> Seq<Seq<char>> {
    Seq::new(lines.len(), |i: int| lines[i]@)
}

/// The kind of `line`.
pub fn classify(line: &str) -> (r: LineKind)
    ensures
        r == kind_of(line@),
{
    let chars = chars_of(line);
    if has_prefix(&chars, &chars_of(PREFIX_EXTXSTREAMINF)) {
        LineKind::StreamInf
    } else if has_prefix(&chars, &chars_of(PREFIX_EXTXIFRAME)) {
        LineKind::IFrame
    } else if has_prefix(&chars, &chars_of(PREFIX)) {
        LineKind::Media
    } else if has_prefix(&chars, &chars_of(INDEPENDENT_SEGMENTS)) {
        LineKind::IndependentSegments
    } else if has_prefix(&chars, &chars_of(HEADER)) {
        LineKind::Header
    } else {
        LineKind::Unknown
    }
}

/// What follows the tag `prefix` in `input`, once `input` is trimmed.
pub fn tag<'a>(input: &'a str, prefix: &str) -> (r: &'a str)
    requires
        starts_with(trim(input@), prefix@),
    ensures
        r@ == trim(input@).skip(prefix@.len() as int),
{
    let chars = chars_of(input);
    proof {
        assert(chars@.subrange(0, chars@.len() as int) =~= chars@);
    }
    let (a, b) = trim_range(&chars, 0, chars.len());
    let from: usize = a + prefix.unicode_len();
    proof {
        assert(input@.subrange(from as int, b as int) =~= input@.subrange(a as int, b as int).skip(
            prefix@.len() as int,
        ));
    }
    input.substring_char(from, b)
}

/// The attribute list that holds the pairs that `items` has yet to hand out.
/// Where a key comes twice, its last value stays.
pub fn collect_pairs(items: AttributePairs<'_>) -> (r: Attributes)
    requires
        items.wf(),
    ensures
        r.wf(),
        r@ == collect(pairs_of(items.remaining())),
{
    let mut items = items;
    let ghost all = pairs_of(items.remaining());
    let ghost mut seen: Seq<Pair> = Seq::empty();
    let mut attributes = Attributes::new();
    let mut more: bool = true;
    proof {
        assert(seen + pairs_of(items.remaining()) =~= all);
    }
    while more
        invariant
            items.wf(),
            attributes.wf(),
            attributes@ == collect(seen),
            more ==> seen + pairs_of(items.remaining()) == all,
            !more ==> seen == all,
        decreases items.remaining().len() + if more { 1int } else { 0int },
    {
        let ghost rem = items.remaining();
        proof {
            lemma_first_pair_bounds(rem);
        }
        match items.next() {
            Some((key, value)) => {
                attributes.insert(key.to_owned(), value.to_owned());
                proof {
                    let next = seen.push((key@, value@));
                    assert(next.drop_last() =~= seen);
                    assert(next + pairs_of(items.remaining()) =~= seen + pairs_of(rem));
                    seen = next;
                }
            },
            None => {
                proof {
                    assert(seen + pairs_of(rem) =~= seen);
                }
                more = false;
            },
        }
    }
    attributes
}

/// The lines of `text` that hold anything, each trimmed. A line is cut out
/// of the text by counting characters from the start of the text, so the
/// time grows with the number of lines times the length of the text.
pub fn split_lines<'a>(text: &'a str) -> (r: Vec<&'a str>)
    ensures
        line_views(r@) == content_lines(text@),
{
    let chars = chars_of(text);
    let n: usize = chars.len();
    let ghost t = text@;
    let mut lines: Vec<&'a str> = Vec::new();
    let mut pos: usize = 0;
    let mut more: bool = true;
    proof {
        assert(t.skip(0) =~= t);
        assert(line_views(lines@) + content_lines(t.skip(0)) =~= content_lines(t));
    }
    while more
        invariant
            pos <= n,
            n == chars@.len(),
            chars@ == t,
            t == text@,
            more ==> line_views(lines@) + content_lines(t.skip(pos as int)) == content_lines(t),
            !more ==> line_views(lines@) == content_lines(t),
        decreases n - pos + if more { 1int } else { 0int },
    {
        let ghost rest = t.skip(pos as int);
        let ghost before = line_views(lines@);
        let end: usize = find_char(&chars, '\n', pos, n);
        let (a, b) = trim_range(&chars, pos, end);
        proof {
            assert(chars@.subrange(pos as int, n as int) =~= rest);
            assert(chars@.subrange(pos as int, end as int) =~= rest.take(end - pos));
        }
        if a < b {
            let line: &'a str = text.substring_char(a, b);
            lines.push(line);
            proof {
                assert(line_views(lines@) =~= before + seq![line@]);
            }
        }
        if end < n {
            proof {
                assert(rest.skip(end - pos + 1) =~= t.skip(end + 1));
                assert(line_views(lines@) + content_lines(t.skip(end + 1)) =~= before
                    + content_lines(rest));
            }
            pos = end + 1;
        } else {
            proof {
                assert(line_views(lines@) =~= before + content_lines(rest));
            }
            more = false;
        }
    }
    lines
}

/// The playlist that the lines `lines` describe, each line taken as it is.
pub fn parse_lines_of(lines: &Vec<&str>) -> (r: MasterPlaylist)
    ensures
        r@ == parse_lines(line_views(lines@)),
        r.wf(),
{
    let ghost all = line_views(lines@);
    let n: usize = lines.len();
    let mut entries: Vec<Entry> = Vec::new();
    let mut independent_segments: bool = false;
    let mut header: bool = false;
    let mut i: usize = 0;
    proof {
        assert(all.skip(0) =~= all);
        assert(entry_views(entries@) =~= Seq::empty());
        assert(join(empty_playlist(), parse_lines(all)).entries =~= parse_lines(all).entries);
    }
    while i < n
        invariant
            i <= n,
            n == lines@.len(),
            all == line_views(lines@),
            forall|k: int| 0 <= k < entries@.len() ==> (#[trigger] entries@[k]).wf(),
            join(
                PlaylistView {
                    valid_header: header,
                    independent_segments,
                    entries: entry_views(entries@),
                },
                parse_lines(all.skip(i as int)),
            ) == parse_lines(all),
        decreases n - i,
    {
        let line: &str = lines[i];
        let ghost rest = all.skip(i as int);
        let ghost before = PlaylistView {
            valid_header: header,
            independent_segments,
            entries: entry_views(entries@),
        };
        proof {
            assert(rest[0] == line@);
            assert(rest.skip(1) =~= all.skip(i + 1));
        }
        let mut step: usize = 1;
        proof {
            lemma_tags();
            if starts_with(line@, PREFIX_EXTXSTREAMINF@) {
                lemma_trim_keeps_prefix(line@, PREFIX_EXTXSTREAMINF@);
            }
            if starts_with(line@, PREFIX_EXTXIFRAME@) {
                lemma_trim_keeps_prefix(line@, PREFIX_EXTXIFRAME@);
            }
            if starts_with(line@, PREFIX@) {
                lemma_trim_keeps_prefix(line@, PREFIX@);
            }
        }
        match classify(line) {
            LineKind::StreamInf => {
                if i + 1 < n {
                    let attributes = collect_pairs(
                        AttributePairs::new(tag(line, PREFIX_EXTXSTREAMINF)),
                    );
                    let entry = Entry::ExtXStreamInf { attributes, uri: lines[i + 1].to_owned() };
                    proof {
                        assert(rest[1] == lines@[i + 1]@);
                        assert(rest.skip(2) =~= all.skip(i + 2));
                        assert(entry_views(entries@.push(entry)) =~= before.entries + seq![entry@]);
                    }
                    entries.push(entry);
                    step = 2;
                } else {
                    proof {
                        assert(rest.len() == 1);
                        assert(all.skip(i + 1) =~= Seq::empty());
                    }
                }
            },
            LineKind::IFrame => {
                let attributes = collect_pairs(AttributePairs::new(tag(line, PREFIX_EXTXIFRAME)));
                let entry = Entry::ExtXIFrame { attributes };
                proof {
                    assert(entry_views(entries@.push(entry)) =~= before.entries + seq![entry@]);
                }
                entries.push(entry);
            },
            LineKind::Media => {
                let attributes = collect_pairs(AttributePairs::new(tag(line, PREFIX)));
                let entry = Entry::Alternative { attributes };
                proof {
                    assert(entry_views(entries@.push(entry)) =~= before.entries + seq![entry@]);
                }
                entries.push(entry);
            },
            LineKind::IndependentSegments => {
                independent_segments = true;
            },
            LineKind::Header => {
                header = true;
            },
            LineKind::Unknown => {},
        }
        proof {
            let done = PlaylistView {
                valid_header: header,
                independent_segments,
                entries: entry_views(entries@),
            };
            let next = parse_lines(all.skip(i + step));
            let target = parse_lines(rest);
            assert(join(done, next).entries =~= join(before, target).entries);
            assert(join(done, next).valid_header == join(before, target).valid_header);
            assert(join(done, next).independent_segments == join(
                before,
                target,
            ).independent_segments);
        }
        i = i + step;
    }
    proof {
        assert(all.skip(n as int) =~= Seq::empty());
        assert(join(
            PlaylistView {
                valid_header: header,
                independent_segments,
                entries: entry_views(entries@),
            },
            empty_playlist(),
        ).entries =~= entry_views(entries@));
    }
    MasterPlaylist { valid_header: header, independent_segments, entries }
}

/// The playlist that `text` describes.
pub fn parse_playlist(text: &str) -> (r: MasterPlaylist)
    ensures
        r@ == parse_text(text@),
        r.wf(),
{
    let lines = split_lines(text);
    parse_lines_of(&lines)
}

} // verus!
