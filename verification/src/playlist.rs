//! The model of a master playlist: attribute lists, entries, the playlist,
//! and the text that each is written as.
use crate::text::{chars_of, decimal_u64, find_char, find_from, parse_decimal, text_before};
use crate::text::{lemma_text_before_irreflexive, lemma_text_before_total};
use crate::text::{lemma_text_before_transitive, text_eq, text_lt};
use vstd::prelude::*;

verus! {

/// An attribute as a value of the model: its key and its value.
pub type Pair = (Seq<char>, Seq<char>);

/// The line that opens a playlist.
pub const HEADER: &'static str = "#EXTM3U";

/// The line that marks the segments as independent.
pub const INDEPENDENT_SEGMENTS: &'static str = "#EXT-X-INDEPENDENT-SEGMENTS";

/// What a line that declares an alternative rendition begins with.
pub const PREFIX: &'static str = "#EXT-X-MEDIA:";

/// What a line that declares an I-frame variant begins with.
pub const PREFIX_EXTXIFRAME: &'static str = "#EXT-X-I-FRAME-STREAM-INF:";

/// What a line that declares a variant stream begins with.
pub const PREFIX_EXTXSTREAMINF: &'static str = "#EXT-X-STREAM-INF:";

/// Whether the keys of `ps` ascend strictly, in the order of `str`.
pub open spec fn strictly_sorted(ps: Seq<Pair>) -> bool {
    forall|i: int, j: int|
        #![trigger ps[i], ps[j]]
        0 <= i < j < ps.len() ==> text_before(ps[i].0, ps[j].0)
}

/// The value that `ps` gives to `key`: that of the last pair with this key.
pub open spec fn lookup(ps: Seq<Pair>, key: Seq<char>) -> Option<Seq<char>>
    decreases ps.len(),
{
    if ps.len() == 0 {
        None
    } else if ps.last().0 == key {
        Some(ps.last().1)
    } else {
        lookup(ps.drop_last(), key)
    }
}

/// The first position at or after `i` whose key does not stand before `key`,
/// or the length of `ps`.
pub open spec fn rank_from(ps: Seq<Pair>, key: Seq<char>, i: int) -> int
    decreases ps.len() - i,
{
    if 0 <= i < ps.len() && text_before(ps[i].0, key) {
        rank_from(ps, key, i + 1)
    } else {
        i
    }
}

/// `ps` with `key` set to `value`: in place of the pair that has this key,
/// or else at the place that keeps the keys in order.
pub open spec fn put(ps: Seq<Pair>, key: Seq<char>, value: Seq<char>) -> Seq<Pair> {
    let r = rank_from(ps, key, 0);
    if r < ps.len() && ps[r].0 == key {
        ps.update(r, (key, value))
    } else {
        ps.insert(r, (key, value))
    }
}

/// The attribute list that holds the pairs of `ps`, put one after the other.
pub open spec fn collect(ps: Seq<Pair>) -> Seq<Pair>
    decreases ps.len(),
{
    if ps.len() == 0 {
        Seq::empty()
    } else {
        put(collect(ps.drop_last()), ps.last().0, ps.last().1)
    }
}

/// What `rank_from` finds lies between `i` and the end; the keys from `i` up to
/// it stand before `key`, and the key at it does not.
pub proof fn lemma_rank_from_bounds(ps: Seq<Pair>, key: Seq<char>, i: int)
    requires
        0 <= i <= ps.len(),
    ensures
        i <= rank_from(ps, key, i) <= ps.len(),
        rank_from(ps, key, i) < ps.len() ==> !text_before(ps[rank_from(ps, key, i)].0, key),
        forall|k: int| i <= k < rank_from(ps, key, i) ==> text_before((#[trigger] ps[k]).0, key),
    decreases ps.len() - i,
{
    if i < ps.len() && text_before(ps[i].0, key) {
        lemma_rank_from_bounds(ps, key, i + 1);
    }
}

/// Setting a key keeps the keys in strict order.
pub proof fn lemma_put_sorted(ps: Seq<Pair>, key: Seq<char>, value: Seq<char>)
    requires
        strictly_sorted(ps),
    ensures
        strictly_sorted(put(ps, key, value)),
{
    let r = rank_from(ps, key, 0);
    let qs = put(ps, key, value);
    lemma_rank_from_bounds(ps, key, 0);
    if r < ps.len() && ps[r].0 == key {
        assert forall|i: int, j: int| 0 <= i < j < qs.len() implies text_before(
            (#[trigger] qs[i]).0,
            (#[trigger] qs[j]).0,
        ) by {
            assert(text_before(ps[i].0, ps[j].0));
        }
    } else {
        assert forall|i: int, j: int| 0 <= i < j < qs.len() implies text_before(
            (#[trigger] qs[i]).0,
            (#[trigger] qs[j]).0,
        ) by {
            if j < r {
                assert(text_before(ps[i].0, ps[j].0));
            } else if j == r {
                assert(text_before(ps[i].0, key));
            } else if i == r {
                lemma_text_before_total(ps[r].0, key);
                if j - 1 > r {
                    assert(text_before(ps[r].0, ps[j - 1].0));
                    lemma_text_before_transitive(key, ps[r].0, ps[j - 1].0);
                }
            } else if i < r {
                assert(text_before(ps[i].0, ps[j - 1].0));
            } else {
                assert(text_before(ps[i - 1].0, ps[j - 1].0));
            }
        }
    }
}

/// In a list with keys in strict order, each pair is what its key is given,
/// and a key that no pair has is given nothing.
pub proof fn lemma_lookup_sorted(ps: Seq<Pair>, key: Seq<char>)
    requires
        strictly_sorted(ps),
    ensures
        forall|i: int| 0 <= i < ps.len() && (#[trigger] ps[i]).0 == key ==> lookup(ps, key) == Some(ps[i].1),
        (forall|i: int| 0 <= i < ps.len() ==> (#[trigger] ps[i]).0 != key) ==> lookup(ps, key) is None,
    decreases ps.len(),
{
    if ps.len() > 0 {
        let qs = ps.drop_last();
        assert forall|i: int, j: int| 0 <= i < j < qs.len() implies text_before(
            (#[trigger] qs[i]).0,
            (#[trigger] qs[j]).0,
        ) by {
            assert(text_before(ps[i].0, ps[j].0));
        }
        lemma_lookup_sorted(qs, key);
        if ps.last().0 == key {
            assert forall|i: int| 0 <= i < ps.len() && (#[trigger] ps[i]).0 == key implies lookup(
                ps,
                key,
            ) == Some(ps[i].1) by {
                if i < ps.len() - 1 {
                    assert(text_before(ps[i].0, ps[ps.len() - 1].0));
                    lemma_text_before_irreflexive(key);
                }
            }
        } else {
            assert forall|i: int| 0 <= i < ps.len() && (#[trigger] ps[i]).0 == key implies lookup(
                ps,
                key,
            ) == Some(ps[i].1) by {
                assert(qs[i] == ps[i]);
            }
            if forall|i: int| 0 <= i < ps.len() ==> (#[trigger] ps[i]).0 != key {
                assert forall|i: int| 0 <= i < qs.len() implies (#[trigger] qs[i]).0 != key by {
                    assert(qs[i] == ps[i]);
                }
            }
        }
    }
}

/// Setting a key gives that key the new value and leaves what every other
/// key is given.
pub proof fn lemma_put_lookup(ps: Seq<Pair>, key: Seq<char>, value: Seq<char>, other: Seq<char>)
    requires
        strictly_sorted(ps),
    ensures
        lookup(put(ps, key, value), other) == if other == key {
            Some(value)
        } else {
            lookup(ps, other)
        },
{
    let r = rank_from(ps, key, 0);
    let qs = put(ps, key, value);
    lemma_rank_from_bounds(ps, key, 0);
    lemma_put_sorted(ps, key, value);
    lemma_lookup_sorted(qs, other);
    lemma_lookup_sorted(ps, other);
    let replaced = r < ps.len() && ps[r].0 == key;
    if other == key {
        assert(qs[r] == (key, value));
    } else if exists|i: int| 0 <= i < ps.len() && (#[trigger] ps[i]).0 == other {
        let i = choose|i: int| 0 <= i < ps.len() && (#[trigger] ps[i]).0 == other;
        let j = if replaced || i < r {
            i
        } else {
            i + 1
        };
        assert(qs[j] == ps[i]);
    } else {
        assert forall|j: int| 0 <= j < qs.len() implies (#[trigger] qs[j]).0 != other by {
            if j != r {
                let i = if replaced || j < r {
                    j
                } else {
                    j - 1
                };
                assert(qs[j] == ps[i]);
            }
        }
    }
}

/// Collecting pairs gives a list with keys in strict order.
pub proof fn lemma_collect_sorted(ps: Seq<Pair>)
    ensures
        strictly_sorted(collect(ps)),
    decreases ps.len(),
{
    if ps.len() > 0 {
        lemma_collect_sorted(ps.drop_last());
        lemma_put_sorted(collect(ps.drop_last()), ps.last().0, ps.last().1);
    }
}

/// Collecting pairs gives each key the value of the last pair that has it.
pub proof fn lemma_collect_lookup(ps: Seq<Pair>, key: Seq<char>)
    ensures
        lookup(collect(ps), key) == lookup(ps, key),
    decreases ps.len(),
{
    if ps.len() > 0 {
        lemma_collect_sorted(ps.drop_last());
        lemma_collect_lookup(ps.drop_last(), key);
        lemma_put_lookup(collect(ps.drop_last()), ps.last().0, ps.last().1, key);
    }
}

/// Pairs whose keys already ascend strictly are collected as they are.
pub proof fn lemma_collect_of_sorted(ps: Seq<Pair>)
    requires
        strictly_sorted(ps),
    ensures
        collect(ps) == ps,
    decreases ps.len(),
{
    if ps.len() > 0 {
        let qs = ps.drop_last();
        assert forall|i: int, j: int| 0 <= i < j < qs.len() implies text_before(
            (#[trigger] qs[i]).0,
            (#[trigger] qs[j]).0,
        ) by {
            assert(text_before(ps[i].0, ps[j].0));
        }
        lemma_collect_of_sorted(qs);
        let key = ps.last().0;
        assert forall|k: int| 0 <= k < qs.len() implies text_before((#[trigger] qs[k]).0, key) by {
            assert(text_before(ps[k].0, ps[ps.len() - 1].0));
        }
        lemma_rank_from_is(qs, key, 0, qs.len() as int);
        assert(qs.insert(qs.len() as int, ps.last()) =~= ps);
    } else {
        assert(ps =~= Seq::empty());
    }
}

/// The position found is the first whose key does not stand before `key`.
pub proof fn lemma_rank_from_is(ps: Seq<Pair>, key: Seq<char>, i: int, n: int)
    requires
        0 <= i <= n <= ps.len(),
        n < ps.len() ==> !text_before(ps[n].0, key),
        forall|k: int| i <= k < n ==> text_before((#[trigger] ps[k]).0, key),
    ensures
        rank_from(ps, key, i) == n,
    decreases n - i,
{
    if i < n {
        assert(text_before(ps[i].0, key));
        lemma_rank_from_is(ps, key, i + 1, n);
    }
}

/// The text of one attribute: key, `=`, value.
pub open spec fn render_pair(p: Pair) -> Seq<char> {
    p.0 + seq!['='] + p.1
}

/// The text of an attribute list: its attributes in order, with a comma
/// between two of them and none at the end.
pub open spec fn render_pairs(ps: Seq<Pair>) -> Seq<char>
    decreases ps.len(),
{
    if ps.len() == 0 {
        Seq::empty()
    } else if ps.len() == 1 {
        render_pair(ps[0])
    } else {
        render_pair(ps[0]) + seq![','] + render_pairs(ps.drop_first())
    }
}

/// An attribute list: a mapping from attribute names to values, held in the
/// order of the names.
#[derive(Debug, Clone, PartialEq)]
pub struct Attributes(Vec<(String, String)>);

impl View for Attributes {
    type V = Seq<Pair>;

    /// The attributes in the order in which they are held and written.
    closed spec fn view(&self) -> Seq<Pair> {
        Seq::new(self.0@.len(), |i: int| (self.0@[i].0@, self.0@[i].1@))
    }
}

impl Attributes {
    /// The invariant of an attribute list: the names ascend strictly, so none
    /// occurs twice.
    pub open spec fn wf(&self) -> bool {
        strictly_sorted(self@)
    }

    /// The empty attribute list.
    pub fn new() -> (r: Self)
        ensures
            r@ == Seq::<Pair>::empty(),
            r.wf(),
    {
        let r = Attributes(Vec::new());
        assert(r@ =~= Seq::<Pair>::empty());
        r
    }

    /// The number of attributes.
    pub fn len(&self) -> (r: usize)
        ensures
            r == self@.len(),
    {
        self.0.len()
    }

    /// Sets `key` to `value`. A value that the key had before is replaced.
    pub fn insert(&mut self, key: String, value: String)
        requires
            old(self).wf(),
        ensures
            final(self).wf(),
            final(self)@ == put(old(self)@, key@, value@),
    {
        let ghost ps = self@;
        let wanted = chars_of(key.as_str());
        let n: usize = self.0.len();
        let mut i: usize = 0;
        let mut done: bool = false;
        while i < n && !done
            invariant
                i <= n,
                n == self.0@.len(),
                ps == self@,
                wanted@ == key@,
                rank_from(ps, key@, 0) == rank_from(ps, key@, i as int),
                done ==> i < n && !text_before(ps[i as int].0, key@),
            decreases n - i + if done { 0int } else { 1int },
        {
            let held = chars_of(self.0[i].0.as_str());
            if text_lt(&held, &wanted) {
                i += 1;
            } else {
                done = true;
            }
        }
        if i < n && self.0[i].0 == key {
            self.0.set(i, (key, value));
        } else {
            self.0.insert(i, (key, value));
        }
        proof {
            assert(self@ =~= put(ps, key@, value@));
            lemma_put_sorted(ps, key@, value@);
        }
    }

    /// The value of `key`, if the list holds the key.
    pub fn get(&self, key: &str) -> (r: Option<&String>)
        ensures
            match lookup(self@, key@) {
                Some(v) => r matches Some(found) && found@ == v,
                None => r is None,
            },
    {
        let ghost ps = self@;
        let wanted = chars_of(key);
        let mut i: usize = self.0.len();
        proof {
            assert(ps.take(i as int) =~= ps);
        }
        while i > 0
            invariant
                i <= self.0@.len(),
                ps == self@,
                wanted@ == key@,
                lookup(ps, key@) == lookup(ps.take(i as int), key@),
            decreases i,
        {
            proof {
                assert(ps.take(i as int).drop_last() =~= ps.take(i - 1));
                assert(ps.take(i as int).last() == ps[i - 1]);
            }
            i -= 1;
            let held = chars_of(self.0[i].0.as_str());
            if text_eq(&held, &wanted) {
                return Some(&self.0[i].1);
            }
        }
        None
    }

    /// The list as text: `key=value` for each attribute, in the order of the
    /// keys, with commas between them.
    pub fn render(&self) -> (r: String)
        ensures
            r@ == render_pairs(self@),
    {
        let ghost ps = self@;
        let mut out = String::new();
        let n: usize = self.0.len();
        let mut i: usize = 0;
        proof {
            assert(ps.skip(0) =~= ps);
            reveal_strlit("=");
            reveal_strlit(",");
        }
        while i < n
            invariant
                i <= n,
                n == self.0@.len(),
                ps == self@,
                "="@ == seq!['='],
                ","@ == seq![','],
                out@ + render_pairs(ps.skip(i as int)) == render_pairs(ps),
            decreases n - i,
        {
            let ghost before = out@;
            let ghost rest = ps.skip(i as int);
            out.append(self.0[i].0.as_str());
            out.append("=");
            out.append(self.0[i].1.as_str());
            if i + 1 < n {
                out.append(",");
            }
            proof {
                assert(rest[0] == ps[i as int]);
                assert(rest.drop_first() =~= ps.skip(i + 1));
                if i + 1 < n {
                    assert(out@ + render_pairs(ps.skip(i + 1)) =~= before + render_pairs(rest));
                } else {
                    assert(render_pairs(ps.skip(i + 1)) =~= Seq::<char>::empty());
                    assert(out@ + render_pairs(ps.skip(i + 1)) =~= before + render_pairs(rest));
                }
            }
            i += 1;
        }
        proof {
            assert(out@ + render_pairs(ps.skip(n as int)) =~= out@);
        }
        out
    }
}

/// One entry of a playlist, as a value of the model.
pub enum EntryView {
    ExtXStreamInf { attributes: Seq<Pair>, uri: Seq<char> },
    ExtXIFrame { attributes: Seq<Pair> },
    Alternative { attributes: Seq<Pair> },
}

/// A playlist, as a value of the model.
pub struct PlaylistView {
    pub valid_header: bool,
    pub independent_segments: bool,
    pub entries: Seq<EntryView>,
}

/// The value that a variant stream or an I-frame variant gives to the
/// attribute `name`. An alternative rendition gives none.
pub open spec fn variant_attribute(e: EntryView, name: Seq<char>) -> Option<Seq<char>> {
    match e {
        EntryView::ExtXStreamInf { attributes, .. } => lookup(attributes, name),
        EntryView::ExtXIFrame { attributes } => lookup(attributes, name),
        EntryView::Alternative { .. } => None,
    }
}

/// The number that the attribute `name` of a variant writes. There is none
/// where the attribute is absent, and none where its value is no number.
pub open spec fn variant_number(e: EntryView, name: Seq<char>) -> Option<u64> {
    match variant_attribute(e, name) {
        Some(v) => decimal_u64(v),
        None => None,
    }
}

/// The height that a resolution such as `1920x1080` gives: the number after
/// the first `x`, and 0 where there is no `x` or no number after it.
pub open spec fn height_of(resolution: Seq<char>) -> u64 {
    let x = find_from(resolution, 'x', 0);
    if x < resolution.len() {
        match decimal_u64(resolution.skip(x + 1)) {
            Some(h) => h,
            None => 0,
        }
    } else {
        0
    }
}

/// The bandwidth of a variant, from its attribute `BANDWIDTH`.
pub open spec fn bandwidth_of(e: EntryView) -> Option<u64> {
    variant_number(e, "BANDWIDTH"@)
}

/// The average bandwidth of a variant, from its attribute `AVERAGE-BANDWIDTH`.
pub open spec fn average_bandwidth_of(e: EntryView) -> Option<u64> {
    variant_number(e, "AVERAGE-BANDWIDTH"@)
}

/// The height of a variant's picture, from its attribute `RESOLUTION`.
pub open spec fn resolution_height_of(e: EntryView) -> Option<u64> {
    match variant_attribute(e, "RESOLUTION"@) {
        Some(r) => Some(height_of(r)),
        None => None,
    }
}

/// The text of one entry: its tag and attribute list and, for a variant
/// stream, the URI on a line of its own. No newline ends it.
pub open spec fn render_entry(e: EntryView) -> Seq<char> {
    match e {
        EntryView::ExtXStreamInf { attributes, uri } => PREFIX_EXTXSTREAMINF@ + render_pairs(
            attributes,
        ) + seq!['\n'] + uri,
        EntryView::ExtXIFrame { attributes } => PREFIX_EXTXIFRAME@ + render_pairs(attributes),
        EntryView::Alternative { attributes } => PREFIX@ + render_pairs(attributes),
    }
}

/// The text of the entries `es`, each closed by a newline.
pub open spec fn render_entries(es: Seq<EntryView>) -> Seq<char>
    decreases es.len(),
{
    if es.len() == 0 {
        Seq::empty()
    } else {
        render_entry(es[0]) + seq!['\n'] + render_entries(es.drop_first())
    }
}

/// The text of a playlist: the header line, whether or not the playlist was
/// read from a text that had one; the marker of independent segments where
/// the flag is set; then the entries in their order.
pub open spec fn render_playlist(p: PlaylistView) -> Seq<char> {
    HEADER@ + seq!['\n'] + (if p.independent_segments {
        INDEPENDENT_SEGMENTS@ + seq!['\n']
    } else {
        Seq::empty()
    }) + render_entries(p.entries)
}

/// One entry of a master playlist.
#[derive(Debug, Clone, PartialEq)]
pub enum Entry {
    /// A variant stream: its attributes, and the URI from the line below.
    ExtXStreamInf { attributes: Attributes, uri: String },
    /// An I-frame variant.
    ExtXIFrame { attributes: Attributes },
    /// An alternative rendition.
    Alternative { attributes: Attributes },
}

impl View for Entry {
    type V = EntryView;

    open spec fn view(&self) -> EntryView {
        match self {
            Entry::ExtXStreamInf { attributes, uri } => EntryView::ExtXStreamInf {
                attributes: attributes@,
                uri: uri@,
            },
            Entry::ExtXIFrame { attributes } => EntryView::ExtXIFrame { attributes: attributes@ },
            Entry::Alternative { attributes } => EntryView::Alternative { attributes: attributes@ },
        }
    }
}

impl Entry {
    /// Whether the entry's attribute list keeps its invariant.
    pub open spec fn wf(&self) -> bool {
        match self {
            Entry::ExtXStreamInf { attributes, .. } => attributes.wf(),
            Entry::ExtXIFrame { attributes } => attributes.wf(),
            Entry::Alternative { attributes } => attributes.wf(),
        }
    }

    /// The value that a variant gives to the attribute `name`.
    fn variant_value(&self, name: &str) -> (r: Option<&String>)
        ensures
            match variant_attribute(self@, name@) {
                Some(v) => r matches Some(found) && found@ == v,
                None => r is None,
            },
    {
        match self {
            Entry::ExtXStreamInf { attributes, .. } => attributes.get(name),
            Entry::ExtXIFrame { attributes } => attributes.get(name),
            Entry::Alternative { .. } => None,
        }
    }

    /// The number that the attribute `name` of a variant writes.
    fn variant_number(&self, name: &str) -> (r: Option<u64>)
        ensures
            r == variant_number(self@, name@),
    {
        match self.variant_value(name) {
            Some(v) => {
                let chars = chars_of(v.as_str());
                proof {
                    assert(chars@.subrange(0, chars@.len() as int) =~= chars@);
                }
                parse_decimal(&chars, 0, chars.len())
            },
            None => None,
        }
    }

    /// The bandwidth of a variant stream or an I-frame variant. `None` for an
    /// alternative rendition, where the attribute is absent, and where its
    /// value is no number that fits.
    pub fn get_bandwidth(&self) -> (r: Option<u64>)
        ensures
            r == bandwidth_of(self@),
    {
        self.variant_number("BANDWIDTH")
    }

    /// The average bandwidth of a variant stream or an I-frame variant, read
    /// as `get_bandwidth` reads the bandwidth.
    pub fn get_average_bandwidth(&self) -> (r: Option<u64>)
        ensures
            r == average_bandwidth_of(self@),
    {
        self.variant_number("AVERAGE-BANDWIDTH")
    }

    /// The height of the picture of a variant stream or an I-frame variant:
    /// the number after the first `x` of its resolution, 0 where the
    /// resolution holds none. `None` for an alternative rendition and where
    /// the attribute is absent.
    pub fn get_resolution_height(&self) -> (r: Option<u64>)
        ensures
            r == resolution_height_of(self@),
    {
        match self.variant_value("RESOLUTION") {
            Some(v) => {
                let chars = chars_of(v.as_str());
                let n: usize = chars.len();
                proof {
                    assert(chars@.subrange(0, n as int) =~= chars@);
                }
                let x: usize = find_char(&chars, 'x', 0, n);
                if x < n {
                    proof {
                        assert(chars@.subrange(x + 1, n as int) =~= chars@.skip(x + 1));
                    }
                    match parse_decimal(&chars, x + 1, n) {
                        Some(h) => Some(h),
                        None => Some(0),
                    }
                } else {
                    Some(0)
                }
            },
            None => None,
        }
    }

    /// The entry as text, without a newline at its end.
    pub fn render(&self) -> (r: String)
        ensures
            r@ == render_entry(self@),
    {
        match self {
            Entry::ExtXStreamInf { attributes, uri } => {
                let mut out = String::from_str(PREFIX_EXTXSTREAMINF);
                out.append(attributes.render().as_str());
                out.append("\n");
                out.append(uri.as_str());
                proof {
                    reveal_strlit("\n");
                    assert("\n"@ =~= seq!['\n']);
                }
                out
            },
            Entry::ExtXIFrame { attributes } => {
                let mut out = String::from_str(PREFIX_EXTXIFRAME);
                out.append(attributes.render().as_str());
                out
            },
            Entry::Alternative { attributes } => {
                let mut out = String::from_str(PREFIX);
                out.append(attributes.render().as_str());
                out
            },
        }
    }
}

/// A master playlist: whether its text opened with the header line, whether
/// it marks its segments as independent, and its entries in their order.
#[derive(Debug, Clone, PartialEq)]
pub struct MasterPlaylist {
    pub valid_header: bool,
    pub independent_segments: bool,
    pub entries: Vec<Entry>,
}

/// The entries `es` as values of the model.
pub open spec fn entry_views(es: Seq<Entry>) -> Seq<EntryView> {
    Seq::new(es.len(), |i: int| es[i]@)
}

impl View for MasterPlaylist {
    type V = PlaylistView;

    open spec fn view(&self) -> PlaylistView {
        PlaylistView {
            valid_header: self.valid_header,
            independent_segments: self.independent_segments,
            entries: entry_views(self.entries@),
        }
    }
}

impl Default for MasterPlaylist {
    /// A playlist without header, marker or entries.
    fn default() -> (r: Self)
        ensures
            !r.valid_header,
            !r.independent_segments,
            r.entries@.len() == 0,
    {
        MasterPlaylist { valid_header: false, independent_segments: false, entries: Vec::new() }
    }
}

impl MasterPlaylist {
    /// Whether every entry's attribute list keeps its invariant.
    pub open spec fn wf(&self) -> bool {
        forall|i: int| 0 <= i < self.entries@.len() ==> (#[trigger] self.entries@[i]).wf()
    }

    /// The playlist as text.
    pub fn render(&self) -> (r: String)
        ensures
            r@ == render_playlist(self@),
    {
        let ghost es = self@.entries;
        let mut out = String::from_str(HEADER);
        out.append("\n");
        if self.independent_segments {
            out.append(INDEPENDENT_SEGMENTS);
            out.append("\n");
        }
        let ghost head = out@;
        let n: usize = self.entries.len();
        let mut i: usize = 0;
        proof {
            reveal_strlit("\n");
            assert("\n"@ =~= seq!['\n']);
            assert(es.skip(0) =~= es);
            assert(head =~= HEADER@ + seq!['\n'] + (if self.independent_segments {
                INDEPENDENT_SEGMENTS@ + seq!['\n']
            } else {
                Seq::empty()
            }));
        }
        while i < n
            invariant
                i <= n,
                n == self.entries@.len(),
                es == self@.entries,
                "\n"@ == seq!['\n'],
                out@ + render_entries(es.skip(i as int)) == head + render_entries(es),
            decreases n - i,
        {
            let ghost before = out@;
            let ghost rest = es.skip(i as int);
            out.append(self.entries[i].render().as_str());
            out.append("\n");
            proof {
                assert(rest[0] == es[i as int]);
                assert(rest.drop_first() =~= es.skip(i + 1));
                assert(out@ + render_entries(es.skip(i + 1)) =~= before + render_entries(rest));
            }
            i += 1;
        }
        proof {
            assert(out@ + render_entries(es.skip(n as int)) =~= out@);
        }
        out
    }

    /// Writes the playlist's text, as UTF-8, at the end of `w`.
    pub fn write_to(&self, w: &mut Vec<u8>)
        ensures
            final(w)@ == old(w)@ + vstd::utf8::encode_utf8(render_playlist(self@)),
    {
        let text = self.render();
        w.extend_from_slice(text.as_str().as_bytes());
        proof {
            assert(final(w)@ =~= old(w)@ + vstd::utf8::encode_utf8(render_playlist(self@)));
        }
    }
}

} // verus!
