//! What is written can be read again: the lexer gives back the pairs of an
//! attribute list that was written from them, and the parser the playlist.
use crate::attribute::{closes_quotes, count_unquoted, find_unquoted, first_pair, free_of};
use crate::attribute::{in_quotes, is_regular, is_unquoted, lemma_find_unquoted_bounds};
use crate::attribute::{lemma_first_pair_bounds, pairs_of};
use crate::playlist::{collect, lemma_collect_of_sorted, lemma_collect_sorted};
use crate::playlist::{lemma_rank_from_bounds, rank_from, render_entries, render_pair};
use crate::playlist::{render_pairs, render_playlist, strictly_sorted, EntryView, Pair};
use crate::playlist::{PlaylistView, HEADER, INDEPENDENT_SEGMENTS, PREFIX, PREFIX_EXTXIFRAME};
use crate::playlist::PREFIX_EXTXSTREAMINF;
use crate::read::{attributes_in, content_lines, is_one_line, kind_of, lemma_tags, parse_lines};
use crate::read::{parse_text, LineKind};
use crate::text::{drop_spaces, find_from, is_space, is_trimmed, lemma_drop_spaces_bounds};
use crate::text::{lemma_find_from_bounds, lemma_find_from_is, lemma_skip_spaces_bounds};
use crate::text::{lemma_trim_is_trimmed, lemma_trim_of_trimmed, skip_spaces, starts_with};
use crate::text::{text_before, trim};
use vstd::prelude::*;

verus! {

/// Whether the lexer reads `k` as a key: trimmed, with balanced quotes and no
/// `=` outside them.
pub open spec fn is_key(k: Seq<char>) -> bool {
    is_trimmed(k) && free_of(k, '=') && closes_quotes(k)
}

/// Whether the lexer reads `v` as a value: trimmed, with no `,` outside
/// quotes.
pub open spec fn is_value(v: Seq<char>) -> bool {
    is_trimmed(v) && free_of(v, ',')
}

/// Whether the pairs `ps` are such as the lexer hands out: keys and values
/// as it reads them, and every value but the last with balanced quotes.
pub open spec fn is_lexed(ps: Seq<Pair>) -> bool {
    &&& forall|i: int| 0 <= i < ps.len() ==> is_key((#[trigger] ps[i]).0) && is_value(ps[i].1)
    &&& forall|i: int| 0 <= i < ps.len() - 1 ==> closes_quotes((#[trigger] ps[i]).1)
}

/// Whether the pairs `ps` can be written and read again: pairs such as the
/// lexer hands out, the last of which is not empty on both sides. Such a
/// last pair is written as a lone `=`, which the lexer passes over.
pub open spec fn is_writable(ps: Seq<Pair>) -> bool {
    &&& is_lexed(ps)
    &&& ps.len() > 0 ==> ps.last().0.len() + ps.last().1.len() > 0
}

/// Quotes in a text of two parts: in the first part as in that part alone,
/// in the second as in that part alone, turned round where the first part
/// leaves a quote open.
pub proof fn lemma_in_quotes_concat(a: Seq<char>, b: Seq<char>, i: int)
    requires
        0 <= i <= a.len() + b.len(),
    ensures
        in_quotes(a + b, i) == if i <= a.len() {
            in_quotes(a, i)
        } else {
            in_quotes(a, a.len() as int) != in_quotes(b, i - a.len())
        },
    decreases i,
{
    if i > 0 {
        lemma_in_quotes_concat(a, b, i - 1);
        if i <= a.len() {
            assert((a + b)[i - 1] == a[i - 1]);
        } else {
            let j = i - a.len();
            assert((a + b)[i - 1] == b[j - 1]);
            assert(!in_quotes(b, 0));
            assert(in_quotes(b, j) == (in_quotes(b, j - 1) != (b[j - 1] == '"')));
            assert(in_quotes(a + b, i) == (in_quotes(a + b, i - 1) != ((a + b)[i - 1] == '"')));
        }
    }
}

/// The position found is the first that holds `c` outside quotes.
pub proof fn lemma_find_unquoted_is(s: Seq<char>, c: char, i: int, n: int)
    requires
        0 <= i <= n <= s.len(),
        forall|k: int| i <= k < n ==> !#[trigger] is_unquoted(s, c, k),
        n < s.len() ==> is_unquoted(s, c, n),
    ensures
        find_unquoted(s, c, i) == n,
    decreases n - i,
{
    if i < n {
        assert(!is_unquoted(s, c, i));
        lemma_find_unquoted_is(s, c, i + 1, n);
    }
}

/// The head of a text that begins with a key, `=`, a value and then ends or
/// goes on with a comma is that key and that value.
pub proof fn lemma_first_pair_of_written(k: Seq<char>, v: Seq<char>, tail: Seq<char>)
    requires
        is_key(k),
        is_value(v),
        tail.len() > 0 ==> tail[0] == ',' && closes_quotes(v),
        k.len() + v.len() + tail.len() > 0,
    ensures
        first_pair(k + seq!['='] + v + tail) == Some(
            (
                k,
                v,
                if tail.len() > 0 {
                    (k.len() + v.len() + 2) as int
                } else {
                    (k.len() + v.len() + 1) as int
                },
            ),
        ),
{
    let s = k + seq!['='] + v + tail;
    let e = k.len() as int;
    let c = e + 1 + v.len();
    let head = k + seq!['='];
    let back = v + tail;
    assert(s =~= k + (seq!['='] + v + tail));
    assert(s =~= head + back);
    assert forall|i: int| 0 <= i < e implies !#[trigger] is_unquoted(s, '=', i) by {
        lemma_in_quotes_concat(k, seq!['='] + v + tail, i);
        assert(s[i] == k[i]);
        assert(!is_unquoted(k, '=', i));
    }
    lemma_in_quotes_concat(k, seq!['='] + v + tail, e);
    assert(s[e] == '=');
    lemma_find_unquoted_is(s, '=', 0, e);
    lemma_in_quotes_concat(k, seq!['='], e + 1);
    assert(!in_quotes(seq!['='], 1)) by {
        assert(!in_quotes(seq!['='], 0));
    }
    assert(!in_quotes(head, e + 1));
    assert forall|i: int| e + 1 <= i <= c implies in_quotes(s, i) == in_quotes(v, i - e - 1) by {
        lemma_in_quotes_concat(head, back, i);
        lemma_in_quotes_concat(v, tail, i - e - 1);
        if i == e + 1 {
            assert(!in_quotes(v, 0));
        }
    }
    assert forall|i: int| e + 1 <= i < c implies !#[trigger] is_unquoted(s, ',', i) by {
        assert(s[i] == v[i - e - 1]);
        assert(!is_unquoted(v, ',', i - e - 1));
    }
    if tail.len() > 0 {
        assert(s[c] == tail[0]);
    }
    lemma_find_unquoted_is(s, ',', e + 1, c);
    assert(s.subrange(0, e) =~= k);
    assert(s.subrange(e + 1, c) =~= v);
    lemma_trim_of_trimmed(k);
    lemma_trim_of_trimmed(v);
}

/// Writing pairs and lexing what was written gives the pairs back.
pub proof fn lemma_lex_written(ps: Seq<Pair>)
    requires
        is_writable(ps),
    ensures
        pairs_of(render_pairs(ps)) == ps,
    decreases ps.len(),
{
    if ps.len() == 0 {
        assert(ps =~= Seq::empty());
    } else {
        let k = ps[0].0;
        let v = ps[0].1;
        let rest = ps.drop_first();
        let tail = if ps.len() == 1 {
            Seq::empty()
        } else {
            seq![','] + render_pairs(rest)
        };
        let s = render_pairs(ps);
        assert(s =~= k + seq!['='] + v + tail);
        if ps.len() == 1 {
            assert(ps.last() == ps[0]);
        }
        lemma_first_pair_of_written(k, v, tail);
        if ps.len() > 1 {
            let n = (k.len() + v.len() + 2) as int;
            assert(s.skip(n) =~= render_pairs(rest));
            assert(rest.last() == ps.last());
            assert forall|i: int| 0 <= i < rest.len() implies is_key((#[trigger] rest[i]).0)
                && is_value(rest[i].1) by {
                assert(rest[i] == ps[i + 1]);
            }
            assert forall|i: int| 0 <= i < rest.len() - 1 implies closes_quotes(
                (#[trigger] rest[i]).1,
            ) by {
                assert(rest[i] == ps[i + 1]);
            }
            lemma_lex_written(rest);
            assert(seq![(k, v)] + rest =~= ps);
        } else {
            let n = (k.len() + v.len() + 1) as int;
            assert(s.skip(n) =~= Seq::<char>::empty());
            assert(pairs_of(s.skip(n)) =~= Seq::<Pair>::empty());
            assert(seq![(k, v)] + Seq::<Pair>::empty() =~= ps);
        }
    }
}

/// Where no double quote stands between two positions, both lie inside
/// quotes or both outside.
pub proof fn lemma_in_quotes_steady(s: Seq<char>, i: int, j: int)
    requires
        0 <= i <= j <= s.len(),
        forall|k: int| i <= k < j ==> #[trigger] s[k] != '"',
    ensures
        in_quotes(s, j) == in_quotes(s, i),
    decreases j - i,
{
    if i < j {
        lemma_in_quotes_steady(s, i, j - 1);
    }
}

/// Quotes in a part of a text: a position of the part lies inside quotes as
/// it does in the whole, turned round where the part begins inside quotes.
pub proof fn lemma_in_quotes_part(s: Seq<char>, a: int, b: int, i: int)
    requires
        0 <= a <= a + i <= b <= s.len(),
        0 <= i,
    ensures
        in_quotes(s.subrange(a, b), i) == (in_quotes(s, a) != in_quotes(s, a + i)),
{
    let front = s.subrange(0, a);
    let part = s.subrange(a, b);
    let upto = s.subrange(0, b);
    assert(s =~= upto + s.subrange(b, s.len() as int));
    assert(upto =~= front + part);
    lemma_in_quotes_concat(upto, s.subrange(b, s.len() as int), a);
    lemma_in_quotes_concat(upto, s.subrange(b, s.len() as int), a + i);
    lemma_in_quotes_concat(front, part, a);
    lemma_in_quotes_concat(front, part, a + i);
    if i == 0 {
        assert(!in_quotes(part, 0));
    }
}

/// The bounds of the trimmed form of `x` within `x`: whitespace alone stands
/// before the first and from the second on.
pub proof fn lemma_trim_range(x: Seq<char>) -> (r: (int, int))
    ensures
        0 <= r.0 <= r.1 <= x.len(),
        trim(x) == x.subrange(r.0, r.1),
        forall|i: int| 0 <= i < r.0 ==> is_space(#[trigger] x[i]),
        forall|i: int| r.1 <= i < x.len() ==> is_space(#[trigger] x[i]),
{
    lemma_skip_spaces_bounds(x, 0);
    lemma_drop_spaces_bounds(x, x.len() as int);
    let a = skip_spaces(x, 0);
    let b = drop_spaces(x, x.len() as int);
    if a >= x.len() {
        assert(x.subrange(a, a) =~= Seq::<char>::empty());
        (a, a)
    } else {
        if b <= a {
            assert(is_space(x[a]));
        }
        (a, b)
    }
}

/// A position of the trimmed form of `x` holds `c` outside quotes where the
/// matching position of `x` does; and the trimmed form closes its quotes
/// where `x` does.
pub proof fn lemma_trim_keeps_quotes(x: Seq<char>, c: char)
    ensures
        free_of(x, c) ==> free_of(trim(x), c),
        free_of(trim(x), c) && !is_space(c) ==> free_of(x, c),
        closes_quotes(trim(x)) == closes_quotes(x),
{
    let (a, b) = lemma_trim_range(x);
    let t = trim(x);
    assert forall|k: int| 0 <= k < a implies #[trigger] x[k] != '"' by {
        assert(is_space(x[k]));
    }
    assert forall|k: int| b <= k < x.len() implies #[trigger] x[k] != '"' by {
        assert(is_space(x[k]));
    }
    lemma_in_quotes_steady(x, 0, a);
    lemma_in_quotes_steady(x, b, x.len() as int);
    assert(!in_quotes(x, 0));
    assert forall|i: int| 0 <= i <= b - a implies in_quotes(t, i) == in_quotes(x, a + i) by {
        lemma_in_quotes_part(x, a, b, i);
    }
    if free_of(x, c) {
        assert forall|i: int| 0 <= i < t.len() implies !#[trigger] is_unquoted(t, c, i) by {
            assert(!is_unquoted(x, c, a + i));
        }
    }
    if free_of(t, c) && !is_space(c) {
        assert forall|i: int| 0 <= i < x.len() implies !#[trigger] is_unquoted(x, c, i) by {
            if a <= i < b {
                assert(!is_unquoted(t, c, i - a));
            } else {
                assert(is_space(x[i]));
            }
        }
    }
}

/// What the lexer reads at the head of a text is a key and a value as it
/// reads them; and the value closes its quotes where a comma ends it.
pub proof fn lemma_first_pair_is_lexed(s: Seq<char>)
    ensures
        match first_pair(s) {
            Some((k, v, n)) => {
                &&& is_key(k)
                &&& is_value(v)
                &&& 0 < n <= s.len()
                &&& n < s.len() || (n == s.len() && pairs_of(s.skip(n)).len() == 0)
                &&& pairs_of(s.skip(n)).len() > 0 ==> closes_quotes(v)
                &&& !in_quotes(s, n)
                    || n == s.len()
                &&& count_unquoted(s, '=', n) >= 1
                &&& free_of(v, '=') == (count_unquoted(s, '=', n) == 1)
            },
            None => true,
        },
{
    lemma_first_pair_bounds(s);
    lemma_find_unquoted_bounds(s, '=', 0);
    let e = find_unquoted(s, '=', 0);
    if s.len() >= 2 && e < s.len() {
        lemma_find_unquoted_bounds(s, ',', e + 1);
        let c = find_unquoted(s, ',', e + 1);
        let raw_key = s.subrange(0, e);
        let raw_value = s.subrange(e + 1, c);
        assert(!in_quotes(s, 0));
        assert(!in_quotes(s, e + 1));
        assert forall|i: int| 0 <= i <= e implies in_quotes(raw_key, i) == in_quotes(s, i) by {
            lemma_in_quotes_part(s, 0, e, i);
        }
        assert forall|i: int| 0 <= i <= c - e - 1 implies in_quotes(raw_value, i) == in_quotes(
            s,
            e + 1 + i,
        ) by {
            lemma_in_quotes_part(s, e + 1, c, i);
        }
        assert forall|i: int| 0 <= i < raw_key.len() implies !#[trigger] is_unquoted(
            raw_key,
            '=',
            i,
        ) by {
            assert(!is_unquoted(s, '=', i));
        }
        assert forall|i: int| 0 <= i < raw_value.len() implies !#[trigger] is_unquoted(
            raw_value,
            ',',
            i,
        ) by {
            assert(!is_unquoted(s, ',', e + 1 + i));
        }
        lemma_trim_keeps_quotes(raw_key, '=');
        lemma_trim_keeps_quotes(raw_value, ',');
        lemma_trim_keeps_quotes(raw_value, '=');
        lemma_trim_is_trimmed(raw_key);
        lemma_trim_is_trimmed(raw_value);
        let n = if c < s.len() {
            c + 1
        } else {
            c
        };
        if c < s.len() {
            assert(in_quotes(s, c + 1) == (in_quotes(s, c) != (s[c] == '"')));
        } else {
            assert(s.skip(n) =~= Seq::<char>::empty());
        }
        lemma_count_steady(s, '=', 0, e);
        assert(count_unquoted(s, '=', 0) == 0);
        assert(count_unquoted(s, '=', e + 1) == 1);
        lemma_count_grows(s, '=', e + 1, n);
        if free_of(trim(raw_value), '=') {
            assert forall|k: int| e + 1 <= k < n implies !#[trigger] is_unquoted(s, '=', k) by {
                if k < c {
                    assert(!is_unquoted(raw_value, '=', k - e - 1));
                }
            }
            lemma_count_steady(s, '=', e + 1, n);
        } else {
            let j = choose|j: int| 0 <= j < raw_value.len() && is_unquoted(raw_value, '=', j);
            assert(is_unquoted(s, '=', e + 1 + j));
            lemma_count_grows(s, '=', e + 1, e + 1 + j);
            assert(count_unquoted(s, '=', e + 2 + j) == count_unquoted(s, '=', e + 1 + j) + 1);
            lemma_count_grows(s, '=', e + 2 + j, n);
        }
    }
}

/// The count never falls.
pub proof fn lemma_count_grows(s: Seq<char>, c: char, i: int, j: int)
    requires
        0 <= i <= j,
    ensures
        count_unquoted(s, c, i) <= count_unquoted(s, c, j),
    decreases j - i,
{
    if i < j {
        lemma_count_grows(s, c, i, j - 1);
    }
}

/// Where no position between two others holds `c` outside quotes, the count
/// stays.
pub proof fn lemma_count_steady(s: Seq<char>, c: char, i: int, j: int)
    requires
        0 <= i <= j <= s.len(),
        forall|k: int| i <= k < j ==> !#[trigger] is_unquoted(s, c, k),
    ensures
        count_unquoted(s, c, j) == count_unquoted(s, c, i),
    decreases j - i,
{
    if i < j {
        lemma_count_steady(s, c, i, j - 1);
    }
}

/// The count in what follows a position outside quotes is the count in the
/// whole less the count before that position.
pub proof fn lemma_count_skip(s: Seq<char>, c: char, n: int, m: int)
    requires
        0 <= n <= s.len(),
        0 <= m <= s.len() - n,
        !in_quotes(s, n),
    ensures
        count_unquoted(s.skip(n), c, m) == count_unquoted(s, c, n + m) - count_unquoted(s, c, n),
    decreases m,
{
    if m > 0 {
        lemma_count_skip(s, c, n, m - 1);
        assert(s.skip(n) =~= s.subrange(n, s.len() as int));
        lemma_in_quotes_part(s, n, s.len() as int, m - 1);
        assert(s.skip(n)[m - 1] == s[n + m - 1]);
    }
}

/// The pairs that the lexer hands out are keys and values as it reads them,
/// and every value but the last closes its quotes.
pub proof fn lemma_pairs_are_lexed(s: Seq<char>)
    ensures
        is_lexed(pairs_of(s)),
    decreases s.len(),
{
    lemma_first_pair_is_lexed(s);
    match first_pair(s) {
        Some((k, v, n)) => {
            let rest = pairs_of(s.skip(n));
            let ps = pairs_of(s);
            lemma_pairs_are_lexed(s.skip(n));
            assert(ps =~= seq![(k, v)] + rest);
            assert forall|i: int| 0 <= i < ps.len() implies is_key((#[trigger] ps[i]).0)
                && is_value(ps[i].1) by {
                if i > 0 {
                    assert(ps[i] == rest[i - 1]);
                }
            }
            assert forall|i: int| 0 <= i < ps.len() - 1 implies closes_quotes(
                (#[trigger] ps[i]).1,
            ) by {
                if i > 0 {
                    assert(ps[i] == rest[i - 1]);
                }
            }
        },
        None => {},
    }
}

/// Pairs such as the lexer hands out, the last of which is empty on both
/// sides, lose that pair when they are written and read again.
pub proof fn lemma_lone_pair_is_lost(ps: Seq<Pair>)
    requires
        is_lexed(ps),
        ps.len() > 0,
        ps.last().0.len() + ps.last().1.len() == 0,
    ensures
        pairs_of(render_pairs(ps)).len() == ps.len() - 1,
    decreases ps.len(),
{
    let s = render_pairs(ps);
    if ps.len() == 1 {
        assert(ps.last() == ps[0]);
        assert(s =~= seq!['=']);
    } else {
        let k = ps[0].0;
        let v = ps[0].1;
        let rest = ps.drop_first();
        let tail = seq![','] + render_pairs(rest);
        assert(s =~= k + seq!['='] + v + tail);
        lemma_first_pair_of_written(k, v, tail);
        let n = (k.len() + v.len() + 2) as int;
        assert(s.skip(n) =~= render_pairs(rest));
        assert(rest.last() == ps.last());
        assert forall|i: int| 0 <= i < rest.len() implies is_key((#[trigger] rest[i]).0)
            && is_value(rest[i].1) by {
            assert(rest[i] == ps[i + 1]);
        }
        assert forall|i: int| 0 <= i < rest.len() - 1 implies closes_quotes(
            (#[trigger] rest[i]).1,
        ) by {
            assert(rest[i] == ps[i + 1]);
        }
        lemma_lone_pair_is_lost(rest);
    }
}

/// The pairs of a list, written with `=` and `,`, lex to the same pairs
/// again, unless the last pair is empty on both sides, and then they do not.
pub proof fn lemma_rejoined_pairs_lex_alike(s: Seq<char>)
    ensures
        (pairs_of(render_pairs(pairs_of(s))) == pairs_of(s)) == (pairs_of(s).len() > 0
            ==> pairs_of(s).last().0.len() + pairs_of(s).last().1.len() > 0),
{
    let ps = pairs_of(s);
    lemma_pairs_are_lexed(s);
    if ps.len() > 0 ==> ps.last().0.len() + ps.last().1.len() > 0 {
        lemma_lex_written(ps);
    } else {
        lemma_lone_pair_is_lost(ps);
    }
}

/// The lexer never hands out more pairs than there are `=` outside quotes,
/// and it hands out as many in a regular list and in no other.
pub proof fn lemma_pair_count_is_exact(s: Seq<char>)
    ensures
        pairs_of(s).len() <= count_unquoted(s, '=', s.len() as int),
        (pairs_of(s).len() == count_unquoted(s, '=', s.len() as int)) == is_regular(s),
    decreases s.len(),
{
    lemma_first_pair_is_lexed(s);
    match first_pair(s) {
        Some((k, v, n)) => {
            lemma_pair_count_is_exact(s.skip(n));
            if n < s.len() {
                lemma_count_skip(s, '=', n, s.len() - n);
            } else {
                assert(s.skip(n) =~= Seq::<char>::empty());
                assert(count_unquoted(s.skip(n), '=', 0) == 0);
            }
        },
        None => {
            lemma_find_unquoted_bounds(s, '=', 0);
            if s.len() >= 2 {
                lemma_count_steady(s, '=', 0, s.len() as int);
            } else if s.len() == 1 {
                assert(!in_quotes(s, 0));
                assert(count_unquoted(s, '=', 0) == 0);
                if s[0] == '=' {
                    assert(s =~= seq!['=']);
                } else {
                    assert(s[0] != seq!['='][0]);
                }
            }
        },
    }
}

/// Whether the attribute list `ps` is read again as it is written: pairs
/// that can be written and read again, with keys in strict order and no line
/// feed in any of them.
pub open spec fn is_plain_list(ps: Seq<Pair>) -> bool {
    &&& is_writable(ps)
    &&& strictly_sorted(ps)
    &&& forall|i: int|
        0 <= i < ps.len() ==> is_one_line((#[trigger] ps[i]).0) && is_one_line(ps[i].1)
}

/// Whether the entry `e` is read again as it is written: its attribute list
/// is, and the URI of a variant stream is one trimmed line that holds
/// something.
pub open spec fn is_plain_entry(e: EntryView) -> bool {
    match e {
        EntryView::ExtXStreamInf { attributes, uri } => {
            &&& is_plain_list(attributes)
            &&& is_trimmed(uri)
            &&& is_one_line(uri)
            &&& uri.len() > 0
        },
        EntryView::ExtXIFrame { attributes } => is_plain_list(attributes),
        EntryView::Alternative { attributes } => is_plain_list(attributes),
    }
}

/// Whether every entry of `es` is read again as it is written.
pub open spec fn are_plain(es: Seq<EntryView>) -> bool {
    forall|i: int| 0 <= i < es.len() ==> is_plain_entry(#[trigger] es[i])
}

/// The lines that the entry `e` is written as.
pub open spec fn entry_lines(e: EntryView) -> Seq<Seq<char>> {
    match e {
        EntryView::ExtXStreamInf { attributes, uri } => seq![
            PREFIX_EXTXSTREAMINF@ + render_pairs(attributes),
            uri,
        ],
        EntryView::ExtXIFrame { attributes } => seq![PREFIX_EXTXIFRAME@ + render_pairs(attributes)],
        EntryView::Alternative { attributes } => seq![PREFIX@ + render_pairs(attributes)],
    }
}

/// The lines that the entries `es` are written as.
pub open spec fn entries_lines(es: Seq<EntryView>) -> Seq<Seq<char>>
    decreases es.len(),
{
    if es.len() == 0 {
        Seq::empty()
    } else {
        entry_lines(es[0]) + entries_lines(es.drop_first())
    }
}

/// The kind of each line that is written.
pub proof fn lemma_kinds(x: Seq<char>)
    ensures
        kind_of(PREFIX_EXTXSTREAMINF@ + x) == LineKind::StreamInf,
        kind_of(PREFIX_EXTXIFRAME@ + x) == LineKind::IFrame,
        kind_of(PREFIX@ + x) == LineKind::Media,
        kind_of(INDEPENDENT_SEGMENTS@) == LineKind::IndependentSegments,
        kind_of(HEADER@) == LineKind::Header,
{
    lemma_tags();
    let stream = PREFIX_EXTXSTREAMINF@;
    let iframe = PREFIX_EXTXIFRAME@;
    let media = PREFIX@;
    let marker = INDEPENDENT_SEGMENTS@;
    assert((stream + x).take(18) =~= stream);
    assert((iframe + x).take(26) =~= iframe);
    assert((media + x).take(13) =~= media);
    assert(marker.take(27) =~= marker);
    assert(HEADER@.take(7) =~= HEADER@);
    assert((iframe + x).take(18)[7] == 'I');
    assert(!starts_with(iframe + x, stream));
    if (media + x).len() >= 18 {
        assert((media + x).take(18)[7] == 'M');
    }
    if (media + x).len() >= 26 {
        assert((media + x).take(26)[7] == 'M');
    }
    assert(!starts_with(media + x, stream));
    assert(!starts_with(media + x, iframe));
    assert(marker.take(18)[7] == 'I');
    assert(marker.take(26)[8] == 'N');
    assert(marker.take(13)[7] == 'I');
    assert(!starts_with(marker, stream));
    assert(!starts_with(marker, iframe));
    assert(!starts_with(marker, media));
}

/// The lines of a text that begins with one line and a line feed: that line,
/// trimmed, unless it holds nothing, and then the lines of what follows.
pub proof fn lemma_content_lines_cons(line: Seq<char>, rest: Seq<char>)
    requires
        is_one_line(line),
    ensures
        content_lines(line + seq!['\n'] + rest) == if trim(line).len() > 0 {
            seq![trim(line)] + content_lines(rest)
        } else {
            content_lines(rest)
        },
{
    let text = line + seq!['\n'] + rest;
    let n = line.len() as int;
    assert(text[n] == '\n');
    assert forall|k: int| 0 <= k < n implies #[trigger] text[k] != '\n' by {
        assert(text[k] == line[k]);
    }
    lemma_find_from_is(text, '\n', 0, n);
    assert(text.take(n) =~= line);
    assert(text.skip(n + 1) =~= rest);
}

/// A written attribute list holds no line feed, and where it holds anything
/// it ends in something other than whitespace.
pub proof fn lemma_written_pairs_shape(ps: Seq<Pair>)
    requires
        is_plain_list(ps),
    ensures
        is_one_line(render_pairs(ps)),
        ps.len() > 0 ==> render_pairs(ps).len() > 0 && !is_space(render_pairs(ps).last()),
    decreases ps.len(),
{
    if ps.len() > 0 {
        let k = ps[0].0;
        let v = ps[0].1;
        let one = render_pair(ps[0]);
        assert(one =~= k + seq!['='] + v);
        assert(is_one_line(one)) by {
            assert forall|i: int| 0 <= i < one.len() implies #[trigger] one[i] != '\n' by {
                if i < k.len() {
                    assert(one[i] == k[i]);
                } else if i > k.len() {
                    assert(one[i] == v[i - k.len() - 1]);
                }
            }
        }
        assert(!is_space(one.last())) by {
            if v.len() > 0 {
                assert(one.last() == v[v.len() - 1]);
            } else {
                assert(one.last() == '=');
            }
        }
        if ps.len() > 1 {
            let rest = ps.drop_first();
            assert(rest.last() == ps.last());
            assert forall|i: int| 0 <= i < rest.len() implies is_key((#[trigger] rest[i]).0)
                && is_value(rest[i].1) && is_one_line(rest[i].0) && is_one_line(rest[i].1) by {
                assert(rest[i] == ps[i + 1]);
            }
            assert forall|i: int| 0 <= i < rest.len() - 1 implies closes_quotes(
                (#[trigger] rest[i]).1,
            ) by {
                assert(rest[i] == ps[i + 1]);
            }
            assert forall|i: int, j: int| 0 <= i < j < rest.len() implies text_before(
                (#[trigger] rest[i]).0,
                (#[trigger] rest[j]).0,
            ) by {
                assert(rest[i] == ps[i + 1] && rest[j] == ps[j + 1]);
            }
            lemma_written_pairs_shape(rest);
            let tail = render_pairs(rest);
            let all = render_pairs(ps);
            assert(all =~= one + seq![','] + tail);
            assert forall|i: int| 0 <= i < all.len() implies #[trigger] all[i] != '\n' by {
                if i < one.len() {
                    assert(all[i] == one[i]);
                } else if i > one.len() {
                    assert(all[i] == tail[i - one.len() - 1]);
                }
            }
            assert(all.last() == tail.last());
        }
    }
}

/// A written tag line is one line, trimmed, that holds something, and the
/// lexer reads the attribute list back from it.
pub proof fn lemma_tag_line(tag: Seq<char>, ps: Seq<Pair>)
    requires
        is_plain_list(ps),
        is_one_line(tag),
        tag.len() > 0,
        !is_space(tag[0]),
        !is_space(tag.last()),
    ensures
        is_one_line(tag + render_pairs(ps)),
        trim(tag + render_pairs(ps)) == tag + render_pairs(ps),
        (tag + render_pairs(ps)).len() > 0,
        attributes_in(tag + render_pairs(ps), tag.len()) == ps,
{
    let line = tag + render_pairs(ps);
    lemma_written_pairs_shape(ps);
    assert forall|i: int| 0 <= i < line.len() implies #[trigger] line[i] != '\n' by {
        if i < tag.len() {
            assert(line[i] == tag[i]);
        } else {
            assert(line[i] == render_pairs(ps)[i - tag.len()]);
        }
    }
    if ps.len() > 0 {
        assert(line.last() == render_pairs(ps).last());
    } else {
        assert(render_pairs(ps).len() == 0);
        assert(line.last() == tag.last());
    }
    assert(line[0] == tag[0]);
    lemma_trim_of_trimmed(line);
    assert(line.skip(tag.len() as int) =~= render_pairs(ps));
    lemma_lex_written(ps);
    lemma_collect_of_sorted(ps);
}

/// The lines of written entries are the lines that they are written as.
pub proof fn lemma_lines_of_written_entries(es: Seq<EntryView>)
    requires
        are_plain(es),
    ensures
        content_lines(render_entries(es)) == entries_lines(es),
    decreases es.len(),
{
    if es.len() == 0 {
        assert(content_lines(Seq::<char>::empty()) =~= Seq::<Seq<char>>::empty());
    } else {
        let rest = es.drop_first();
        assert forall|i: int| 0 <= i < rest.len() implies is_plain_entry(#[trigger] rest[i]) by {
            assert(rest[i] == es[i + 1]);
        }
        lemma_lines_of_written_entries(rest);
        lemma_tags();
        let after = render_entries(rest);
        let text = render_entries(es);
        assert(is_plain_entry(es[0]));
        match es[0] {
            EntryView::ExtXStreamInf { attributes, uri } => {
                let line = PREFIX_EXTXSTREAMINF@ + render_pairs(attributes);
                lemma_tag_line(PREFIX_EXTXSTREAMINF@, attributes);
                lemma_trim_of_trimmed(uri);
                assert(text =~= line + seq!['\n'] + (uri + seq!['\n'] + after));
                lemma_content_lines_cons(line, uri + seq!['\n'] + after);
                lemma_content_lines_cons(uri, after);
                assert(seq![line] + (seq![uri] + entries_lines(rest)) =~= entry_lines(es[0])
                    + entries_lines(rest));
            },
            EntryView::ExtXIFrame { attributes } => {
                let line = PREFIX_EXTXIFRAME@ + render_pairs(attributes);
                lemma_tag_line(PREFIX_EXTXIFRAME@, attributes);
                assert(text =~= line + seq!['\n'] + after);
                lemma_content_lines_cons(line, after);
            },
            EntryView::Alternative { attributes } => {
                let line = PREFIX@ + render_pairs(attributes);
                lemma_tag_line(PREFIX@, attributes);
                assert(text =~= line + seq!['\n'] + after);
                lemma_content_lines_cons(line, after);
            },
        }
    }
}

/// Parsing the lines that entries are written as gives the entries back.
pub proof fn lemma_parse_written_entries(es: Seq<EntryView>)
    requires
        are_plain(es),
    ensures
        parse_lines(entries_lines(es)) == (PlaylistView {
            valid_header: false,
            independent_segments: false,
            entries: es,
        }),
    decreases es.len(),
{
    if es.len() == 0 {
        assert(es =~= Seq::empty());
    } else {
        let rest = es.drop_first();
        assert forall|i: int| 0 <= i < rest.len() implies is_plain_entry(#[trigger] rest[i]) by {
            assert(rest[i] == es[i + 1]);
        }
        lemma_parse_written_entries(rest);
        lemma_tags();
        let lines = entries_lines(es);
        let after = entries_lines(rest);
        assert(is_plain_entry(es[0]));
        assert(seq![es[0]] + rest =~= es);
        match es[0] {
            EntryView::ExtXStreamInf { attributes, uri } => {
                lemma_tag_line(PREFIX_EXTXSTREAMINF@, attributes);
                lemma_kinds(render_pairs(attributes));
                assert(lines[0] == PREFIX_EXTXSTREAMINF@ + render_pairs(attributes));
                assert(lines[1] == uri);
                assert(lines.skip(2) =~= after);
            },
            EntryView::ExtXIFrame { attributes } => {
                lemma_tag_line(PREFIX_EXTXIFRAME@, attributes);
                lemma_kinds(render_pairs(attributes));
                assert(lines[0] == PREFIX_EXTXIFRAME@ + render_pairs(attributes));
                assert(lines.skip(1) =~= after);
            },
            EntryView::Alternative { attributes } => {
                lemma_tag_line(PREFIX@, attributes);
                lemma_kinds(render_pairs(attributes));
                assert(lines[0] == PREFIX@ + render_pairs(attributes));
                assert(lines.skip(1) =~= after);
            },
        }
    }
}

/// Parsing the text of a playlist gives the playlist back, with the header
/// seen, whenever each entry is read again as it is written.
pub proof fn lemma_parse_written(p: PlaylistView)
    requires
        are_plain(p.entries),
    ensures
        parse_text(render_playlist(p)) == (PlaylistView {
            valid_header: true,
            independent_segments: p.independent_segments,
            entries: p.entries,
        }),
{
    lemma_tags();
    lemma_kinds(Seq::empty());
    lemma_lines_of_written_entries(p.entries);
    lemma_parse_written_entries(p.entries);
    let body = render_entries(p.entries);
    let lines = entries_lines(p.entries);
    lemma_trim_of_trimmed(HEADER@);
    lemma_trim_of_trimmed(INDEPENDENT_SEGMENTS@);
    if p.independent_segments {
        let text = render_playlist(p);
        assert(text =~= HEADER@ + seq!['\n'] + (INDEPENDENT_SEGMENTS@ + seq!['\n'] + body));
        lemma_content_lines_cons(HEADER@, INDEPENDENT_SEGMENTS@ + seq!['\n'] + body);
        lemma_content_lines_cons(INDEPENDENT_SEGMENTS@, body);
        let all = seq![HEADER@] + (seq![INDEPENDENT_SEGMENTS@] + lines);
        assert(content_lines(text) == all);
        let second = all.skip(1);
        assert(second =~= seq![INDEPENDENT_SEGMENTS@] + lines);
        assert(second.skip(1) =~= lines);
        assert(all[0] == HEADER@);
        assert(second[0] == INDEPENDENT_SEGMENTS@);
        assert(parse_lines(second) == (PlaylistView {
            valid_header: false,
            independent_segments: true,
            entries: p.entries,
        }));
        assert(parse_lines(all).entries == p.entries);
    } else {
        let text = render_playlist(p);
        assert(text =~= HEADER@ + seq!['\n'] + body);
        lemma_content_lines_cons(HEADER@, body);
        let all = seq![HEADER@] + lines;
        assert(content_lines(text) == all);
        assert(all.skip(1) =~= lines);
        assert(all[0] == HEADER@);
        assert(parse_lines(all).entries == p.entries);
    }
}

/// Writing a playlist, parsing what was written and writing it again gives
/// the same text, whenever each entry is read again as it is written.
pub proof fn lemma_render_is_idempotent(p: PlaylistView)
    requires
        are_plain(p.entries),
    ensures
        render_playlist(parse_text(render_playlist(p))) == render_playlist(p),
{
    lemma_parse_written(p);
}

/// The attribute list of the entry `e`.
pub open spec fn attributes_of(e: EntryView) -> Seq<Pair> {
    match e {
        EntryView::ExtXStreamInf { attributes, .. } => attributes,
        EntryView::ExtXIFrame { attributes } => attributes,
        EntryView::Alternative { attributes } => attributes,
    }
}

/// Whether the attribute list `ps` is settled: every value but the last
/// closes its quotes, and the last pair is not empty on both sides. A list
/// that is read from a line can fail this only where a value leaves a quote
/// open, or where the line holds a lone `=` as its only pair.
pub open spec fn is_settled(ps: Seq<Pair>) -> bool {
    &&& forall|i: int| 0 <= i < ps.len() - 1 ==> closes_quotes((#[trigger] ps[i]).1)
    &&& ps.len() > 0 ==> ps.last().0.len() + ps.last().1.len() > 0
}

/// Whether the pair `p` is such as the lexer reads from one line.
pub open spec fn is_read_pair(p: Pair) -> bool {
    is_key(p.0) && is_value(p.1) && is_one_line(p.0) && is_one_line(p.1)
}

/// Whether the entry `e` is such as the parser reads: pairs as the lexer
/// reads them from one line, with keys in strict order, and for a variant
/// stream a URI that is one trimmed line and holds something.
pub open spec fn is_read_entry(e: EntryView) -> bool {
    &&& forall|i: int| 0 <= i < attributes_of(e).len() ==> is_read_pair(#[trigger] attributes_of(e)[i])
    &&& strictly_sorted(attributes_of(e))
    &&& e matches EntryView::ExtXStreamInf { uri, .. } ==> is_trimmed(uri) && is_one_line(uri)
        && uri.len() > 0
}

/// The trimmed form of one line is one line.
pub proof fn lemma_trim_one_line(x: Seq<char>)
    requires
        is_one_line(x),
    ensures
        is_one_line(trim(x)),
{
    let (a, b) = lemma_trim_range(x);
    assert forall|i: int| 0 <= i < trim(x).len() implies #[trigger] trim(x)[i] != '\n' by {
        assert(trim(x)[i] == x[a + i]);
    }
}

/// The lines of a text are each one line, trimmed, and hold something.
pub proof fn lemma_content_lines_shape(t: Seq<char>)
    ensures
        forall|i: int|
            0 <= i < content_lines(t).len() ==> {
                &&& is_one_line(#[trigger] content_lines(t)[i])
                &&& is_trimmed(content_lines(t)[i])
                &&& content_lines(t)[i].len() > 0
            },
    decreases t.len(),
{
    lemma_find_from_bounds(t, '\n', 0);
    let n = find_from(t, '\n', 0);
    let piece = t.take(n);
    let line = trim(piece);
    assert forall|k: int| 0 <= k < piece.len() implies #[trigger] piece[k] != '\n' by {
        assert(piece[k] == t[k]);
    }
    lemma_trim_one_line(piece);
    lemma_trim_is_trimmed(piece);
    let rest = if n < t.len() {
        content_lines(t.skip(n + 1))
    } else {
        Seq::empty()
    };
    if n < t.len() {
        lemma_content_lines_shape(t.skip(n + 1));
    }
    let all = content_lines(t);
    assert forall|i: int| 0 <= i < all.len() implies {
        &&& is_one_line(#[trigger] all[i])
        &&& is_trimmed(all[i])
        &&& all[i].len() > 0
    } by {
        if line.len() > 0 {
            if i > 0 {
                assert(all[i] == rest[i - 1]);
            }
        } else {
            assert(all[i] == rest[i]);
        }
    }
}

/// The pairs that the lexer reads from one line are each as it reads them,
/// and hold no line feed.
pub proof fn lemma_pairs_are_read(s: Seq<char>)
    requires
        is_one_line(s),
    ensures
        forall|i: int| 0 <= i < pairs_of(s).len() ==> is_read_pair(#[trigger] pairs_of(s)[i]),
    decreases s.len(),
{
    lemma_first_pair_is_lexed(s);
    lemma_find_unquoted_bounds(s, '=', 0);
    match first_pair(s) {
        Some((k, v, n)) => {
            let e = find_unquoted(s, '=', 0);
            lemma_find_unquoted_bounds(s, ',', e + 1);
            let c = find_unquoted(s, ',', e + 1);
            let raw_key = s.subrange(0, e);
            let raw_value = s.subrange(e + 1, c);
            assert(is_one_line(raw_key)) by {
                assert forall|i: int| 0 <= i < raw_key.len() implies #[trigger] raw_key[i]
                    != '\n' by {
                    assert(raw_key[i] == s[i]);
                }
            }
            assert(is_one_line(raw_value)) by {
                assert forall|i: int| 0 <= i < raw_value.len() implies #[trigger] raw_value[i]
                    != '\n' by {
                    assert(raw_value[i] == s[e + 1 + i]);
                }
            }
            lemma_trim_one_line(raw_key);
            lemma_trim_one_line(raw_value);
            let after = s.skip(n);
            assert forall|i: int| 0 <= i < after.len() implies #[trigger] after[i] != '\n' by {
                assert(after[i] == s[n + i]);
            }
            lemma_pairs_are_read(after);
            let ps = pairs_of(s);
            let rest = pairs_of(after);
            assert(ps =~= seq![(k, v)] + rest);
            assert forall|i: int| 0 <= i < ps.len() implies is_read_pair(#[trigger] ps[i]) by {
                if i > 0 {
                    assert(ps[i] == rest[i - 1]);
                }
            }
        },
        None => {},
    }
}

/// Collecting pairs that the lexer read gives pairs that the lexer read.
pub proof fn lemma_collect_keeps_read(ps: Seq<Pair>)
    requires
        forall|i: int| 0 <= i < ps.len() ==> is_read_pair(#[trigger] ps[i]),
    ensures
        forall|i: int| 0 <= i < collect(ps).len() ==> is_read_pair(#[trigger] collect(ps)[i]),
    decreases ps.len(),
{
    if ps.len() > 0 {
        let front = ps.drop_last();
        assert forall|i: int| 0 <= i < front.len() implies is_read_pair(#[trigger] front[i]) by {
            assert(front[i] == ps[i]);
        }
        lemma_collect_keeps_read(front);
        let old = collect(front);
        let new = collect(ps);
        let r = rank_from(old, ps.last().0, 0);
        lemma_rank_from_bounds(old, ps.last().0, 0);
        assert(is_read_pair(ps[ps.len() - 1]));
        assert forall|i: int| 0 <= i < new.len() implies is_read_pair(#[trigger] new[i]) by {
            if i == r {
                assert(new[i] == (ps.last().0, ps.last().1));
            } else if r < old.len() && old[r].0 == ps.last().0 {
                assert(new[i] == old[i]);
            } else if i < r {
                assert(new[i] == old[i]);
            } else {
                assert(new[i] == old[i - 1]);
            }
        }
    }
}

/// The attribute list read from a tag line of one line.
pub proof fn lemma_attributes_are_read(line: Seq<char>, tag_len: nat)
    requires
        is_one_line(line),
        tag_len <= trim(line).len(),
    ensures
        forall|i: int|
            0 <= i < attributes_in(line, tag_len).len() ==> is_read_pair(
                #[trigger] attributes_in(line, tag_len)[i],
            ),
        strictly_sorted(attributes_in(line, tag_len)),
{
    lemma_trim_one_line(line);
    let s = trim(line).skip(tag_len as int);
    assert forall|i: int| 0 <= i < s.len() implies #[trigger] s[i] != '\n' by {
        assert(s[i] == trim(line)[tag_len + i]);
    }
    lemma_pairs_are_read(s);
    lemma_collect_keeps_read(pairs_of(s));
    lemma_collect_sorted(pairs_of(s));
}

/// The entries parsed from trimmed lines that hold something are each such
/// as the parser reads.
pub proof fn lemma_parsed_entries_are_read(lines: Seq<Seq<char>>)
    requires
        forall|i: int|
            0 <= i < lines.len() ==> is_one_line(#[trigger] lines[i]) && is_trimmed(lines[i])
                && lines[i].len() > 0,
    ensures
        forall|i: int|
            0 <= i < parse_lines(lines).entries.len() ==> is_read_entry(
                #[trigger] parse_lines(lines).entries[i],
            ),
    decreases lines.len(),
{
    if lines.len() > 0 {
        let kind = kind_of(lines[0]);
        let used: int = if kind == LineKind::StreamInf && lines.len() > 1 {
            2
        } else {
            1
        };
        let after = lines.skip(used);
        assert forall|i: int| 0 <= i < after.len() implies is_one_line(#[trigger] after[i])
            && is_trimmed(after[i]) && after[i].len() > 0 by {
            assert(after[i] == lines[used + i]);
        }
        lemma_parsed_entries_are_read(after);
        let rest = parse_lines(after).entries;
        let all = parse_lines(lines).entries;
        assert(is_one_line(lines[0]));
        lemma_trim_of_trimmed(lines[0]);
        match kind {
            LineKind::StreamInf => {
                if lines.len() > 1 {
                    lemma_attributes_are_read(lines[0], PREFIX_EXTXSTREAMINF@.len());
                    assert(is_one_line(lines[1]) && is_trimmed(lines[1]) && lines[1].len() > 0);
                    assert forall|i: int| 0 <= i < all.len() implies is_read_entry(
                        #[trigger] all[i],
                    ) by {
                        if i > 0 {
                            assert(all[i] == rest[i - 1]);
                        }
                    }
                }
            },
            LineKind::IFrame => {
                lemma_attributes_are_read(lines[0], PREFIX_EXTXIFRAME@.len());
                assert forall|i: int| 0 <= i < all.len() implies is_read_entry(#[trigger] all[i]) by {
                    if i > 0 {
                        assert(all[i] == rest[i - 1]);
                    }
                }
            },
            LineKind::Media => {
                lemma_attributes_are_read(lines[0], PREFIX@.len());
                assert forall|i: int| 0 <= i < all.len() implies is_read_entry(#[trigger] all[i]) by {
                    if i > 0 {
                        assert(all[i] == rest[i - 1]);
                    }
                }
            },
            _ => {},
        }
    }
}

/// Every entry of a playlist parsed from a text is such as the parser reads.
pub proof fn lemma_parsed_is_read(t: Seq<char>)
    ensures
        forall|i: int|
            0 <= i < parse_text(t).entries.len() ==> is_read_entry(
                #[trigger] parse_text(t).entries[i],
            ),
{
    lemma_content_lines_shape(t);
    lemma_parsed_entries_are_read(content_lines(t));
}

/// An entry such as the parser reads, with a settled attribute list, is read
/// again as it is written.
pub proof fn lemma_read_and_settled_is_plain(e: EntryView)
    requires
        is_read_entry(e),
        is_settled(attributes_of(e)),
    ensures
        is_plain_entry(e),
{
    let ps = attributes_of(e);
    assert forall|i: int| 0 <= i < ps.len() implies is_key((#[trigger] ps[i]).0) && is_value(
        ps[i].1,
    ) && is_one_line(ps[i].0) && is_one_line(ps[i].1) by {
        assert(is_read_pair(ps[i]));
    }
}

/// Parsing any text, writing the playlist, parsing what was written and
/// writing it again gives the same text twice, whenever the attribute lists
/// that were parsed are settled.
pub proof fn lemma_parse_render_is_idempotent(t: Seq<char>)
    requires
        forall|i: int|
            0 <= i < parse_text(t).entries.len() ==> is_settled(
                attributes_of(#[trigger] parse_text(t).entries[i]),
            ),
    ensures
        are_plain(parse_text(t).entries),
        render_playlist(parse_text(render_playlist(parse_text(t)))) == render_playlist(
            parse_text(t),
        ),
{
    let p = parse_text(t);
    lemma_parsed_is_read(t);
    assert forall|i: int| 0 <= i < p.entries.len() implies is_plain_entry(
        #[trigger] p.entries[i],
    ) by {
        lemma_read_and_settled_is_plain(p.entries[i]);
    }
    lemma_render_is_idempotent(p);
}

} // verus!
