//! The lexer of attribute lists: `KEY=value` pairs separated by commas, where
//! a comma inside double quotes separates nothing.
//!
//! A double quote always opens or closes a quoted stretch; nothing escapes
//! it. A key ends at the first `=` outside quotes, a value at the first `,`
//! outside quotes or at the end of the list. Where what is left holds no `=`
//! outside quotes, or fewer than two characters, the lexer is exhausted: a
//! list that breaks off is read up to the break and is no error.
use crate::text::{chars_of, trim, trim_range};
use vstd::prelude::*;

verus! {

/// Whether position `i` of `s` lies inside double quotes: an odd number of
/// `"` stands before it.
pub open spec fn in_quotes(s: Seq<char>, i: int) -> bool
    decreases i,
{
    if i <= 0 || i > s.len() {
        false
    } else {
        in_quotes(s, i - 1) != (s[i - 1] == '"')
    }
}

/// Whether position `i` of `s` holds `c` outside double quotes.
pub open spec fn is_unquoted(s: Seq<char>, c: char, i: int) -> bool {
    0 <= i < s.len() && s[i] == c && !in_quotes(s, i)
}

/// The first position at or after `i` that holds `c` outside double quotes,
/// or the length of `s` where there is none.
pub open spec fn find_unquoted(s: Seq<char>, c: char, i: int) -> int
    decreases s.len() - i,
{
    if 0 <= i < s.len() && !is_unquoted(s, c, i) {
        find_unquoted(s, c, i + 1)
    } else {
        i
    }
}

/// How many positions before `n` hold `c` outside double quotes.
pub open spec fn count_unquoted(s: Seq<char>, c: char, n: int) -> nat
    decreases n,
{
    if n <= 0 {
        0
    } else if is_unquoted(s, c, n - 1) {
        count_unquoted(s, c, n - 1) + 1
    } else {
        count_unquoted(s, c, n - 1)
    }
}

/// What stands at the head of the list `s`: the key and the value of its
/// first pair, both trimmed, and the number of characters that the pair
/// takes, its closing comma included. `None` where `s` begins with no pair:
/// where it holds fewer than two characters, or no `=` outside quotes.
/// Counting bytes in place of characters would decide alike, since a lone
/// character of more than one byte is no `=`.
pub open spec fn first_pair(s: Seq<char>) -> Option<(Seq<char>, Seq<char>, int)> {
    let e = find_unquoted(s, '=', 0);
    if s.len() < 2 || e >= s.len() {
        None
    } else {
        let c = find_unquoted(s, ',', e + 1);
        Some(
            (
                trim(s.subrange(0, e)),
                trim(s.subrange(e + 1, c)),
                if c < s.len() {
                    c + 1
                } else {
                    c
                },
            ),
        )
    }
}

/// The pairs of the list `s`, in the order in which they stand.
pub open spec fn pairs_of(s: Seq<char>) -> Seq<(Seq<char>, Seq<char>)>
    decreases s.len(),
{
    match first_pair(s) {
        Some((k, v, n)) if 0 < n <= s.len() => seq![(k, v)] + pairs_of(s.skip(n)),
        _ => Seq::empty(),
    }
}

/// Whether `s` holds no `c` outside double quotes.
pub open spec fn free_of(s: Seq<char>, c: char) -> bool {
    forall|i: int| 0 <= i < s.len() ==> !#[trigger] is_unquoted(s, c, i)
}

/// Whether every double quote that `s` opens is closed in `s`.
pub open spec fn closes_quotes(s: Seq<char>) -> bool {
    !in_quotes(s, s.len() as int)
}

/// Whether the list `s` is regular: none of its values holds an `=` outside
/// quotes, and it does not end in a lone `=` where a pair should begin.
pub open spec fn is_regular(s: Seq<char>) -> bool
    decreases s.len(),
{
    match first_pair(s) {
        Some((k, v, n)) if 0 < n <= s.len() => free_of(v, '=') && is_regular(s.skip(n)),
        _ => s != seq!['='],
    }
}

/// What `find_unquoted` finds lies between `i` and the end, holds `c` outside
/// quotes unless it is the end, and no position before it does.
pub proof fn lemma_find_unquoted_bounds(s: Seq<char>, c: char, i: int)
    requires
        0 <= i <= s.len(),
    ensures
        i <= find_unquoted(s, c, i) <= s.len(),
        find_unquoted(s, c, i) < s.len() ==> is_unquoted(s, c, find_unquoted(s, c, i)),
        forall|k: int| i <= k < find_unquoted(s, c, i) ==> !is_unquoted(s, c, k),
    decreases s.len() - i,
{
    if i < s.len() && !is_unquoted(s, c, i) {
        lemma_find_unquoted_bounds(s, c, i + 1);
    }
}

/// A pair takes at least one character and no more than there are.
pub proof fn lemma_first_pair_bounds(s: Seq<char>)
    ensures
        match first_pair(s) {
            Some((k, v, n)) => 0 < n <= s.len(),
            None => true,
        },
{
    lemma_find_unquoted_bounds(s, '=', 0);
    let e = find_unquoted(s, '=', 0);
    if e < s.len() {
        lemma_find_unquoted_bounds(s, ',', e + 1);
    }
}

/// Whether `part` stands somewhere in `whole`, character for character.
pub open spec fn is_slice_of(part: Seq<char>, whole: Seq<char>) -> bool {
    exists|a: int, b: int| 0 <= a <= b <= whole.len() && part == #[trigger] whole.subrange(a, b)
}

/// A lexer over one attribute list. It walks the list from left to right and
/// hands out one pair at a time, as slices of the list.
#[derive(Clone, Debug)]
pub struct AttributePairs<'a> {
    string: &'a str,
    chars: Vec<char>,
    index: usize,
}

impl<'a> AttributePairs<'a> {
    /// The lexer's invariant: its position lies within the list.
    pub closed spec fn wf(&self) -> bool {
        &&& self.chars@ == self.string@
        &&& self.index <= self.chars@.len()
    }

    /// The list that the lexer was made for.
    pub closed spec fn source(&self) -> Seq<char> {
        self.string@
    }

    /// The part of the list that has not been read yet.
    pub closed spec fn remaining(&self) -> Seq<char> {
        self.string@.skip(self.index as int)
    }

    /// A lexer at the start of `string`.
    pub fn new(string: &'a str) -> (r: Self)
        ensures
            r.wf(),
            r.source() == string@,
            r.remaining() == string@,
    {
        let chars = chars_of(string);
        proof {
            assert(string@.skip(0) =~= string@);
        }
        AttributePairs { string, chars, index: 0 }
    }

    /// The next pair, key and value trimmed, quotes kept, both as slices of
    /// the list; the lexer moves past the pair and its comma. `None`, with the
    /// lexer unmoved, where no pair is left.
    pub fn next(&mut self) -> (r: Option<(&'a str, &'a str)>)
        requires
            old(self).wf(),
        ensures
            final(self).wf(),
            final(self).source() == old(self).source(),
            match first_pair(old(self).remaining()) {
                Some((k, v, n)) => {
                    &&& r matches Some((key, value))
                    &&& key@ == k
                    &&& value@ == v
                    &&& is_slice_of(key@, old(self).source())
                    &&& is_slice_of(value@, old(self).source())
                    &&& final(self).remaining() == old(self).remaining().skip(n)
                },
                None => r is None && final(self).remaining() == old(self).remaining(),
            },
    {
        let n: usize = self.chars.len();
        let start: usize = self.index;
        let ghost rem = self.chars@.skip(start as int);
        if n - start < 2 {
            return None;
        }
        let mut e: usize = start;
        let mut quoted: bool = false;
        while e < n && (quoted || self.chars[e] != '=')
            invariant
                start <= e <= n,
                n == self.chars@.len(),
                rem == self.chars@.skip(start as int),
                quoted == in_quotes(rem, e - start),
                find_unquoted(rem, '=', 0) == find_unquoted(rem, '=', e - start),
            decreases n - e,
        {
            if self.chars[e] == '"' {
                quoted = !quoted;
            }
            e += 1;
        }
        if e == n {
            return None;
        }
        let mut c: usize = e + 1;
        let mut inside: bool = false;
        while c < n && (inside || self.chars[c] != ',')
            invariant
                start <= e < c <= n,
                n == self.chars@.len(),
                rem == self.chars@.skip(start as int),
                inside == in_quotes(rem, c - start),
                find_unquoted(rem, ',', e + 1 - start) == find_unquoted(rem, ',', c - start),
            decreases n - c,
        {
            if self.chars[c] == '"' {
                inside = !inside;
            }
            c += 1;
        }
        let (ka, kb) = trim_range(&self.chars, start, e);
        let (va, vb) = trim_range(&self.chars, e + 1, c);
        let text: &'a str = self.string;
        let key: &'a str = text.substring_char(ka, kb);
        let value: &'a str = text.substring_char(va, vb);
        self.index = if c < n {
            c + 1
        } else {
            c
        };
        proof {
            assert(rem.subrange(0, e - start) =~= self.chars@.subrange(start as int, e as int));
            assert(rem.subrange(e + 1 - start, c - start) =~= self.chars@.subrange(
                e + 1,
                c as int,
            ));
            assert(self.chars@.skip(self.index as int) =~= rem.skip(self.index - start));
            assert(key@ == self.string@.subrange(ka as int, kb as int));
            assert(value@ == self.string@.subrange(va as int, vb as int));
        }
        Some((key, value))
    }

    /// How many pairs are left, by the count of `=` outside quotes in what has
    /// not been read, as both bounds.
    pub fn size_hint(&self) -> (r: (usize, Option<usize>))
        requires
            self.wf(),
        ensures
            r.0 == count_unquoted(self.remaining(), '=', self.remaining().len() as int),
            r.1 == Some(r.0),
    {
        let n: usize = self.chars.len();
        let start: usize = self.index;
        let ghost rem = self.chars@.skip(start as int);
        let mut count: usize = 0;
        let mut quoted: bool = false;
        let mut i: usize = start;
        while i < n
            invariant
                start <= i <= n,
                n == self.chars@.len(),
                rem == self.chars@.skip(start as int),
                quoted == in_quotes(rem, i - start),
                count == count_unquoted(rem, '=', i - start),
                count <= i - start,
            decreases n - i,
        {
            let ch: char = self.chars[i];
            if ch == '=' && !quoted {
                count += 1;
            } else if ch == '"' {
                quoted = !quoted;
            }
            i += 1;
        }
        (count, Some(count))
    }
}

} // verus!
