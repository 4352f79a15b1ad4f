//! Sorting by several fields at once: one stable sort under a comparison
//! that asks the fields in turn, and lets the first that tells two items
//! apart decide.
use itertools::FoldWhile;
use itertools::Itertools;
use std::cmp::Ordering;
use vstd::prelude::*;

verus! {

/// The direction of a sort.
#[derive(Debug, Clone, Copy, PartialEq, Eq)]
pub enum Direction {
    Asc,
    Desc,
}

impl Default for Direction {
    /// Ascending.
    fn default() -> (r: Self)
        ensures
            r == Direction::Asc,
    {
        Direction::Asc
    }
}

/// A field to sort by, and the direction to sort it in.
pub struct SortField<T> {
    pub field: T,
    pub direction: Direction,
}

/// Items that can be compared field by field. Each field gives an item a
/// number, and two items compare on a field as their numbers do.
pub trait SortableByField<T>: Sized {
    /// The number that `field` gives to this item.
    spec fn field_value(&self, field: &T) -> int;

    /// How this item stands to `rhs` on `field`, in ascending order.
    fn sort(&self, rhs: &Self, field: &T) -> (res: Ordering)
        ensures
            res == order_of(self.field_value(field), rhs.field_value(field)),
    ;
}

/// How the number `a` stands to the number `b`.
pub open spec fn order_of(a: int, b: int) -> Ordering {
    if a < b {
        Ordering::Less
    } else if a == b {
        Ordering::Equal
    } else {
        Ordering::Greater
    }
}

/// `o` turned round.
pub open spec fn reversed(o: Ordering) -> Ordering {
    match o {
        Ordering::Less => Ordering::Greater,
        Ordering::Equal => Ordering::Equal,
        Ordering::Greater => Ordering::Less,
    }
}

/// How `a` stands to `b` on the field `f`, in the direction of `f`.
pub open spec fn field_order<E: SortableByField<T>, T>(a: E, b: E, f: SortField<T>) -> Ordering {
    let o = order_of(a.field_value(&f.field), b.field_value(&f.field));
    match f.direction {
        Direction::Desc => reversed(o),
        Direction::Asc => o,
    }
}

/// How `a` stands to `b` under `fields`: as on the first field on which they
/// differ, and equal where they differ on none.
pub open spec fn composite<E: SortableByField<T>, T>(
    a: E,
    b: E,
    fields: Seq<SortField<T>>,
) -> Ordering
    decreases fields.len(),
{
    if fields.len() == 0 {
        Ordering::Equal
    } else if field_order(a, b, fields[0]) is Equal {
        composite(a, b, fields.drop_first())
    } else {
        field_order(a, b, fields[0])
    }
}

/// Whether `a` comes before `b` under `fields`.
pub open spec fn goes_before<E: SortableByField<T>, T>(
    a: E,
    b: E,
    fields: Seq<SortField<T>>,
) -> bool {
    composite(a, b, fields) is Less
}

/// Whether `fields` cannot tell `a` and `b` apart.
pub open spec fn ties<E: SortableByField<T>, T>(a: E, b: E, fields: Seq<SortField<T>>) -> bool {
    composite(a, b, fields) is Equal
}

/// One step of the fold over the fields: while the fields so far have found
/// no difference, the next field is asked; after that the answer stands.
pub open spec fn fold_step<E: SortableByField<T>, T>(
    acc: Ordering,
    a: E,
    b: E,
    f: SortField<T>,
) -> FoldWhile<Ordering> {
    match acc {
        Ordering::Equal => FoldWhile::Continue(field_order(a, b, f)),
        _ => FoldWhile::Done(acc),
    }
}

/// A fold of `fold_step` over `fields` from `acc` that ends at the first
/// `Done`.
pub open spec fn fold_fields_from<E: SortableByField<T>, T>(
    acc: Ordering,
    a: E,
    b: E,
    fields: Seq<SortField<T>>,
) -> FoldWhile<Ordering>
    decreases fields.len(),
{
    if fields.len() == 0 {
        FoldWhile::Continue(acc)
    } else {
        match fold_step(acc, a, b, fields[0]) {
            FoldWhile::Continue(next) => fold_fields_from(next, a, b, fields.drop_first()),
            FoldWhile::Done(last) => FoldWhile::Done(last),
        }
    }
}

/// What a fold holds at its end, however it ended.
pub open spec fn inner_of(r: FoldWhile<Ordering>) -> Ordering {
    match r {
        FoldWhile::Continue(x) => x,
        FoldWhile::Done(x) => x,
    }
}

/// `FoldWhile` of itertools, with its two variants: what a step of
/// `fold_while` answers, and what the fold ends with.
#[verifier::external_type_specification]
#[verifier::reject_recursive_types(T)]
pub struct ExFoldWhile<T>(FoldWhile<T>);

/// `FoldWhile::into_inner` of itertools: the value that the fold holds,
/// whether it went on to the end or was ended early.
pub assume_specification<T>[ FoldWhile::<T>::into_inner ](this: FoldWhile<T>) -> (r: T)
    ensures
        r == match this {
            FoldWhile::Continue(x) => x,
            FoldWhile::Done(x) => x,
        },
;

/// `o` turned round.
fn reverse_of(o: Ordering) -> (r: Ordering)
    ensures
        r == reversed(o),
{
    match o {
        Ordering::Less => Ordering::Greater,
        Ordering::Equal => Ordering::Equal,
        Ordering::Greater => Ordering::Less,
    }
}

/// One step of the fold over the fields.
fn ask_next<E: SortableByField<T>, T>(acc: Ordering, a: &E, b: &E, f: &SortField<T>) -> (r: FoldWhile<
    Ordering,
>)
    ensures
        r == fold_step(acc, *a, *b, *f),
{
    match acc {
        Ordering::Equal => {
            let o = a.sort(b, &f.field);
            FoldWhile::Continue(
                match f.direction {
                    Direction::Desc => reverse_of(o),
                    Direction::Asc => o,
                },
            )
        },
        _ => FoldWhile::Done(acc),
    }
}

/// `Itertools::fold_while` of itertools over the fields, from `Equal`, with
/// `ask_next` as its function: the fold hands each field and the value so far to
/// the function, goes on with what a `Continue` holds, and ends with the
/// first `Done` or, after the last field, with a `Continue` of the value
/// reached.
#[verifier::external_body]
fn fold_fields<E: SortableByField<T>, T>(a: &E, b: &E, fields: &[SortField<T>]) -> (r: FoldWhile<
    Ordering,
>)
    ensures
        r == fold_fields_from(Ordering::Equal, *a, *b, fields@),
{
    fields.iter().fold_while(Ordering::Equal, |acc, f| ask_next(acc, a, b, f))
}

/// Once the fold holds a difference, it ends with that difference.
proof fn lemma_fold_settled<E: SortableByField<T>, T>(
    acc: Ordering,
    a: E,
    b: E,
    fields: Seq<SortField<T>>,
)
    requires
        !(acc is Equal),
    ensures
        inner_of(fold_fields_from(acc, a, b, fields)) == acc,
{
}

/// The fold over the fields ends with the composite comparison.
pub proof fn lemma_fold_is_composite<E: SortableByField<T>, T>(
    a: E,
    b: E,
    fields: Seq<SortField<T>>,
)
    ensures
        inner_of(fold_fields_from(Ordering::Equal, a, b, fields)) == composite(a, b, fields),
    decreases fields.len(),
{
    if fields.len() > 0 {
        let o = field_order(a, b, fields[0]);
        if o is Equal {
            lemma_fold_is_composite(a, b, fields.drop_first());
        } else {
            lemma_fold_settled(o, a, b, fields.drop_first());
        }
    }
}

/// How `a` stands to `b` under `fields`.
pub fn compare<E: SortableByField<T>, T>(a: &E, b: &E, fields: &[SortField<T>]) -> (r: Ordering)
    ensures
        r == composite(*a, *b, fields@),
{
    proof {
        lemma_fold_is_composite(*a, *b, fields@);
    }
    fold_fields(a, b, fields).into_inner()
}

/// Whether `a` comes before `b` under `fields`.
pub fn precedes<E: SortableByField<T>, T>(a: &E, b: &E, fields: &[SortField<T>]) -> (r: bool)
    ensures
        r == goes_before(*a, *b, fields@),
{
    match compare(a, b, fields) {
        Ordering::Less => true,
        _ => false,
    }
}

/// Of two items exactly one holds: the first comes before the second, the
/// second before the first, or they tie. Ties go both ways.
pub proof fn lemma_order_total<E: SortableByField<T>, T>(a: E, b: E, fields: Seq<SortField<T>>)
    ensures
        goes_before(a, b, fields) || goes_before(b, a, fields) || ties(a, b, fields),
        !(goes_before(a, b, fields) && goes_before(b, a, fields)),
        !(goes_before(a, b, fields) && ties(a, b, fields)),
        ties(a, b, fields) == ties(b, a, fields),
    decreases fields.len(),
{
    if fields.len() > 0 {
        lemma_order_total(a, b, fields.drop_first());
    }
}

/// Coming before, with ties let in on either side, carries over a middle
/// item; so do ties.
pub proof fn lemma_order_transitive<E: SortableByField<T>, T>(
    a: E,
    b: E,
    c: E,
    fields: Seq<SortField<T>>,
)
    ensures
        goes_before(a, b, fields) && goes_before(b, c, fields) ==> goes_before(a, c, fields),
        goes_before(a, b, fields) && ties(b, c, fields) ==> goes_before(a, c, fields),
        ties(a, b, fields) && goes_before(b, c, fields) ==> goes_before(a, c, fields),
        ties(a, b, fields) && ties(b, c, fields) ==> ties(a, c, fields),
    decreases fields.len(),
{
    if fields.len() > 0 {
        lemma_order_transitive(a, b, c, fields.drop_first());
    }
}

/// Whether `p` tells, for each place of `after`, the place of `before` that
/// its item came from, with no place of `before` told twice.
pub open spec fn arranges<E>(p: Seq<int>, before: Seq<E>, after: Seq<E>) -> bool {
    &&& p.len() == before.len()
    &&& after.len() == before.len()
    &&& forall|i: int|
        0 <= i < p.len() ==> 0 <= #[trigger] p[i] < before.len() && after[i] == before[p[i]]
    &&& forall|i: int, j: int| 0 <= i < j < p.len() ==> #[trigger] p[i] != #[trigger] p[j]
}

/// Whether the items at the places `i` and `j` of `after` stand in order:
/// the first comes before the second under `fields`, or they tie and the
/// first came from the earlier place.
pub open spec fn pair_in_order<E: SortableByField<T>, T>(
    p: Seq<int>,
    after: Seq<E>,
    fields: Seq<SortField<T>>,
    i: int,
    j: int,
) -> bool {
    goes_before(after[i], after[j], fields) || (ties(after[i], after[j], fields) && p[i] < p[j])
}

/// Whether the first `n` items of `after` stand in order, each two of them.
pub open spec fn in_order<E: SortableByField<T>, T>(
    p: Seq<int>,
    after: Seq<E>,
    fields: Seq<SortField<T>>,
    n: int,
) -> bool {
    forall|i: int, j: int| 0 <= i < j < n ==> #[trigger] pair_in_order(p, after, fields, i, j)
}

/// Whether `after` is `before` sorted under `fields`, stably: it holds the
/// same items, in order, and items that tie stand as they stood in `before`.
pub open spec fn is_stable_sort<E: SortableByField<T>, T>(
    before: Seq<E>,
    after: Seq<E>,
    fields: Seq<SortField<T>>,
) -> bool {
    exists|p: Seq<int>|
        #[trigger] arranges(p, before, after) && in_order(p, after, fields, after.len() as int)
}

/// Whether the item at place `x` of `items` goes before the item at place
/// `y` in a stable sort: it comes before it under `fields`, or they tie and
/// `x` is the earlier place.
pub open spec fn comes_first<E: SortableByField<T>, T>(
    items: Seq<E>,
    fields: Seq<SortField<T>>,
    x: int,
    y: int,
) -> bool {
    goes_before(items[x], items[y], fields) || (ties(items[x], items[y], fields) && x < y)
}

/// Whether `run` holds places of `items` from `lo` up to `hi`, as many as
/// there are, each before the next in a stable sort.
pub open spec fn is_run<E: SortableByField<T>, T>(
    items: Seq<E>,
    fields: Seq<SortField<T>>,
    run: Seq<usize>,
    lo: int,
    hi: int,
) -> bool {
    &&& run.len() == hi - lo
    &&& forall|k: int| 0 <= k < run.len() ==> lo <= #[trigger] run[k] < hi
    &&& forall|a: int, b: int|
        0 <= a < b < run.len() ==> #[trigger] comes_first(
            items,
            fields,
            run[a] as int,
            run[b] as int,
        )
}

/// Going before in a stable sort carries over a middle item.
pub proof fn lemma_comes_first_transitive<E: SortableByField<T>, T>(
    items: Seq<E>,
    fields: Seq<SortField<T>>,
    x: int,
    y: int,
    z: int,
)
    requires
        comes_first(items, fields, x, y),
        comes_first(items, fields, y, z),
    ensures
        comes_first(items, fields, x, z),
{
    lemma_order_transitive(items[x], items[y], items[z], fields);
}

/// `slice::swap` of std: the items at the places `a` and `b` change places,
/// and every other item stays. Both places lie within the slice.
pub assume_specification<X>[ <[X]>::swap ](slice: &mut [X], a: usize, b: usize)
    requires
        a < old(slice)@.len(),
        b < old(slice)@.len(),
    ensures
        final(slice)@ == old(slice)@.update(a as int, old(slice)@[b as int]).update(
            b as int,
            old(slice)@[a as int],
        ),
;

/// Two runs that lie side by side, merged into one.
fn merge_runs<E: SortableByField<T>, T>(
    f: &[E],
    sort_fields: &[SortField<T>],
    left: &Vec<usize>,
    right: &Vec<usize>,
    Ghost(lo): Ghost<int>,
    Ghost(mid): Ghost<int>,
    Ghost(hi): Ghost<int>,
) -> (out: Vec<usize>)
    requires
        0 <= lo <= mid <= hi <= f@.len(),
        is_run(f@, sort_fields@, left@, lo, mid),
        is_run(f@, sort_fields@, right@, mid, hi),
    ensures
        is_run(f@, sort_fields@, out@, lo, hi),
{
    let ghost items = f@;
    let ghost fields = sort_fields@;
    let mut out: Vec<usize> = Vec::new();
    let mut i: usize = 0;
    let mut j: usize = 0;
    while i < left.len() || j < right.len()
        invariant
            items == f@,
            fields == sort_fields@,
            0 <= lo <= mid <= hi <= items.len(),
            is_run(items, fields, left@, lo, mid),
            is_run(items, fields, right@, mid, hi),
            i <= left@.len(),
            j <= right@.len(),
            out@.len() == i + j,
            forall|k: int| 0 <= k < out@.len() ==> lo <= #[trigger] out@[k] < hi,
            forall|a: int, b: int|
                0 <= a < b < out@.len() ==> #[trigger] comes_first(
                    items,
                    fields,
                    out@[a] as int,
                    out@[b] as int,
                ),
            forall|k: int, a: int|
                0 <= k < out@.len() && i <= a < left@.len() ==> #[trigger] comes_first(
                    items,
                    fields,
                    out@[k] as int,
                    left@[a] as int,
                ),
            forall|k: int, b: int|
                0 <= k < out@.len() && j <= b < right@.len() ==> #[trigger] comes_first(
                    items,
                    fields,
                    out@[k] as int,
                    right@[b] as int,
                ),
        decreases left@.len() - i + right@.len() - j,
    {
        let ghost before = out@;
        let from_right: bool = if j >= right.len() {
            false
        } else if i >= left.len() {
            true
        } else {
            precedes(&f[right[j]], &f[left[i]], sort_fields)
        };
        if from_right {
            let x: usize = right[j];
            out.push(x);
            proof {
                assert forall|k: int, a: int|
                    0 <= k < out@.len() && i <= a < left@.len() implies #[trigger] comes_first(
                    items,
                    fields,
                    out@[k] as int,
                    left@[a] as int,
                ) by {
                    if k == before.len() {
                        assert(goes_before(items[x as int], items[left@[i as int] as int], fields));
                        if a > i {
                            assert(comes_first(
                                items,
                                fields,
                                left@[i as int] as int,
                                left@[a] as int,
                            ));
                            lemma_comes_first_transitive(
                                items,
                                fields,
                                x as int,
                                left@[i as int] as int,
                                left@[a] as int,
                            );
                        }
                    } else {
                        assert(out@[k] == before[k]);
                    }
                }
                assert forall|k: int, b: int|
                    0 <= k < out@.len() && j + 1 <= b < right@.len() implies #[trigger] comes_first(
                    items,
                    fields,
                    out@[k] as int,
                    right@[b] as int,
                ) by {
                    if k == before.len() {
                        assert(comes_first(items, fields, right@[j as int] as int, right@[b] as int));
                    } else {
                        assert(out@[k] == before[k]);
                    }
                }
                assert forall|a: int, b: int| 0 <= a < b < out@.len() implies #[trigger] comes_first(
                    items,
                    fields,
                    out@[a] as int,
                    out@[b] as int,
                ) by {
                    if b == before.len() {
                        assert(comes_first(items, fields, before[a] as int, right@[j as int] as int));
                    } else {
                        assert(out@[a] == before[a] && out@[b] == before[b]);
                    }
                }
            }
            j += 1;
        } else {
            let x: usize = left[i];
            out.push(x);
            proof {
                assert forall|k: int, b: int|
                    0 <= k < out@.len() && j <= b < right@.len() implies #[trigger] comes_first(
                    items,
                    fields,
                    out@[k] as int,
                    right@[b] as int,
                ) by {
                    if k == before.len() {
                        let y = right@[j as int];
                        assert(!goes_before(items[y as int], items[x as int], fields));
                        lemma_order_total(items[x as int], items[y as int], fields);
                        assert(comes_first(items, fields, x as int, y as int));
                        if b > j {
                            assert(comes_first(items, fields, y as int, right@[b] as int));
                            lemma_comes_first_transitive(
                                items,
                                fields,
                                x as int,
                                y as int,
                                right@[b] as int,
                            );
                        }
                    } else {
                        assert(out@[k] == before[k]);
                    }
                }
                assert forall|k: int, a: int|
                    0 <= k < out@.len() && i + 1 <= a < left@.len() implies #[trigger] comes_first(
                    items,
                    fields,
                    out@[k] as int,
                    left@[a] as int,
                ) by {
                    if k == before.len() {
                        assert(comes_first(items, fields, left@[i as int] as int, left@[a] as int));
                    } else {
                        assert(out@[k] == before[k]);
                    }
                }
                assert forall|a: int, b: int| 0 <= a < b < out@.len() implies #[trigger] comes_first(
                    items,
                    fields,
                    out@[a] as int,
                    out@[b] as int,
                ) by {
                    if b == before.len() {
                        assert(comes_first(items, fields, before[a] as int, left@[i as int] as int));
                    } else {
                        assert(out@[a] == before[a] && out@[b] == before[b]);
                    }
                }
            }
            i += 1;
        }
    }
    out
}

/// The places from `lo` up to `hi`, in the order of a stable sort of the
/// items that stand there: a merge sort, which halves the places, sorts each
/// half and merges the two.
fn sorted_places<E: SortableByField<T>, T>(
    f: &[E],
    sort_fields: &[SortField<T>],
    lo: usize,
    hi: usize,
) -> (run: Vec<usize>)
    requires
        lo <= hi <= f@.len(),
    ensures
        is_run(f@, sort_fields@, run@, lo as int, hi as int),
    decreases hi - lo,
{
    if hi - lo < 2 {
        let mut run: Vec<usize> = Vec::new();
        if lo < hi {
            run.push(lo);
        }
        return run;
    }
    let mid: usize = lo + (hi - lo) / 2;
    let left = sorted_places(f, sort_fields, lo, mid);
    let right = sorted_places(f, sort_fields, mid, hi);
    merge_runs(f, sort_fields, &left, &right, Ghost(lo as int), Ghost(mid as int), Ghost(hi as int))
}

/// The numbers below `n`, in order.
fn counting(n: usize) -> (v: Vec<usize>)
    ensures
        v@.len() == n,
        forall|k: int| 0 <= k < n ==> #[trigger] v@[k] == k,
{
    let mut v: Vec<usize> = Vec::new();
    let mut k: usize = 0;
    while k < n
        invariant
            k <= n,
            v@.len() == k,
            forall|m: int| 0 <= m < k ==> #[trigger] v@[m] == m,
        decreases n - k,
    {
        v.push(k);
        k += 1;
    }
    v
}

/// Moves the items of `f` so that each place holds the item that stood at the
/// place that `order` names for it. One swap for each place brings the item
/// that belongs there; two tables tell where each item stands by now and
/// which item stands at each place.
fn arrange<E>(f: &mut [E], order: &Vec<usize>)
    requires
        order@.len() == old(f)@.len(),
        forall|k: int| 0 <= k < order@.len() ==> #[trigger] order@[k] < order@.len(),
        forall|a: int, b: int|
            0 <= a < b < order@.len() ==> #[trigger] order@[a] != #[trigger] order@[b],
    ensures
        final(f)@.len() == old(f)@.len(),
        forall|k: int| 0 <= k < order@.len() ==> #[trigger] final(f)@[k] == old(f)@[order@[k] as int],
{
    let ghost before = f@;
    let n: usize = f.len();
    let mut at = counting(n);
    let mut place = counting(n);
    let mut i: usize = 0;
    while i < n
        invariant
            i <= n,
            n == f@.len(),
            n == before.len(),
            n == order@.len(),
            at@.len() == n,
            place@.len() == n,
            forall|k: int| 0 <= k < n ==> #[trigger] order@[k] < n,
            forall|a: int, b: int| 0 <= a < b < n ==> #[trigger] order@[a] != #[trigger] order@[b],
            forall|m: int| 0 <= m < n ==> #[trigger] at@[m] < n && place@[at@[m] as int] == m,
            forall|x: int| 0 <= x < n ==> #[trigger] place@[x] < n && at@[place@[x] as int] == x,
            forall|m: int| 0 <= m < n ==> #[trigger] f@[m] == before[at@[m] as int],
            forall|m: int| 0 <= m < i ==> #[trigger] at@[m] == order@[m],
        decreases n - i,
    {
        let x: usize = order[i];
        let k: usize = place[x];
        let y: usize = at[i];
        let ghost old_at = at@;
        let ghost old_place = place@;
        let ghost old_f = f@;
        proof {
            assert(old_at[k as int] == x);
            assert(old_place[y as int] == i);
            if k < i {
                assert(old_at[k as int] == order@[k as int]);
                assert(order@[k as int] != order@[i as int]);
            }
        }
        f.swap(i, k);
        at.set(i, x);
        at.set(k, y);
        place.set(x, i);
        place.set(y, k);
        proof {
            assert forall|m: int| 0 <= m < n implies #[trigger] at@[m] < n && place@[at@[m] as int]
                == m by {
                if m != i && m != k {
                    assert(old_at[m] < n && old_place[old_at[m] as int] == m);
                }
            }
            assert forall|z: int| 0 <= z < n implies #[trigger] place@[z] < n && at@[place@[z] as int]
                == z by {
                if z != x && z != y {
                    assert(old_place[z] < n && old_at[old_place[z] as int] == z);
                }
            }
            assert forall|m: int| 0 <= m < n implies #[trigger] f@[m] == before[at@[m] as int] by {
                assert(old_f[m] == before[old_at[m] as int]);
                assert(old_f[k as int] == before[old_at[k as int] as int]);
                assert(old_f[i as int] == before[old_at[i as int] as int]);
            }
            assert forall|m: int| 0 <= m < i + 1 implies #[trigger] at@[m] == order@[m] by {
                if m < i {
                    assert(old_at[m] == order@[m]);
                }
            }
        }
        i += 1;
    }
}

/// The places that `run` holds, as numbers.
pub open spec fn places_of(run: Seq<usize>) -> Seq<int> {
    Seq::new(run.len(), |k: int| run[k] as int)
}

/// Sorts `f` by `sort_fields`, stably and in place. An earlier field counts
/// before a later one, and with no fields at all `f` is left as it is. The
/// places are sorted by a merge sort, so the number of comparisons grows with
/// the length times its logarithm; the items are then moved with one swap
/// for each place.
pub fn by_fields<E: SortableByField<T>, T>(f: &mut [E], sort_fields: &[SortField<T>])
    ensures
        is_stable_sort(old(f)@, final(f)@, sort_fields@),
{
    let ghost before = f@;
    let ghost fields = sort_fields@;
    let n: usize = f.len();
    let order = sorted_places(&*f, sort_fields, 0, n);
    proof {
        assert forall|a: int, b: int| 0 <= a < b < order@.len() implies #[trigger] order@[a]
            != #[trigger] order@[b] by {
            assert(comes_first(before, fields, order@[a] as int, order@[b] as int));
            lemma_order_total(before[order@[a] as int], before[order@[a] as int], fields);
        }
    }
    arrange(f, &order);
    proof {
        let p = places_of(order@);
        assert forall|a: int, b: int| 0 <= a < b < n implies #[trigger] pair_in_order(
            p,
            f@,
            fields,
            a,
            b,
        ) by {
            assert(comes_first(before, fields, order@[a] as int, order@[b] as int));
        }
        assert(arranges(p, before, f@));
    }
}

/// An arrangement tells every place of `before` once: the place `x` too.
pub proof fn lemma_arrangement_is_onto<E>(p: Seq<int>, before: Seq<E>, after: Seq<E>, x: int) -> (m:
    int)
    requires
        arranges(p, before, after),
        0 <= x < before.len(),
    ensures
        0 <= m < p.len(),
        p[m] == x,
{
    let n = p.len() as int;
    let range = vstd::set_lib::set_int_range(0, n);
    assert(p.no_duplicates()) by {
        assert forall|i: int, j: int| 0 <= i < p.len() && 0 <= j < p.len() && i != j implies p[i]
            != p[j] by {
            if i < j {
                assert(p[i] != p[j]);
            } else {
                assert(p[j] != p[i]);
            }
        }
    }
    p.unique_seq_to_set();
    vstd::set_lib::lemma_int_range(0, n);
    assert(p.to_set().subset_of(range)) by {
        assert forall|a: int| p.to_set().contains(a) implies range.contains(a) by {
            let i = choose|i: int| 0 <= i < p.len() && p[i] == a;
            assert(0 <= p[i] < n);
        }
    }
    vstd::set_lib::lemma_len_subset(p.to_set(), range);
    vstd::set_lib::lemma_subset_equality(p.to_set(), range);
    assert(range.contains(x));
    assert(p.to_set().contains(x));
    assert(p.contains(x));
    choose|m: int| 0 <= m < p.len() && p[m] == x
}

/// Two stable sorts of one sequence take the item of each place from the
/// same place.
proof fn lemma_places_agree<E: SortableByField<T>, T>(
    p: Seq<int>,
    q: Seq<int>,
    before: Seq<E>,
    first: Seq<E>,
    second: Seq<E>,
    fields: Seq<SortField<T>>,
    k: int,
)
    requires
        arranges(p, before, first),
        in_order(p, first, fields, first.len() as int),
        arranges(q, before, second),
        in_order(q, second, fields, second.len() as int),
        0 <= k < before.len(),
    ensures
        p[k] == q[k],
    decreases k,
{
    assert forall|j: int| 0 <= j < k implies p[j] == q[j] by {
        lemma_places_agree(p, q, before, first, second, fields, j);
    }
    let x = p[k];
    let y = q[k];
    if x != y {
        let m = lemma_arrangement_is_onto(q, before, second, x);
        let w = lemma_arrangement_is_onto(p, before, first, y);
        if m < k {
            assert(p[m] == q[m]);
            assert(p[m] != p[k]);
        }
        if w < k {
            assert(q[w] == p[w]);
            assert(q[w] != q[k]);
        }
        assert(pair_in_order(q, second, fields, k, m));
        assert(pair_in_order(p, first, fields, k, w));
        lemma_order_total(before[x], before[y], fields);
    }
}

/// A sequence has one stable sort under given fields, and no other.
pub proof fn lemma_stable_sort_is_unique<E: SortableByField<T>, T>(
    before: Seq<E>,
    first: Seq<E>,
    second: Seq<E>,
    fields: Seq<SortField<T>>,
)
    requires
        is_stable_sort(before, first, fields),
        is_stable_sort(before, second, fields),
    ensures
        first == second,
{
    let p = choose|p: Seq<int>|
        #[trigger] arranges(p, before, first) && in_order(p, first, fields, first.len() as int);
    let q = choose|q: Seq<int>|
        #[trigger] arranges(q, before, second) && in_order(q, second, fields, second.len() as int);
    assert forall|k: int| 0 <= k < first.len() implies first[k] == second[k] by {
        lemma_places_agree(p, q, before, first, second, fields, k);
    }
    assert(first =~= second);
}

/// Sorting under no fields at all leaves a sequence as it is.
pub proof fn lemma_stable_sort_without_fields<E: SortableByField<T>, T>(
    before: Seq<E>,
    after: Seq<E>,
)
    requires
        is_stable_sort(before, after, Seq::<SortField<T>>::empty()),
    ensures
        after == before,
{
    let fields = Seq::<SortField<T>>::empty();
    let p = Seq::new(before.len(), |k: int| k);
    assert(arranges(p, before, before));
    assert forall|i: int, j: int| 0 <= i < j < before.len() implies #[trigger] pair_in_order(
        p,
        before,
        fields,
        i,
        j,
    ) by {}
    assert(is_stable_sort(before, before, fields));
    lemma_stable_sort_is_unique(before, after, before, fields);
}

} // verus!
