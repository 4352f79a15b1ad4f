//! The fields that the variants of a master playlist are sorted by.
use crate::playlist::{average_bandwidth_of, bandwidth_of, resolution_height_of, Entry, EntryView};
use crate::sort::{composite, field_order, SortField, SortableByField};
use std::cmp::Ordering;
use vstd::prelude::*;

verus! {

/// A field of a variant that a playlist can be sorted by.
#[derive(Debug, Clone, Copy, PartialEq, Eq)]
pub enum VariantSortFieldName {
    Bandwidth,
    AvgBandwidth,
    Resolution,
}

impl Default for VariantSortFieldName {
    /// The bandwidth.
    fn default() -> (r: Self)
        ensures
            r == VariantSortFieldName::Bandwidth,
    {
        VariantSortFieldName::Bandwidth
    }
}

/// What the entry `e` holds for `field`, if anything.
pub open spec fn variant_field(e: EntryView, field: VariantSortFieldName) -> Option<u64> {
    match field {
        VariantSortFieldName::Bandwidth => bandwidth_of(e),
        VariantSortFieldName::AvgBandwidth => average_bandwidth_of(e),
        VariantSortFieldName::Resolution => resolution_height_of(e),
    }
}

/// The number that the entry `e` is sorted by on `field`: what it holds for
/// the field, and zero where it holds nothing.
pub open spec fn sort_value(e: EntryView, field: VariantSortFieldName) -> int {
    match variant_field(e, field) {
        Some(v) => v as int,
        None => 0,
    }
}

impl Entry {
    /// What the entry holds for `field`, if anything.
    pub fn get_field(&self, field: &VariantSortFieldName) -> (r: Option<u64>)
        ensures
            r == variant_field(self@, *field),
    {
        match field {
            VariantSortFieldName::Bandwidth => self.get_bandwidth(),
            VariantSortFieldName::AvgBandwidth => self.get_average_bandwidth(),
            VariantSortFieldName::Resolution => self.get_resolution_height(),
        }
    }
}

impl SortableByField<VariantSortFieldName> for Entry {
    /// What the entry holds for `field`, and zero where it holds nothing.
    open spec fn field_value(&self, field: &VariantSortFieldName) -> int {
        sort_value(self@, *field)
    }

    /// How the entry stands to `rhs` on `field`, an entry that holds nothing for
    /// the field counting as one that holds zero.
    fn sort(&self, rhs: &Self, field: &VariantSortFieldName) -> (res: Ordering) {
        let a: u64 = match self.get_field(field) {
            Some(v) => v,
            None => 0,
        };
        let b: u64 = match rhs.get_field(field) {
            Some(v) => v,
            None => 0,
        };
        if a < b {
            Ordering::Less
        } else if a == b {
            Ordering::Equal
        } else {
            Ordering::Greater
        }
    }
}

/// An entry that holds nothing for a field is sorted on it as an entry that
/// holds zero: against any third entry the two compare alike, under that
/// field alone and under any fields that begin with it and on whose others
/// the two agree.
pub proof fn lemma_absent_sorts_as_zero(
    absent: Entry,
    zero: Entry,
    other: Entry,
    by: SortField<VariantSortFieldName>,
)
    requires
        variant_field(absent@, by.field) is None,
        variant_field(zero@, by.field) == Some(0u64),
    ensures
        absent.field_value(&by.field) == 0,
        field_order(absent, other, by) == field_order(zero, other, by),
        field_order(other, absent, by) == field_order(other, zero, by),
        composite(absent, zero, seq![by]) is Equal,
{
    let fields = seq![by];
    assert(fields[0] == by);
    assert(fields.drop_first().len() == 0);
    assert(composite(absent, zero, fields.drop_first()) is Equal);
    assert(field_order(absent, zero, by) is Equal);
}

} // verus!
