//! Sets of DHT subkey numbers, held as sorted disjoint ranges by the
//! `range_set_blaze` crate.

use vstd::prelude::*;

verus! {

/// The number of a subkey within a DHT record.
pub type ValueSubkey = u32;

/// A set of subkeys, stored as sorted, disjoint, non-adjacent inclusive ranges.
#[derive(Debug)]
#[verifier::external_body]
pub struct ValueSubkeyRangeSet {
    data: range_set_blaze::RangeSetBlaze<u32>,
}

/// The subkeys that a range set holds.
pub uninterp spec fn subkey_set(s: ValueSubkeyRangeSet) -> Set<u32>;

/// The ranges, in ascending order, that a range set stores.
pub uninterp spec fn subkey_ranges(s: ValueSubkeyRangeSet) -> Seq<(u32, u32)>;

/// Inclusive ranges that are each non-empty, ascending, and separated by at
/// least one missing value (so no two could be merged).
pub open spec fn ranges_well_formed(rs: Seq<(u32, u32)>) -> bool {
    &&& forall|i: int| 0 <= i < rs.len() ==> (#[trigger] rs[i]).0 <= rs[i].1
    &&& forall|i: int, j: int| 0 <= i < j < rs.len() ==> (#[trigger] rs[i]).1 + 1 < (#[trigger] rs[j]).0
}

/// Whether `v` lies in one of the ranges.
pub open spec fn in_ranges(rs: Seq<(u32, u32)>, v: u32) -> bool {
    exists|i: int| 0 <= i < rs.len() && (#[trigger] rs[i]).0 <= v <= rs[i].1
}

/// The facts that every range set satisfies: finitely many subkeys, stored
/// as well-formed ranges covering exactly the set.
pub open spec fn subkeys_wf(s: ValueSubkeyRangeSet) -> bool {
    &&& subkey_set(s).finite()
    &&& ranges_well_formed(subkey_ranges(s))
    &&& forall|v: u32| #[trigger] subkey_set(s).contains(v) <==> in_ranges(subkey_ranges(s), v)
}

/// The set of all subkeys from `start` to `end` inclusive.
pub open spec fn subkey_interval(start: u32, end: u32) -> Set<u32> {
    Set::new(|v: u32| start <= v <= end)
}

impl ValueSubkeyRangeSet {
    /// `RangeSetBlaze::new`: the empty set.
    #[verifier::external_body]
    pub fn new() -> (r: Self)
        ensures
            subkeys_wf(r),
            subkey_set(r) == Set::<u32>::empty(),
    {
        ValueSubkeyRangeSet { data: range_set_blaze::RangeSetBlaze::new() }
    }

    /// `RangeSetBlaze::from_iter` of one inclusive range.
    #[verifier::external_body]
    fn from_range(start: u32, end: u32) -> (r: Self)
        requires
            start <= end,
        ensures
            subkeys_wf(r),
            subkey_set(r) == subkey_interval(start, end),
    {
        ValueSubkeyRangeSet { data: range_set_blaze::RangeSetBlaze::from_iter([start..=end]) }
    }

    /// The set holding only `value`.
    pub fn single(value: ValueSubkey) -> (r: Self)
        ensures
            subkeys_wf(r),
            subkey_set(r) == Set::<u32>::empty().insert(value),
    {
        let r = Self::from_range(value, value);
        assert(subkey_set(r) =~= Set::<u32>::empty().insert(value));
        r
    }

    /// Every subkey: 0 to `u32::MAX`.
    pub fn full() -> (r: Self)
        ensures
            subkeys_wf(r),
            subkey_set(r) == subkey_interval(0, u32::MAX),
    {
        Self::from_range(0, u32::MAX)
    }

    /// `RangeSetBlaze::is_empty`.
    #[verifier::external_body]
    pub fn is_empty(&self) -> (r: bool)
        ensures
            r == (subkey_set(*self) == Set::<u32>::empty()),
    {
        self.data.is_empty()
    }

    /// `RangeSetBlaze::len`: the number of subkeys in the set.
    #[verifier::external_body]
    pub fn len(&self) -> (r: u64)
        requires
            subkeys_wf(*self),
        ensures
            r == subkey_set(*self).len(),
    {
        self.data.len() as u64
    }

    /// `RangeSetBlaze::contains`.
    #[verifier::external_body]
    pub fn contains(&self, value: ValueSubkey) -> (r: bool)
        ensures
            r == subkey_set(*self).contains(value),
    {
        self.data.contains(value)
    }

    /// `RangeSetBlaze::insert` of one subkey.
    #[verifier::external_body]
    pub fn insert(&mut self, value: ValueSubkey) -> (r: bool)
        requires
            subkeys_wf(*old(self)),
        ensures
            subkeys_wf(*final(self)),
            subkey_set(*final(self)) == subkey_set(*old(self)).insert(value),
            r == !subkey_set(*old(self)).contains(value),
    {
        self.data.insert(value)
    }

    /// `RangeSetBlaze::ranges_insert` of the inclusive range `start..=end`.
    #[verifier::external_body]
    pub fn ranges_insert(&mut self, start: ValueSubkey, end: ValueSubkey) -> (r: bool)
        requires
            subkeys_wf(*old(self)),
        ensures
            subkeys_wf(*final(self)),
            subkey_set(*final(self)) == subkey_set(*old(self)).union(subkey_interval(start, end)),
            r == (subkey_set(*final(self)) != subkey_set(*old(self))),
    {
        self.data.ranges_insert(start..=end)
    }

    /// `RangeSetBlaze::last`: the largest subkey, if any.
    #[verifier::external_body]
    pub fn last(&self) -> (r: Option<ValueSubkey>)
        requires
            subkeys_wf(*self),
        ensures
            r is None <==> subkey_set(*self) == Set::<u32>::empty(),
            r matches Some(m) ==> subkey_set(*self).contains(m) && forall|v: u32|
                #[trigger] subkey_set(*self).contains(v) ==> v <= m,
    {
        self.data.last()
    }

    /// `RangeSetBlaze::ranges`, collected: the stored ranges in ascending order.
    #[verifier::external_body]
    pub fn ranges(&self) -> (r: Vec<(ValueSubkey, ValueSubkey)>)
        ensures
            r@ == subkey_ranges(*self),
    {
        self.data.ranges().map(|r| (*r.start(), *r.end())).collect()
    }

    /// The subkeys of `self` that are not in `other` (`&a - &b`).
    #[verifier::external_body]
    pub fn difference(&self, other: &Self) -> (r: Self)
        requires
            subkeys_wf(*self),
            subkeys_wf(*other),
        ensures
            subkeys_wf(r),
            subkey_set(r) == subkey_set(*self).difference(subkey_set(*other)),
    {
        ValueSubkeyRangeSet { data: &self.data - &other.data }
    }

    /// The subkeys in both sets (`&a & &b`).
    #[verifier::external_body]
    pub fn intersect(&self, other: &Self) -> (r: Self)
        requires
            subkeys_wf(*self),
            subkeys_wf(*other),
        ensures
            subkeys_wf(r),
            subkey_set(r) == subkey_set(*self).intersect(subkey_set(*other)),
    {
        ValueSubkeyRangeSet { data: &self.data & &other.data }
    }

    /// `RangeSetBlaze::is_subset`.
    #[verifier::external_body]
    pub fn is_subset(&self, other: &Self) -> (r: bool)
        ensures
            r == subkey_set(*self).subset_of(subkey_set(*other)),
    {
        self.data.is_subset(&other.data)
    }

    /// A copy of the set (`RangeSetBlaze::clone`).
    #[verifier::external_body]
    pub fn duplicate(&self) -> (r: Self)
        ensures
            subkey_set(r) == subkey_set(*self),
            subkey_ranges(r) == subkey_ranges(*self),
    {
        ValueSubkeyRangeSet { data: self.data.clone() }
    }
}

impl Clone for ValueSubkeyRangeSet {
    /// A copy holding the same subkeys in the same ranges.
    fn clone(&self) -> (r: Self)
        ensures
            subkey_set(r) == subkey_set(*self),
            subkey_ranges(r) == subkey_ranges(*self),
    {
        self.duplicate()
    }
}

} // verus!
