use vstd::prelude::*;

use core::cmp::Ordering;
use core::ops::Range;

verus! {

/// Where `v` lies relative to `range`, seen from the range: `Greater` when the range lies after
/// `v`, `Equal` when it contains `v`, `Less` when it lies before. This is the comparator that
/// finds, by binary search, the range of a sorted list of disjoint ranges that contains `v`.
pub fn cmp_range(v: usize, range: Range<usize>) -> (ord: Ordering)
    ensures
        ord == (if v < range.start {
            Ordering::Greater
        } else if v < range.end {
            Ordering::Equal
        } else {
            Ordering::Less
        }),
{
    if v < range.start {
        Ordering::Greater
    } else if v < range.end {
        Ordering::Equal
    } else {
        Ordering::Less
    }
}

/// An item with a priority. Values of this type have no `==` or ordering of their own: compare
/// their priorities, through `priority`.
pub struct WithPriority<P: Ord, Item> {
    priority: P,
    pub item: Item,
}

impl<P: Ord, Item> WithPriority<P, Item> {
    /// The priority the item is ordered by.
    pub closed spec fn spec_priority(&self) -> P {
        self.priority
    }

    /// The item.
    pub closed spec fn spec_item(&self) -> Item {
        self.item
    }

    pub fn new(priority: P, item: Item) -> (w: WithPriority<P, Item>)
        ensures
            w.spec_priority() == priority,
            w.spec_item() == item,
    {
        WithPriority { priority, item }
    }

    /// Get a reference to the with priority's priority.
    pub fn priority(&self) -> (p: &P)
        ensures
            *p == self.spec_priority(),
    {
        &self.priority
    }
}

} // verus!
