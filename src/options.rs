//! Page size and fill bounds: when a node is too full or too empty, and where
//! an over-full node is split.
use vstd::prelude::*;
use crate::node::{
    Item,
    items_size, key_lt, lemma_items_size_bound, lemma_items_size_split, node_size_spec, sorted_keys, Node,
    NODE_HEADER_SIZE,
};
use crate::page::PAGE_NUM_SIZE;

verus! {

/// Default lower fill bound, in percent of the page size.
pub const DEFAULT_MIN_FILL_PERCENT: u64 = 50;

/// Default upper fill bound, in percent of the page size.
pub const DEFAULT_MAX_FILL_PERCENT: u64 = 95;

/// Fill bounds in percent of the page size.
#[derive(Clone, Copy, Debug, PartialEq, Eq, Structural)]
pub struct FillPercent {
    pub min_fill_percent: u64,
    pub max_fill_percent: u64,
}

impl FillPercent {
    /// The default bounds: 50% and 95%.
    pub fn default_bounds() -> (r: Self)
        ensures
            r.min_fill_percent == DEFAULT_MIN_FILL_PERCENT,
            r.max_fill_percent == DEFAULT_MAX_FILL_PERCENT,
    {
        FillPercent { min_fill_percent: DEFAULT_MIN_FILL_PERCENT, max_fill_percent: DEFAULT_MAX_FILL_PERCENT }
    }
}

#[derive(Clone, Copy, Debug, PartialEq, Eq, Structural)]
pub struct Options {
    pub page_size: usize,
    pub fill_percent: FillPercent,
}

impl Options {
    /// A node of `size` bytes is above the upper bound.
    pub open spec fn over(&self, size: int) -> bool {
        size * 100 > self.fill_percent.max_fill_percent * self.page_size
    }

    /// A node of `size` bytes is below the lower bound.
    pub open spec fn under(&self, size: int) -> bool {
        size * 100 < self.fill_percent.min_fill_percent * self.page_size
    }

    /// Items `0..=i` with the header exceed the lower bound, and a node of
    /// the items after `i` (at least one) stays within the upper bound.
    pub open spec fn can_split_at(&self, s: Seq<Item>, i: int) -> bool {
        &&& 0 <= i
        &&& i + 1 < s.len()
        &&& (NODE_HEADER_SIZE + items_size(s.take(i + 1))) * 100 > self.fill_percent.min_fill_percent
            * self.page_size
        &&& !self.over(node_size_spec(s.skip(i + 1)))
    }

    /// Options with the given page size and the default fill bounds.
    pub fn new(page_size: usize) -> (r: Self)
        ensures
            r.page_size == page_size,
            r.fill_percent.min_fill_percent == DEFAULT_MIN_FILL_PERCENT,
            r.fill_percent.max_fill_percent == DEFAULT_MAX_FILL_PERCENT,
    {
        Options { page_size, fill_percent: FillPercent::default_bounds() }
    }

    pub fn is_over_populated(&self, node: &Node) -> (r: bool)
        requires
            node.well_shaped(),
        ensures
            r == self.over(node_size_spec(node.items@)),
    {
        let size = node.node_size();
        (size as u128) * 100 > scaled(self.fill_percent.max_fill_percent, self.page_size)
    }

    pub fn is_under_populated(&self, node: &Node) -> (r: bool)
        requires
            node.well_shaped(),
        ensures
            r == self.under(node_size_spec(node.items@)),
    {
        let size = node.node_size();
        (size as u128) * 100 < scaled(self.fill_percent.min_fill_percent, self.page_size)
    }

    /// The first index at which `node` can be split, if any.
    pub fn get_split_index(&self, node: &Node) -> (r: Option<usize>)
        requires
            node.well_shaped(),
        ensures
            r is None <==> forall|i: int| !#[trigger] self.can_split_at(node.items@, i),
            r matches Some(i) ==> (self.can_split_at(node.items@, i as int) && forall|j: int|
                0 <= j < i ==> !#[trigger] self.can_split_at(node.items@, j)),
    {
        let s = Ghost(node.items@);
        proof {
            lemma_items_size_nonneg(s@);
            lemma_items_size_bound(s@);
        }
        let total: usize = node.node_size() - NODE_HEADER_SIZE - PAGE_NUM_SIZE;
        let min_bound: u128 = scaled(self.fill_percent.min_fill_percent, self.page_size);
        let max_bound: u128 = scaled(self.fill_percent.max_fill_percent, self.page_size);
        let mut left: usize = 0;
        let mut i: usize = 0;
        while i < node.items.len()
            invariant
                node.well_shaped(),
                s@ == node.items@,
                i <= node.items.len(),
                total == items_size(s@),
                total <= 65535 * 518,
                left == items_size(s@.take(i as int)),
                min_bound == self.fill_percent.min_fill_percent * self.page_size,
                max_bound == self.fill_percent.max_fill_percent * self.page_size,
                forall|j: int| 0 <= j < i ==> !#[trigger] self.can_split_at(s@, j),
            decreases node.items.len() - i,
        {
            proof {
                assert(s@.take(i + 1).drop_last() =~= s@.take(i as int));
                lemma_items_size_split(s@, i + 1);
                lemma_items_size_nonneg(s@.skip(i + 1));
            }
            left = left + node.item_size(i);
            let right: usize = total - left;
            if i + 1 < node.items.len() && ((NODE_HEADER_SIZE + left) as u128) * 100 > min_bound && ((
            NODE_HEADER_SIZE + right + PAGE_NUM_SIZE) as u128) * 100 <= max_bound {
                assert(self.can_split_at(s@, i as int));
                return Some(i);
            }
            i = i + 1;
        }
        proof {
            assert forall|j: int| !#[trigger] self.can_split_at(s@, j) by {
                if 0 <= j < i {
                }
            }
        }
        None
    }
}

/// `a * b` without overflow.
fn scaled(a: u64, b: usize) -> (r: u128)
    ensures
        r == a * b,
{
    let x: u128 = a as u128;
    let y: u128 = b as u128;
    assert(x * y <= 0xffff_ffff_ffff_ffffu128 * 0xffff_ffff_ffff_ffffu128) by (nonlinear_arith)
        requires
            x <= 0xffff_ffff_ffff_ffffu128,
            y <= 0xffff_ffff_ffff_ffffu128,
    ;
    x * y
}

proof fn lemma_items_size_nonneg(s: Seq<Item>)
    ensures
        items_size(s) >= 0,
    decreases s.len(),
{
    if s.len() > 0 {
        lemma_items_size_nonneg(s.drop_last());
    }
}

/// Splitting at the index that `get_split_index` picks leaves two halves
/// within the upper bound, provided the bounds are at least one page number
/// apart and the node is not larger than about twice the upper bound. In a
/// node whose keys ascend, the promoted key sorts above every key of the left
/// half and below every key of the right half.
pub proof fn lemma_split_halves(o: Options, s: Seq<Item>, i: int)
    requires
        o.can_split_at(s, i),
        forall|j: int| 0 <= j < i ==> !#[trigger] o.can_split_at(s, j),
        o.fill_percent.min_fill_percent * o.page_size + 100 * PAGE_NUM_SIZE <= o.fill_percent.max_fill_percent
            * o.page_size,
        100 * (NODE_HEADER_SIZE + PAGE_NUM_SIZE) <= o.fill_percent.max_fill_percent * o.page_size,
        node_size_spec(s) * 100 + 100 * (NODE_HEADER_SIZE + PAGE_NUM_SIZE) <= 2 * (
        o.fill_percent.max_fill_percent * o.page_size),
    ensures
        !o.over(node_size_spec(s.take(i))),
        !o.over(node_size_spec(s.skip(i + 1))),
        sorted_keys(s) ==> forall|j: int| 0 <= j < i ==> key_lt(#[trigger] s.take(i)[j].key@, s[i].key@),
        sorted_keys(s) ==> forall|j: int|
            0 <= j < s.len() - i - 1 ==> key_lt(s[i].key@, #[trigger] s.skip(i + 1)[j].key@),
{
    lemma_items_size_split(s, i);
    lemma_items_size_split(s.skip(i), 1);
    assert(s.skip(i).skip(1) =~= s.skip(i + 1));
    assert(s.skip(i).take(1).drop_last() =~= Seq::<Item>::empty());
    assert(s.skip(i).take(1).last() == s[i]);
    lemma_items_size_nonneg(s.take(i));
    lemma_items_size_nonneg(s.skip(i + 1));
    if i > 0 {
        assert(!o.can_split_at(s, i - 1));
        assert(s.take(i - 1 + 1) =~= s.take(i));
        assert(i - 1 + 1 == i);
    }
    if sorted_keys(s) {
        assert forall|j: int| 0 <= j < i implies key_lt(#[trigger] s.take(i)[j].key@, s[i].key@) by {
            assert(s.take(i)[j] == s[j]);
        }
        assert forall|j: int| 0 <= j < s.len() - i - 1 implies key_lt(
            s[i].key@,
            #[trigger] s.skip(i + 1)[j].key@,
        ) by {
            assert(s.skip(i + 1)[j] == s[i + 1 + j]);
        }
    }
}

} // verus!
