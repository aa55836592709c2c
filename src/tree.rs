//! Lookup over a whole tree: the pages of a tree as a map from page number to
//! node, the search order that a B-tree keeps, and what following the lookup
//! steps from the root finds.
use vstd::prelude::*;
use crate::node::{
    key_lt, keys_of, lemma_key_lt_asymmetric, lemma_key_lt_transitive, lemma_lookup_in_sorted_node,
    sorted_keys, FindStep, Node,
};
use crate::page::PageNum;

verus! {

/// `k` lies strictly between the bounds that are given.
pub open spec fn within(k: Seq<u8>, lo: Option<Seq<u8>>, hi: Option<Seq<u8>>) -> bool {
    &&& (lo matches Some(l) ==> key_lt(l, k))
    &&& (hi matches Some(h) ==> key_lt(k, h))
}

/// Lower bound of the keys under child `i` of `n`.
pub open spec fn child_lo(n: Node, lo: Option<Seq<u8>>, i: int) -> Option<Seq<u8>> {
    if i == 0 {
        lo
    } else {
        Some(n.items@[i - 1].key@)
    }
}

/// Upper bound of the keys under child `i` of `n`.
pub open spec fn child_hi(n: Node, hi: Option<Seq<u8>>, i: int) -> Option<Seq<u8>> {
    if i == n.items.len() {
        hi
    } else {
        Some(n.items@[i].key@)
    }
}

/// The subtree at page `p`, of height at most `h`, is a search tree with all
/// keys between `lo` and `hi`: each node's keys ascend, and the keys under
/// child `i` lie between the keys of items `i - 1` and `i`.
pub open spec fn is_search_tree(
    nodes: Map<PageNum, Node>,
    p: PageNum,
    h: nat,
    lo: Option<Seq<u8>>,
    hi: Option<Seq<u8>>,
) -> bool
    decreases h,
{
    nodes.contains_key(p) && {
        let n = nodes[p];
        &&& n.well_shaped()
        &&& sorted_keys(n.items@)
        &&& forall|i: int| 0 <= i < n.items.len() ==> within(#[trigger] n.items@[i].key@, lo, hi)
        &&& n.children.len() > 0 ==> h > 0 && forall|i: int|
            0 <= i < n.children.len() ==> is_search_tree(
                nodes,
                #[trigger] n.children@[i],
                (h - 1) as nat,
                child_lo(n, lo, i),
                child_hi(n, hi, i),
            )
    }
}

/// Some node of the subtree at `p` holds `key`.
pub open spec fn tree_holds(nodes: Map<PageNum, Node>, p: PageNum, h: nat, key: Seq<u8>) -> bool
    decreases h,
{
    nodes.contains_key(p) && (keys_of(nodes[p].items@).contains(key) || (h > 0 && exists|i: int|
        0 <= i < nodes[p].children.len() && tree_holds(nodes, #[trigger] nodes[p].children@[i], (h - 1) as nat, key)))
}

/// What a lookup that follows `Node::find_step` from page `p` finds.
pub open spec fn tree_find(nodes: Map<PageNum, Node>, p: PageNum, h: nat, key: Seq<u8>) -> bool
    decreases h,
{
    nodes.contains_key(p) && match nodes[p].step(key) {
        FindStep::Found(_) => true,
        FindStep::NotFound => false,
        FindStep::Descend(c) => h > 0 && tree_find(nodes, c, (h - 1) as nat, key),
    }
}

/// Every key held in a search tree lies between its bounds.
pub proof fn lemma_held_keys_within(
    nodes: Map<PageNum, Node>,
    p: PageNum,
    h: nat,
    lo: Option<Seq<u8>>,
    hi: Option<Seq<u8>>,
    key: Seq<u8>,
)
    requires
        is_search_tree(nodes, p, h, lo, hi),
        tree_holds(nodes, p, h, key),
    ensures
        within(key, lo, hi),
    decreases h,
{
    let n = nodes[p];
    if keys_of(n.items@).contains(key) {
        let j = choose|j: int| 0 <= j < keys_of(n.items@).len() && keys_of(n.items@)[j] == key;
        assert(n.items@[j].key@ == key);
    } else {
        let i = choose|i: int|
            0 <= i < n.children.len() && tree_holds(nodes, #[trigger] n.children@[i], (h - 1) as nat, key);
        lemma_held_keys_within(nodes, n.children@[i], (h - 1) as nat, child_lo(n, lo, i), child_hi(n, hi, i), key);
        if i > 0 {
            assert(within(n.items@[i - 1].key@, lo, hi));
            if lo is Some {
                lemma_key_lt_transitive(lo->Some_0, n.items@[i - 1].key@, key);
            }
        }
        if i < n.items.len() {
            assert(within(n.items@[i].key@, lo, hi));
            if hi is Some {
                lemma_key_lt_transitive(key, n.items@[i].key@, hi->Some_0);
            }
        }
    }
}

/// When the lookup at `p` descends to child `i`, no other child holds `key`.
proof fn lemma_other_child_lacks(
    nodes: Map<PageNum, Node>,
    p: PageNum,
    h: nat,
    lo: Option<Seq<u8>>,
    hi: Option<Seq<u8>>,
    key: Seq<u8>,
    i: int,
    j: int,
)
    requires
        is_search_tree(nodes, p, h, lo, hi),
        nodes[p].children.len() > 0,
        0 <= i <= nodes[p].items.len(),
        forall|k: int| 0 <= k < i ==> key_lt(#[trigger] nodes[p].items@[k].key@, key),
        i < nodes[p].items.len() ==> key_lt(key, nodes[p].items@[i].key@),
        0 <= j < nodes[p].children.len(),
        j != i,
    ensures
        !tree_holds(nodes, nodes[p].children@[j], (h - 1) as nat, key),
{
    let n = nodes[p];
    assert(is_search_tree(nodes, n.children@[j], (h - 1) as nat, child_lo(n, lo, j), child_hi(n, hi, j)));
    if tree_holds(nodes, n.children@[j], (h - 1) as nat, key) {
        lemma_held_keys_within(nodes, n.children@[j], (h - 1) as nat, child_lo(n, lo, j), child_hi(n, hi, j), key);
        if j < i {
            lemma_key_lt_asymmetric(n.items@[j].key@, key);
        } else {
            // i < j, so items[i] <= items[j - 1] < key < items[i]
            if j - 1 > i {
                assert(key_lt(n.items@[i].key@, n.items@[j - 1].key@));
                lemma_key_lt_transitive(key, n.items@[i].key@, n.items@[j - 1].key@);
            }
            lemma_key_lt_asymmetric(n.items@[j - 1].key@, key);
        }
    }
}

/// In a search tree, the lookup that follows `Node::find_step` from the root
/// finds a key exactly when some node of the tree holds it.
pub proof fn lemma_tree_find_correct(
    nodes: Map<PageNum, Node>,
    p: PageNum,
    h: nat,
    lo: Option<Seq<u8>>,
    hi: Option<Seq<u8>>,
    key: Seq<u8>,
)
    requires
        is_search_tree(nodes, p, h, lo, hi),
    ensures
        tree_find(nodes, p, h, key) == tree_holds(nodes, p, h, key),
    decreases h,
{
    let n = nodes[p];
    lemma_lookup_in_sorted_node(n, key);
    let i = n.first_not_below(key);
    if i < n.items.len() && n.items@[i].key@ == key {
    } else if n.children.len() == 0 {
    } else {
        assert(is_search_tree(nodes, n.children@[i], (h - 1) as nat, child_lo(n, lo, i), child_hi(n, hi, i)));
        lemma_tree_find_correct(nodes, n.children@[i], (h - 1) as nat, child_lo(n, lo, i), child_hi(n, hi, i), key);
        assert forall|j: int| 0 <= j < n.children.len() && j != i implies !tree_holds(
            nodes,
            #[trigger] n.children@[j],
            (h - 1) as nat,
            key,
        ) by {
            lemma_other_child_lacks(nodes, p, h, lo, hi, key, i, j);
        }
        if tree_holds(nodes, p, h, key) {
            assert(!keys_of(n.items@).contains(key));
            let j = choose|j: int|
                0 <= j < n.children.len() && tree_holds(nodes, #[trigger] n.children@[j], (h - 1) as nat, key);
            assert(j == i);
        }
        if tree_find(nodes, p, h, key) {
            assert(tree_holds(nodes, n.children@[i], (h - 1) as nat, key));
        }
    }
}

} // verus!
