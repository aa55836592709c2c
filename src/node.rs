//! B-tree nodes: items ordered by key, child page numbers, lookup and split.
use vstd::prelude::*;
use crate::page::{PageNum, PAGE_NUM_SIZE};

verus! {

/// Bytes of the node header: leaf flag and item count.
pub const NODE_HEADER_SIZE: usize = 3;

/// Longest key or value that the node format can hold.
pub const MAX_FIELD_LEN: usize = 255;

/// Byte-wise order on keys: `a` sorts before `b` when they differ first at a
/// byte that is smaller in `a`, or when `a` is a proper prefix of `b`.
pub open spec fn key_lt(a: Seq<u8>, b: Seq<u8>) -> bool {
    exists|i: int|
        0 <= i <= a.len() && i <= b.len() && #[trigger] a.take(i) == b.take(i) && ((i == a.len()
            && i < b.len()) || (i < a.len() && i < b.len() && a[i] < b[i]))
}

/// Outcome of comparing two keys.
#[derive(Clone, Copy, Debug, PartialEq, Eq, Structural)]
pub enum KeyOrder {
    Less,
    Equal,
    Greater,
}

proof fn lemma_common_prefix(a: Seq<u8>, b: Seq<u8>, i: int, j: int)
    requires
        0 <= j <= i <= a.len(),
        i <= b.len(),
        a.take(i) == b.take(i),
    ensures
        a.take(j) == b.take(j),
        j < i ==> a[j] == b[j],
{
    assert(a.take(j) =~= a.take(i).take(j));
    assert(b.take(j) =~= b.take(i).take(j));
    if j < i {
        assert(a.take(i)[j] == a[j]);
        assert(b.take(i)[j] == b[j]);
    }
}

/// Compares two keys byte-wise.
pub fn compare_keys(a: &Vec<u8>, b: &Vec<u8>) -> (r: KeyOrder)
    ensures
        (r == KeyOrder::Less) == key_lt(a@, b@),
        (r == KeyOrder::Equal) == (a@ == b@),
        (r == KeyOrder::Greater) == key_lt(b@, a@),
{
    let mut i: usize = 0;
    while i < a.len() && i < b.len() && a[i] == b[i]
        invariant
            i <= a.len(),
            i <= b.len(),
            a@.take(i as int) == b@.take(i as int),
        decreases a.len() - i,
    {
        assert(a@.take(i + 1) =~= a@.take(i as int).push(a@[i as int]));
        assert(b@.take(i + 1) =~= b@.take(i as int).push(b@[i as int]));
        i = i + 1;
    }
    let ghost gi = i as int;
    let r = if i < a.len() && i < b.len() {
        if a[i] < b[i] {
            KeyOrder::Less
        } else {
            KeyOrder::Greater
        }
    } else if i == a.len() && i < b.len() {
        KeyOrder::Less
    } else if i == b.len() && i < a.len() {
        KeyOrder::Greater
    } else {
        KeyOrder::Equal
    };
    proof {
        assert(a@.take(gi) == b@.take(gi));
        // any witness of an order must be the first difference, which is `gi`
        assert forall|j: int|
            0 <= j <= a@.len() && j <= b@.len() && #[trigger] a@.take(j) == b@.take(j) implies j <= gi
            by {
            if j > gi {
                lemma_common_prefix(a@, b@, j, gi);
            }
        }
        assert forall|j: int|
            0 <= j <= b@.len() && j <= a@.len() && #[trigger] b@.take(j) == a@.take(j) implies j <= gi
            by {
            if j > gi {
                lemma_common_prefix(a@, b@, j, gi);
            }
        }
        assert forall|j: int| 0 <= j < gi implies a@[j] == b@[j] by {
            lemma_common_prefix(a@, b@, gi, j);
        }
        if gi == a@.len() && gi == b@.len() {
            assert(a@ =~= a@.take(gi));
            assert(b@ =~= b@.take(gi));
        }
        if a@ == b@ {
            assert(!key_lt(a@, b@));
            assert(!key_lt(b@, a@));
        }
        if gi < a@.len() && gi < b@.len() {
            assert(a@[gi] != b@[gi]);
            assert(a@ != b@) by {
                if a@ == b@ {
                }
            }
        }
    }
    r
}

/// A key/value pair stored in a node.
#[derive(Clone, Debug)]
pub struct Item {
    pub key: Vec<u8>,
    pub value: Vec<u8>,
}

/// Bytes that an item takes in a node: key, value and one page number.
pub open spec fn item_size_spec(it: Item) -> int {
    it.key.len() + it.value.len() + PAGE_NUM_SIZE
}

/// Sum of the sizes of `s`.
pub open spec fn items_size(s: Seq<Item>) -> int
    decreases s.len(),
{
    if s.len() == 0 {
        0
    } else {
        items_size(s.drop_last()) + item_size_spec(s.last())
    }
}

/// Bytes that a node of these items takes: header, items, one trailing page number.
pub open spec fn node_size_spec(s: Seq<Item>) -> int {
    NODE_HEADER_SIZE + items_size(s) + PAGE_NUM_SIZE
}

pub proof fn lemma_items_size_append(a: Seq<Item>, b: Seq<Item>)
    ensures
        items_size(a + b) == items_size(a) + items_size(b),
    decreases b.len(),
{
    if b.len() > 0 {
        assert((a + b).drop_last() =~= a + b.drop_last());
        lemma_items_size_append(a, b.drop_last());
    } else {
        assert(a + b =~= a);
    }
}

pub proof fn lemma_items_size_split(s: Seq<Item>, i: int)
    requires
        0 <= i <= s.len(),
    ensures
        items_size(s) == items_size(s.take(i)) + items_size(s.skip(i)),
{
    assert(s =~= s.take(i) + s.skip(i));
    lemma_items_size_append(s.take(i), s.skip(i));
}

pub proof fn lemma_items_size_bound(s: Seq<Item>)
    requires
        forall|k: int| 0 <= k < s.len() ==> #[trigger] s[k].key.len() <= MAX_FIELD_LEN && s[k].value.len() <= MAX_FIELD_LEN,
    ensures
        0 <= items_size(s) <= s.len() * 518,
    decreases s.len(),
{
    if s.len() > 0 {
        assert(s.last() == s[s.len() - 1]);
        lemma_items_size_bound(s.drop_last());
    }
}

impl Item {
    pub fn new(key: Vec<u8>, value: Vec<u8>) -> (r: Self)
        ensures
            r.key@ == key@,
            r.value@ == value@,
    {
        Self { key, value }
    }

    /// Bytes that the item takes in a node.
    pub fn size(&self) -> (r: usize)
        requires
            self.key.len() + self.value.len() + PAGE_NUM_SIZE <= usize::MAX,
        ensures
            r == item_size_spec(*self),
    {
        self.key.len() + self.value.len() + PAGE_NUM_SIZE
    }
}

/// What a lookup in one node decides.
#[derive(Clone, Copy, Debug, PartialEq, Eq, Structural)]
pub enum FindStep {
    /// The key is the item at this index.
    Found(usize),
    /// The key is in no node of this subtree.
    NotFound,
    /// The key can only be under this child page.
    Descend(PageNum),
}

/// A B-tree node. `page_num` 0 means that no page has been assigned yet.
#[derive(Clone, Debug)]
pub struct Node {
    pub page_num: PageNum,
    pub items: Vec<Item>,
    pub children: Vec<PageNum>,
}

/// The keys of `s`.
pub open spec fn keys_of(s: Seq<Item>) -> Seq<Seq<u8>> {
    s.map_values(|it: Item| it.key@)
}

/// Keys strictly ascending.
pub open spec fn sorted_keys(s: Seq<Item>) -> bool {
    forall|i: int, j: int| 0 <= i < j < s.len() ==> key_lt(#[trigger] s[i].key@, #[trigger] s[j].key@)
}

impl Node {
    /// The node's items as key/value byte sequences.
    pub open spec fn pairs(&self) -> Seq<(Seq<u8>, Seq<u8>)> {
        self.items@.map_values(|it: Item| (it.key@, it.value@))
    }

    /// The shape that the page format can hold: keys and values of at most
    /// 255 bytes, a 16-bit item count, and either no children or one more
    /// child than items.
    pub open spec fn well_shaped(&self) -> bool {
        &&& self.items.len() <= u16::MAX
        &&& forall|k: int|
            0 <= k < self.items.len() ==> #[trigger] self.items@[k].key.len() <= MAX_FIELD_LEN
                && self.items@[k].value.len() <= MAX_FIELD_LEN
        &&& (self.children.len() == 0 || self.children.len() == self.items.len() + 1)
    }

    /// Whether the node has a shape that the page format holds.
    pub fn is_well_shaped(&self) -> (r: bool)
        ensures
            r == self.well_shaped(),
    {
        let n = self.items.len();
        if n > 0xffff || (self.children.len() != 0 && self.children.len() != n + 1) {
            return false;
        }
        let mut i: usize = 0;
        while i < n
            invariant
                n == self.items.len(),
                i <= n,
                forall|k: int|
                    0 <= k < i ==> #[trigger] self.items@[k].key.len() <= MAX_FIELD_LEN
                        && self.items@[k].value.len() <= MAX_FIELD_LEN,
            decreases n - i,
        {
            if self.items[i].key.len() > MAX_FIELD_LEN || self.items[i].value.len() > MAX_FIELD_LEN {
                return false;
            }
            i = i + 1;
        }
        true
    }

    /// An empty leaf with no page assigned.
    pub fn new() -> (r: Self)
        ensures
            r.page_num == 0,
            r.items@.len() == 0,
            r.children@.len() == 0,
    {
        Self { page_num: 0, items: Vec::new(), children: Vec::new() }
    }

    /// A node with no page assigned holding `items` and `children`.
    pub fn with_contents(items: Vec<Item>, children: Vec<PageNum>) -> (r: Self)
        ensures
            r.page_num == 0,
            r.items@ == items@,
            r.children@ == children@,
    {
        Self { page_num: 0, items, children }
    }

    /// Bytes that item `index` takes.
    pub fn item_size(&self, index: usize) -> (r: usize)
        requires
            index < self.items.len(),
            self.well_shaped(),
        ensures
            r == item_size_spec(self.items@[index as int]),
    {
        self.items[index].size()
    }

    /// Bytes that the node takes in a page.
    pub fn node_size(&self) -> (r: usize)
        requires
            self.well_shaped(),
        ensures
            r == node_size_spec(self.items@),
    {
        proof {
            lemma_items_size_bound(self.items@);
        }
        let mut size: usize = NODE_HEADER_SIZE;
        let mut i: usize = 0;
        while i < self.items.len()
            invariant
                self.well_shaped(),
                i <= self.items.len(),
                size == NODE_HEADER_SIZE + items_size(self.items@.take(i as int)),
                items_size(self.items@.take(i as int)) <= i * 518,
            decreases self.items.len() - i,
        {
            proof {
                assert(self.items@.take(i + 1).drop_last() =~= self.items@.take(i as int));
                lemma_items_size_bound(self.items@.take(i as int));
            }
            size = size + self.items[i].size();
            i = i + 1;
        }
        assert(self.items@.take(i as int) =~= self.items@);
        size + PAGE_NUM_SIZE
    }

    pub fn is_leaf(&self) -> (r: bool)
        ensures
            r == (self.children.len() == 0),
    {
        self.children.len() == 0
    }

    /// Inserts `item` at `index` and returns the index.
    pub fn add_item(&mut self, item: Item, index: usize) -> (r: usize)
        requires
            index <= old(self).items.len(),
        ensures
            r == index,
            final(self).items@ == old(self).items@.insert(index as int, item),
            final(self).children@ == old(self).children@,
            final(self).page_num == old(self).page_num,
    {
        if index == self.items.len() {
            self.items.push(item);
            assert(self.items@ =~= old(self).items@.insert(index as int, item));
            return index;
        }
        self.items.insert(index, item);
        index
    }

    /// Scans the items for `key`: the index returned is the first whose key
    /// does not sort before `key`, and the flag says whether it equals `key`.
    pub fn find_key_in_node(&self, key: &Vec<u8>) -> (r: (bool, usize))
        ensures
            r.1 <= self.items.len(),
            forall|j: int| 0 <= j < r.1 ==> key_lt(#[trigger] self.items@[j].key@, key@),
            r.1 < self.items.len() ==> !key_lt(self.items@[r.1 as int].key@, key@),
            r.0 == (r.1 < self.items.len() && self.items@[r.1 as int].key@ == key@),
    {
        let mut i: usize = 0;
        while i < self.items.len()
            invariant
                i <= self.items.len(),
                forall|j: int| 0 <= j < i ==> key_lt(#[trigger] self.items@[j].key@, key@),
            decreases self.items.len() - i,
        {
            match compare_keys(&self.items[i].key, key) {
                KeyOrder::Less => {},
                KeyOrder::Equal => {
                    return (true, i);
                },
                KeyOrder::Greater => {
                    proof {
                        lemma_key_lt_asymmetric(key@, self.items@[i as int].key@);
                    }
                    return (false, i);
                },
            }
            i = i + 1;
        }
        (false, self.items.len())
    }

    /// Decides the next step of a lookup of `key` at this node.
    pub fn find_step(&self, key: &Vec<u8>) -> (r: FindStep)
        requires
            self.well_shaped(),
        ensures
            r == self.step(key@),
    {
        let (found, index) = self.find_key_in_node(key);
        proof {
            self.lemma_first_not_below(key@, index as int);
        }
        if found {
            FindStep::Found(index)
        } else if self.is_leaf() {
            FindStep::NotFound
        } else {
            FindStep::Descend(self.children[index])
        }
    }

    /// The step of a lookup of `key` at this node: the item if it holds
    /// `key`, else the child that can hold it, if any.
    pub open spec fn step(&self, key: Seq<u8>) -> FindStep {
        let i = self.first_not_below(key);
        if i < self.items.len() && self.items@[i].key@ == key {
            FindStep::Found(i as usize)
        } else if self.children.len() == 0 {
            FindStep::NotFound
        } else {
            FindStep::Descend(self.children@[i])
        }
    }

    /// Index of the first item whose key does not sort before `key`.
    pub open spec fn first_not_below(&self, key: Seq<u8>) -> int {
        if exists|j: int| 0 <= j < self.items.len() && !key_lt(#[trigger] self.items@[j].key@, key) {
            choose|j: int|
                0 <= j < self.items.len() && !key_lt(#[trigger] self.items@[j].key@, key) && forall|
                    k: int,
                | 0 <= k < j ==> key_lt(#[trigger] self.items@[k].key@, key)
        } else {
            self.items.len() as int
        }
    }

    proof fn lemma_first_not_below(&self, key: Seq<u8>, i: int)
        requires
            0 <= i <= self.items.len(),
            forall|j: int| 0 <= j < i ==> key_lt(#[trigger] self.items@[j].key@, key),
            i < self.items.len() ==> !key_lt(self.items@[i].key@, key),
        ensures
            self.first_not_below(key) == i,
    {
        if i < self.items.len() {
            let c = choose|j: int|
                0 <= j < self.items.len() && !key_lt(#[trigger] self.items@[j].key@, key) && forall|
                    k: int,
                | 0 <= k < j ==> key_lt(#[trigger] self.items@[k].key@, key);
            assert(0 <= i < self.items.len() && !key_lt(self.items@[i].key@, key) && forall|k: int|
                0 <= k < i ==> key_lt(#[trigger] self.items@[k].key@, key));
            if c < i {
            } else if c > i {
                assert(key_lt(self.items@[i].key@, key));
            }
        } else {
            assert(!exists|j: int| 0 <= j < self.items.len() && !key_lt(#[trigger] self.items@[j].key@, key));
        }
    }
}

pub proof fn lemma_key_lt_asymmetric(a: Seq<u8>, b: Seq<u8>)
    ensures
        key_lt(a, b) ==> !key_lt(b, a),
{
    if key_lt(a, b) && key_lt(b, a) {
        let i = choose|i: int|
            0 <= i <= a.len() && i <= b.len() && #[trigger] a.take(i) == b.take(i) && ((i == a.len()
                && i < b.len()) || (i < a.len() && i < b.len() && a[i] < b[i]));
        let j = choose|j: int|
            0 <= j <= b.len() && j <= a.len() && #[trigger] b.take(j) == a.take(j) && ((j == b.len()
                && j < a.len()) || (j < b.len() && j < a.len() && b[j] < a[j]));
        if i < j {
            lemma_common_prefix(a, b, j, i);
        } else if j < i {
            lemma_common_prefix(a, b, i, j);
        }
    }
}

} // verus!

verus! {

proof fn lemma_first_difference(a: Seq<u8>, b: Seq<u8>, i: int)
    requires
        0 <= i <= a.len(),
        i <= b.len(),
        a.take(i) == b.take(i),
    ensures
        a == b || key_lt(a, b) || key_lt(b, a),
    decreases a.len() - i,
{
    if i == a.len() && i == b.len() {
        assert(a =~= a.take(i));
        assert(b =~= b.take(i));
    } else if i == a.len() {
        assert(key_lt(a, b));
    } else if i == b.len() {
        assert(b.take(i) == a.take(i));
        assert(key_lt(b, a));
    } else if a[i] < b[i] {
        assert(key_lt(a, b));
    } else if b[i] < a[i] {
        assert(b.take(i) == a.take(i));
        assert(key_lt(b, a));
    } else {
        assert(a.take(i + 1) =~= a.take(i).push(a[i]));
        assert(b.take(i + 1) =~= b.take(i).push(b[i]));
        lemma_first_difference(a, b, i + 1);
    }
}

/// Any two keys are equal or one sorts before the other.
pub proof fn lemma_key_lt_total(a: Seq<u8>, b: Seq<u8>)
    ensures
        a == b || key_lt(a, b) || key_lt(b, a),
{
    assert(a.take(0) =~= b.take(0));
    lemma_first_difference(a, b, 0);
}

/// In a node whose keys ascend, the scan stops on `key` exactly when the node
/// holds it. Otherwise every key before the stopping index sorts below `key`
/// and the key at it sorts above, so only the child at that index can hold it.
pub proof fn lemma_lookup_in_sorted_node(node: Node, key: Seq<u8>)
    requires
        sorted_keys(node.items@),
    ensures
        ({
            let i = node.first_not_below(key);
            &&& 0 <= i <= node.items.len()
            &&& (i < node.items.len() && node.items@[i].key@ == key) == keys_of(node.items@).contains(key)
            &&& forall|j: int| 0 <= j < i ==> key_lt(#[trigger] node.items@[j].key@, key)
            &&& (i < node.items.len() && node.items@[i].key@ != key) ==> key_lt(key, node.items@[i].key@)
        }),
{
    let s = node.items@;
    // the first index whose key does not sort below `key`
    let i = if exists|j: int| 0 <= j < s.len() && !key_lt(#[trigger] s[j].key@, key) {
        let m = choose|j: int| 0 <= j < s.len() && !key_lt(#[trigger] s[j].key@, key);
        lemma_least_not_below(node, key, m)
    } else {
        s.len() as int
    };
    node.lemma_first_not_below(key, i);
    if i < s.len() && s[i].key@ != key {
        lemma_key_lt_total(s[i].key@, key);
    }
    if keys_of(s).contains(key) {
        let j = choose|j: int| 0 <= j < keys_of(s).len() && keys_of(s)[j] == key;
        assert(s[j].key@ == key);
        assert forall|k: int| 0 <= k < j implies key_lt(#[trigger] s[k].key@, key) by {
            assert(key_lt(s[k].key@, s[j].key@));
        }
        node.lemma_first_not_below(key, j);
    }
    if i < s.len() && s[i].key@ == key {
        assert(keys_of(s)[i] == key);
    }
}

proof fn lemma_least_not_below(node: Node, key: Seq<u8>, m: int) -> (i: int)
    requires
        0 <= m < node.items.len(),
        !key_lt(node.items@[m].key@, key),
    ensures
        0 <= i <= m,
        !key_lt(node.items@[i].key@, key),
        forall|j: int| 0 <= j < i ==> key_lt(#[trigger] node.items@[j].key@, key),
    decreases m,
{
    if exists|j: int| 0 <= j < m && !key_lt(#[trigger] node.items@[j].key@, key) {
        let j = choose|j: int| 0 <= j < m && !key_lt(#[trigger] node.items@[j].key@, key);
        lemma_least_not_below(node, key, j)
    } else {
        m
    }
}

impl Node {
    /// Splits at `index`: this node keeps the items before it (and the
    /// children up to and including the one at `index`); the returned node,
    /// with no page assigned, takes the items and children after it; the item
    /// at `index` is returned to go up into the parent.
    pub fn split(&mut self, index: usize) -> (r: (Item, Node))
        requires
            index < old(self).items.len(),
            old(self).children.len() == 0 || old(self).children.len() == old(self).items.len() + 1,
        ensures
            r.0 == old(self).items@[index as int],
            final(self).page_num == old(self).page_num,
            final(self).items@ == old(self).items@.take(index as int),
            r.1.items@ == old(self).items@.skip(index + 1),
            r.1.page_num == 0,
            old(self).children.len() == 0 ==> final(self).children@.len() == 0 && r.1.children@.len() == 0,
            old(self).children.len() > 0 ==> final(self).children@ == old(self).children@.take(index + 1)
                && r.1.children@ == old(self).children@.skip(index + 1),
    {
        let right_items = self.items.split_off(index + 1);
        let promoted = match self.items.pop() {
            Some(it) => it,
            None => Item { key: Vec::new(), value: Vec::new() },
        };
        let right_children = if self.children.len() > 0 {
            self.children.split_off(index + 1)
        } else {
            Vec::new()
        };
        assert(self.items@ =~= old(self).items@.take(index as int));
        assert(right_items@ =~= old(self).items@.skip(index + 1));
        (promoted, Node::with_contents(right_items, right_children))
    }
}

} // verus!

verus! {

/// Byte-wise key order is transitive.
pub proof fn lemma_key_lt_transitive(a: Seq<u8>, b: Seq<u8>, c: Seq<u8>)
    requires
        key_lt(a, b),
        key_lt(b, c),
    ensures
        key_lt(a, c),
{
    let i = choose|i: int|
        0 <= i <= a.len() && i <= b.len() && #[trigger] a.take(i) == b.take(i) && ((i == a.len() && i
            < b.len()) || (i < a.len() && i < b.len() && a[i] < b[i]));
    let j = choose|j: int|
        0 <= j <= b.len() && j <= c.len() && #[trigger] b.take(j) == c.take(j) && ((j == b.len() && j
            < c.len()) || (j < b.len() && j < c.len() && b[j] < c[j]));
    if i < j {
        lemma_common_prefix(b, c, j, i);
        assert(a.take(i) == c.take(i));
        assert(b[i] == c[i]);
    } else if j < i {
        lemma_common_prefix(a, b, i, j);
        assert(a.take(j) == c.take(j));
        assert(a[j] == b[j]);
    } else {
        assert(a.take(i) == c.take(i));
    }
}

} // verus!
