//! The page format of a node. Byte 0 is the leaf flag (0 leaf, 1 internal),
//! bytes 1..3 the item count. From byte 3 each item has an entry: for an
//! internal node the page number of the child before it, then the 16-bit
//! offset of the item's cell. An internal node ends its entries with the last
//! child. Cells (key length, key, value length, value) fill the page from its
//! end downwards, the first item's cell last in the page.
use vstd::prelude::*;
use crate::bytes::{
    lemma_u16_round_trip, lemma_written_u64, read_bytes, read_u16_le, read_u64_le,
    u16_from_le, u16_to_le, u64_from_le, u64_to_le, write_bytes, write_u16_le, write_u64_le, written,
};
use crate::error::DbError;
use crate::node::{Item, Node, MAX_FIELD_LEN};
use crate::page::PageNum;

verus! {

/// Bytes of one item entry.
pub open spec fn entry_width(internal: bool) -> int {
    if internal {
        10
    } else {
        2
    }
}

/// Where the entry of item `i` starts; for an internal node, where its child
/// pointer is, and for `i` the item count, where the last child is.
pub open spec fn entry_pos(internal: bool, i: int) -> int {
    3 + i * entry_width(internal)
}

/// Where the cell offset of item `i` is.
pub open spec fn offset_pos(internal: bool, i: int) -> int {
    entry_pos(internal, i) + if internal {
        8int
    } else {
        0int
    }
}

pub open spec fn cell_offset(buf: Seq<u8>, internal: bool, i: int) -> int {
    u16_from_le(buf[offset_pos(internal, i)], buf[offset_pos(internal, i) + 1]) as int
}

pub open spec fn key_len_at(buf: Seq<u8>, internal: bool, i: int) -> int {
    buf[cell_offset(buf, internal, i)] as int
}

pub open spec fn value_len_at(buf: Seq<u8>, internal: bool, i: int) -> int {
    buf[cell_offset(buf, internal, i) + 1 + key_len_at(buf, internal, i)] as int
}

pub open spec fn cell_end(buf: Seq<u8>, internal: bool, i: int) -> int {
    cell_offset(buf, internal, i) + 2 + key_len_at(buf, internal, i) + value_len_at(buf, internal, i)
}

/// The entry and the cell of item `i` lie inside the buffer.
pub open spec fn item_fits(buf: Seq<u8>, internal: bool, i: int) -> bool {
    &&& entry_pos(internal, i) + entry_width(internal) <= buf.len()
    &&& cell_offset(buf, internal, i) < buf.len()
    &&& cell_offset(buf, internal, i) + 1 + key_len_at(buf, internal, i) < buf.len()
    &&& cell_end(buf, internal, i) <= buf.len()
}

pub open spec fn key_at(buf: Seq<u8>, internal: bool, i: int) -> Seq<u8> {
    buf.subrange(
        cell_offset(buf, internal, i) + 1,
        cell_offset(buf, internal, i) + 1 + key_len_at(buf, internal, i),
    )
}

pub open spec fn value_at(buf: Seq<u8>, internal: bool, i: int) -> Seq<u8> {
    buf.subrange(
        cell_offset(buf, internal, i) + 2 + key_len_at(buf, internal, i),
        cell_end(buf, internal, i),
    )
}

/// Child pointer `i` of an internal node.
pub open spec fn child_at(buf: Seq<u8>, i: int) -> PageNum {
    u64_from_le(buf.subrange(entry_pos(true, i), entry_pos(true, i) + 8))
}

pub open spec fn page_internal(buf: Seq<u8>) -> bool {
    buf[0] == 1
}

pub open spec fn page_count(buf: Seq<u8>) -> int {
    u16_from_le(buf[1], buf[2]) as int
}

/// The buffer holds a node that can be read back.
pub open spec fn decodable(buf: Seq<u8>) -> bool {
    &&& buf.len() >= 3
    &&& (buf[0] == 0 || buf[0] == 1)
    &&& forall|i: int| 0 <= i < page_count(buf) ==> #[trigger] item_fits(buf, page_internal(buf), i)
    &&& page_internal(buf) ==> entry_pos(true, page_count(buf)) + 8 <= buf.len()
}

/// The items that a decodable buffer holds.
pub open spec fn decoded_pairs(buf: Seq<u8>) -> Seq<(Seq<u8>, Seq<u8>)> {
    Seq::new(
        page_count(buf) as nat,
        |i: int| (key_at(buf, page_internal(buf), i), value_at(buf, page_internal(buf), i)),
    )
}

/// The children that a decodable buffer holds.
pub open spec fn decoded_children(buf: Seq<u8>) -> Seq<PageNum> {
    if page_internal(buf) {
        Seq::new((page_count(buf) + 1) as nat, |i: int| child_at(buf, i))
    } else {
        Seq::empty()
    }
}

impl Node {
    /// Replaces the node's items and children with those that `buf` holds;
    /// a buffer that holds no node is a format error and leaves the node as
    /// it was.
    pub fn deserialize(&mut self, buf: &Vec<u8>) -> (r: Result<(), DbError>)
        ensures
            r is Ok <==> decodable(buf@),
            r is Ok ==> final(self).pairs() == decoded_pairs(buf@) && final(self).children@
                == decoded_children(buf@),
            r is Err ==> r == Err::<(), DbError>(DbError::Format) && *final(self) == *old(self),
            final(self).page_num == old(self).page_num,
    {
        if buf.len() < 3 || (buf[0] != 0 && buf[0] != 1) {
            return Err(DbError::Format);
        }
        let internal: bool = buf[0] == 1;
        let count: usize = read_u16_le(buf, 1) as usize;
        let width: usize = if internal { 10 } else { 2 };
        let ghost b = buf@;
        let mut items: Vec<Item> = Vec::new();
        let mut children: Vec<PageNum> = Vec::new();
        let mut left: usize = 3;
        let mut i: usize = 0;
        while i < count
            invariant
                b == buf@,
                b.len() >= 3,
                b[0] == 0 || b[0] == 1,
                internal == page_internal(b),
                count == page_count(b),
                count <= u16::MAX,
                width == entry_width(internal),
                i <= count,
                left == entry_pos(internal, i as int),
                forall|j: int| 0 <= j < i ==> #[trigger] item_fits(b, internal, j),
                items@.map_values(|it: Item| (it.key@, it.value@)) == decoded_pairs(b).take(i as int),
                internal ==> children@ == Seq::new(i as nat, |j: int| child_at(b, j)),
                !internal ==> children@.len() == 0,
            decreases count - i,
        {
            if left > buf.len() || buf.len() - left < width {
                proof { if decodable(b) { assert(item_fits(b, internal, i as int)); } }
                return Err(DbError::Format);
            }
            if internal {
                let c = read_u64_le(buf, left);
                children.push(c);
                proof {
                    assert(children@ =~= Seq::new((i + 1) as nat, |j: int| child_at(b, j)));
                }
            }
            let q: usize = if internal { left + 8 } else { left };
            let off: usize = read_u16_le(buf, q) as usize;
            if off >= buf.len() {
                proof { if decodable(b) { assert(item_fits(b, internal, i as int)); } }
                return Err(DbError::Format);
            }
            let kl: usize = buf[off] as usize;
            if kl >= buf.len() - off - 1 {
                proof { if decodable(b) { assert(item_fits(b, internal, i as int)); } }
                return Err(DbError::Format);
            }
            let vl: usize = buf[off + 1 + kl] as usize;
            if vl > buf.len() - off - 2 - kl {
                proof { if decodable(b) { assert(item_fits(b, internal, i as int)); } }
                return Err(DbError::Format);
            }
            let key = read_bytes(buf, off + 1, kl);
            let value = read_bytes(buf, off + 2 + kl, vl);
            proof {
                assert(item_fits(b, internal, i as int));
            }
            let ghost before = items@;
            items.push(Item { key, value });
            proof {
                let f = |it: Item| (it.key@, it.value@);
                assert(items@ =~= before.push(items@.last()));
                assert(items@.map_values(f) =~= before.map_values(f).push(f(items@.last())));
                assert(decoded_pairs(b)[i as int] == (key_at(b, internal, i as int), value_at(b, internal, i as int)));
                assert(decoded_pairs(b).take(i + 1) =~= decoded_pairs(b).take(i as int).push(decoded_pairs(b)[i as int]));
                assert(items@.map_values(f) =~= decoded_pairs(b).take(i + 1));
            }
            left = left + width;
            i = i + 1;
        }
        if internal {
            if left > buf.len() || buf.len() - left < 8 {
                return Err(DbError::Format);
            }
            let c = read_u64_le(buf, left);
            children.push(c);
            proof {
                assert(children@ =~= Seq::new((i + 1) as nat, |j: int| child_at(b, j)));
            }
        }
        proof {
            assert(decodable(b));
            assert(decoded_pairs(b).take(i as int) =~= decoded_pairs(b));
            if !internal {
                assert(children@ =~= decoded_children(b));
            }
        }
        self.items = items;
        self.children = children;
        Ok(())
    }
}

} // verus!

verus! {

/// Bytes of an item's cell: two length bytes, key and value.
pub open spec fn cell_size(it: Item) -> int {
    2 + it.key.len() + it.value.len()
}

pub open spec fn cells_size(s: Seq<Item>) -> int
    decreases s.len(),
{
    if s.len() == 0 {
        0
    } else {
        cells_size(s.drop_last()) + cell_size(s.last())
    }
}

/// Bytes that the page format takes for `node`.
pub open spec fn encoded_size(node: Node) -> int {
    let internal = node.children.len() > 0;
    entry_pos(internal, node.items.len() as int) + (if internal {
        8int
    } else {
        0int
    }) + cells_size(node.items@)
}

/// `node` can be written to a page of `len` bytes: its shape is one the
/// format holds, its cell offsets fit 16 bits, and it is not too large.
pub open spec fn fits_page(node: Node, len: int) -> bool {
    node.well_shaped() && len <= 0x10000 && encoded_size(node) <= len
}

/// `buf` holds `node`'s items and children.
pub open spec fn encodes_node(buf: Seq<u8>, node: Node) -> bool {
    &&& decodable(buf)
    &&& decoded_pairs(buf) == node.pairs()
    &&& decoded_children(buf) == node.children@
}

proof fn lemma_cells_prefix(s: Seq<Item>, a: int, b: int)
    requires
        0 <= a <= b <= s.len(),
    ensures
        0 <= cells_size(s.take(a)) <= cells_size(s.take(b)),
        b == a + 1 ==> cells_size(s.take(b)) == cells_size(s.take(a)) + cell_size(s[a]),
    decreases b,
{
    if b > 0 {
        assert(s.take(b).drop_last() =~= s.take(b - 1));
        if a < b {
            lemma_cells_prefix(s, a, b - 1);
        } else {
            lemma_cells_prefix(s, a - 1, b - 1);
        }
    }
}

/// Item `j` of `node` stands in `buf` with its cell where the writer puts it.
pub open spec fn item_placed(buf: Seq<u8>, internal: bool, j: int, node: Node) -> bool {
    &&& item_fits(buf, internal, j)
    &&& key_at(buf, internal, j) == node.items@[j].key@
    &&& value_at(buf, internal, j) == node.items@[j].value@
    &&& internal ==> child_at(buf, j) == node.children@[j]
    &&& cell_offset(buf, internal, j) == buf.len() - cells_size(node.items@.take(j + 1))
}

/// Changing bytes outside an item's entry and cell leaves what is read of it.
proof fn lemma_item_frame(b1: Seq<u8>, b2: Seq<u8>, internal: bool, j: int)
    requires
        0 <= j,
        b1.len() == b2.len(),
        item_fits(b1, internal, j),
        forall|k: int|
            entry_pos(internal, j) <= k < entry_pos(internal, j) + entry_width(internal) ==> #[trigger] b2[k]
                == b1[k],
        forall|k: int| cell_offset(b1, internal, j) <= k < cell_end(b1, internal, j) ==> #[trigger] b2[k] == b1[k],
    ensures
        item_fits(b2, internal, j),
        cell_offset(b2, internal, j) == cell_offset(b1, internal, j),
        key_at(b2, internal, j) == key_at(b1, internal, j),
        value_at(b2, internal, j) == value_at(b1, internal, j),
        internal ==> child_at(b2, j) == child_at(b1, j),
{
    let p = offset_pos(internal, j);
    assert(b2[p] == b1[p]);
    assert(b2[p + 1] == b1[p + 1]);
    let off = cell_offset(b1, internal, j);
    assert(b2[off] == b1[off]);
    let kl = key_len_at(b1, internal, j);
    assert(b2[off + 1 + kl] == b1[off + 1 + kl]);
    assert(key_at(b2, internal, j) =~= key_at(b1, internal, j));
    assert(value_at(b2, internal, j) =~= value_at(b1, internal, j));
    if internal {
        let e = entry_pos(true, j);
        assert(b2.subrange(e, e + 8) =~= b1.subrange(e, e + 8));
    }
}

/// One step of the writer: the entry and cell of item `i` are written, and
/// the items before it are left as they were.
proof fn lemma_item_step(
    prev: Seq<u8>,
    b1: Seq<u8>,
    b2: Seq<u8>,
    b3: Seq<u8>,
    b4: Seq<u8>,
    b5: Seq<u8>,
    b: Seq<u8>,
    node: Node,
    internal: bool,
    i: int,
    off: int,
)
    requires
        fits_page(node, prev.len() as int),
        internal == (node.children.len() > 0),
        0 <= i < node.items.len(),
        off == prev.len() - cells_size(node.items@.take(i + 1)),
        internal ==> written(prev, b1, entry_pos(internal, i), u64_to_le(node.children@[i])),
        !internal ==> b1 == prev,
        written(b1, b2, offset_pos(internal, i), u16_to_le(off as u16)),
        b3 == b2.update(off, node.items@[i].key.len() as u8),
        written(b3, b4, off + 1, node.items@[i].key@),
        b5 == b4.update(off + 1 + node.items@[i].key.len(), node.items@[i].value.len() as u8),
        written(b5, b, off + 2 + node.items@[i].key.len(), node.items@[i].value@),
        forall|j: int| 0 <= j < i ==> #[trigger] item_placed(prev, internal, j, node),
    ensures
        b.len() == prev.len(),
        forall|k: int| 0 <= k < 3 ==> #[trigger] b[k] == prev[k],
        forall|j: int| 0 <= j <= i ==> #[trigger] item_placed(b, internal, j, node),
{
    let n = node.items.len() as int;
    let total = prev.len() as int;
    let left = entry_pos(internal, i);
    let width = entry_width(internal);
    let q = offset_pos(internal, i);
    let it = node.items@[i];
    let kl = it.key.len() as int;
    let vl = it.value.len() as int;
    let right = off + 2 + kl + vl;
    lemma_cells_prefix(node.items@, i, i + 1);
    lemma_cells_prefix(node.items@, i + 1, n);
    assert(node.items@.take(n) =~= node.items@);
    assert(entry_pos(internal, i + 1) <= entry_pos(internal, n)) by (nonlinear_arith)
        requires
            i + 1 <= n,
            entry_width(internal) >= 0,
    ;
    assert(left + width <= off);
    assert(right == total - cells_size(node.items@.take(i)));
    assert forall|k: int| 0 <= k < total && !(left <= k < left + width) && !(off <= k < right) implies #[trigger] b[k]
        == prev[k] by {
        assert(b5[k] == b4[k]);
        assert(b4[k] == b3[k]);
        assert(b2[k] == b1[k]);
    }
    lemma_u16_round_trip(off as u16);
    assert(b2[q + 0] == u16_to_le(off as u16)[0]);
    assert(b2[q + 1] == u16_to_le(off as u16)[1]);
    assert(b[q] == b2[q]);
    assert(b[q + 1] == b2[q + 1]);
    assert(cell_offset(b, internal, i) == off);
    assert(b[off] == kl as u8);
    assert(b[off + 1 + kl] == vl as u8);
    assert(key_len_at(b, internal, i) == kl);
    assert(value_len_at(b, internal, i) == vl);
    assert forall|t: int| 0 <= t < kl implies #[trigger] key_at(b, internal, i)[t] == it.key@[t] by {
        assert(b4[off + 1 + t] == it.key@[t]);
        assert(b[off + 1 + t] == b4[off + 1 + t]);
    }
    assert(key_at(b, internal, i) =~= it.key@);
    assert forall|t: int| 0 <= t < vl implies #[trigger] value_at(b, internal, i)[t] == it.value@[t] by {
        assert(b[(off + 2 + kl) + t] == it.value@[t]);
    }
    assert(value_at(b, internal, i) =~= it.value@);
    if internal {
        lemma_written_u64(prev, b1, left, node.children@[i]);
        assert forall|t: int| 0 <= t < 8 implies #[trigger] b.subrange(left, left + 8)[t] == b1.subrange(left, left + 8)[t] by {
            assert(b[left + t] == b2[left + t]);
            assert(b2[left + t] == b1[left + t]);
        }
        assert(b.subrange(left, left + 8) =~= b1.subrange(left, left + 8));
    }
    assert(item_placed(b, internal, i, node));
    assert forall|j: int| 0 <= j < i implies #[trigger] item_placed(b, internal, j, node) by {
        assert(item_placed(prev, internal, j, node));
        lemma_cells_prefix(node.items@, j + 1, i);
        lemma_cells_prefix(node.items@, j, j + 1);
        assert(key_at(prev, internal, j).len() == node.items@[j].key@.len());
        assert(value_at(prev, internal, j).len() == node.items@[j].value@.len());
        assert(entry_pos(internal, j) + entry_width(internal) <= left) by (nonlinear_arith)
            requires
                j + 1 <= i,
                entry_width(internal) >= 0,
                left == entry_pos(internal, i),
        ;
        lemma_item_frame(prev, b, internal, j);
    }
}

impl Node {
    /// Whether the node can be written to a page of `len` bytes.
    pub fn fits_page(&self, len: usize) -> (r: bool)
        ensures
            r == fits_page(*self, len as int),
    {
        let n = self.items.len();
        let internal = self.children.len() > 0;
        if n > 0xffff || len > 0x10000 || (internal && self.children.len() != n + 1) {
            return false;
        }
        let mut need: usize = if internal { 3 + 10 * n + 8 } else { 3 + 2 * n };
        let mut i: usize = 0;
        while i < n
            invariant
                n == self.items.len(),
                n <= 0xffff,
                len <= 0x10000,
                internal == (self.children.len() > 0),
                i <= n,
                need == entry_pos(internal, n as int) + (if internal { 8int } else { 0int }) + cells_size(
                    self.items@.take(i as int),
                ),
                need <= 3 + 10 * n + 8 + 514 * i,
                forall|k: int|
                    0 <= k < i ==> #[trigger] self.items@[k].key.len() <= MAX_FIELD_LEN
                        && self.items@[k].value.len() <= MAX_FIELD_LEN,
            decreases n - i,
        {
            let kl = self.items[i].key.len();
            let vl = self.items[i].value.len();
            if kl > MAX_FIELD_LEN || vl > MAX_FIELD_LEN {
                return false;
            }
            proof {
                lemma_cells_prefix(self.items@, i as int, i + 1);
            }
            need = need + 2 + kl + vl;
            i = i + 1;
        }
        assert(self.items@.take(n as int) =~= self.items@);
        need <= len
    }

    /// Writes the node into `buf` in the page format. A node that the format
    /// cannot hold, or that does not fit, is a capacity error, found before
    /// anything is written.
    pub fn serialize(&self, buf: &mut Vec<u8>) -> (r: Result<(), DbError>)
        ensures
            r is Ok <==> fits_page(*self, old(buf).len() as int),
            r is Err ==> r == Err::<(), DbError>(DbError::Capacity) && final(buf)@ == old(buf)@,
            r is Ok ==> final(buf)@.len() == old(buf)@.len() && encodes_node(final(buf)@, *self),
    {
        if !self.fits_page(buf.len()) {
            return Err(DbError::Capacity);
        }
        let n: usize = self.items.len();
        let internal: bool = self.children.len() > 0;
        let width: usize = if internal { 10 } else { 2 };
        let total: usize = buf.len();
        proof {
            lemma_cells_prefix(self.items@, 0, n as int);
            assert(self.items@.take(n as int) =~= self.items@);
        }
        buf.set(0, if internal { 1u8 } else { 0u8 });
        write_u16_le(buf, 1, n as u16);
        proof {
            lemma_u16_round_trip(n as u16);
            assert(buf@[1int + 0int] == u16_to_le(n as u16)[0]);
            assert(buf@[1int + 1int] == u16_to_le(n as u16)[1]);
            lemma_cells_prefix(self.items@, 0, n as int);
            assert(self.items@.take(n as int) =~= self.items@);
        }
        let mut left: usize = 3;
        let mut right: usize = total;
        let mut i: usize = 0;
        while i < n
            invariant
                buf@.len() == total,
                total <= 0x10000,
                n == self.items.len(),
                n <= u16::MAX,
                width == entry_width(internal),
                internal == (self.children.len() > 0),
                fits_page(*self, total as int),
                i <= n,
                left == entry_pos(internal, i as int),
                right == total - cells_size(self.items@.take(i as int)),
                buf@[0] == (if internal { 1u8 } else { 0u8 }),
                u16_from_le(buf@[1], buf@[2]) == n,
                forall|j: int| 0 <= j < i ==> #[trigger] item_placed(buf@, internal, j, *self),
            decreases n - i,
        {
            let ghost prev = buf@;
            proof {
                lemma_cells_prefix(self.items@, i as int, i + 1);
                lemma_cells_prefix(self.items@, i + 1, n as int);
                assert(self.items@.take(n as int) =~= self.items@);
            }
            let kl: usize = self.items[i].key.len();
            let vl: usize = self.items[i].value.len();
            let off: usize = right - (2 + kl + vl);
            let q: usize = if internal { left + 8 } else { left };
            if internal {
                write_u64_le(buf, left, self.children[i]);
            }
            let ghost b1 = buf@;
            write_u16_le(buf, q, off as u16);
            let ghost b2 = buf@;
            buf.set(off, kl as u8);
            let ghost b3 = buf@;
            write_bytes(buf, off + 1, &self.items[i].key);
            let ghost b4 = buf@;
            buf.set(off + 1 + kl, vl as u8);
            let ghost b5 = buf@;
            write_bytes(buf, off + 2 + kl, &self.items[i].value);
            proof {
                lemma_item_step(prev, b1, b2, b3, b4, b5, buf@, *self, internal, i as int, off as int);
            }
            left = left + width;
            right = off;
            i = i + 1;
        }
        if internal {
            let ghost prev = buf@;
            write_u64_le(buf, left, self.children[n]);
            proof {
                let b = buf@;
                lemma_written_u64(prev, b, left as int, self.children@[n as int]);
                lemma_cells_prefix(self.items@, 0, n as int);
                assert(self.items@.take(n as int) =~= self.items@);
                assert forall|j: int| 0 <= j < n implies #[trigger] item_placed(b, internal, j, *self) by {
                    assert(item_placed(prev, internal, j, *self));
                    lemma_cells_prefix(self.items@, j + 1, n as int);
                    lemma_cells_prefix(self.items@, j, j + 1);
                    assert(key_at(prev, internal, j).len() == self.items@[j].key@.len());
                    assert(value_at(prev, internal, j).len() == self.items@[j].value@.len());
                    lemma_item_frame(prev, b, internal, j);
                }
            }
        }
        proof {
            let b = buf@;
            assert forall|j: int| 0 <= j < page_count(b) implies #[trigger] item_fits(b, page_internal(b), j) by {
                assert(item_placed(b, internal, j, *self));
            }
            assert(decodable(b));
            assert forall|j: int| 0 <= j < n implies decoded_pairs(b)[j] == self.pairs()[j] by {
                assert(item_placed(b, internal, j, *self));
            }
            assert(decoded_pairs(b) =~= self.pairs());
            if internal {
                assert forall|j: int| 0 <= j <= n implies decoded_children(b)[j] == self.children@[j] by {
                    if j < n {
                        assert(item_placed(b, internal, j, *self));
                    }
                }
            }
            assert(decoded_children(b) =~= self.children@);
        }
        Ok(())
    }
}

/// A node written with `serialize` reads back with `deserialize` as the same
/// items, in the same order, and the same children.
pub proof fn lemma_node_round_trip(buf: Seq<u8>, node: Node, back: Node)
    requires
        encodes_node(buf, node),
        decoded_pairs(buf) == back.pairs(),
        decoded_children(buf) == back.children@,
    ensures
        back.pairs() == node.pairs(),
        back.children@ == node.children@,
{
}

} // verus!
