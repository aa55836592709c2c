//! The storage engine's state: allocator, meta record and fill bounds, and
//! the conversion between pages and the records they hold. Reading and
//! writing the pages of the file is left to the caller.
use vstd::prelude::*;
use crate::bytes::written;
use crate::error::DbError;
use crate::free_list::{
    can_allocate, encoded_len, free_list_decoded, next_page, release, FreeList, FreeListModel,
};
use crate::meta::{Meta, META_PAGE_NUM, META_SIZE};
use crate::node::{node_size_spec, Item, Node};
use crate::node_codec::{decodable, decoded_children, decoded_pairs, encodes_node, fits_page};
use crate::options::Options;
use crate::page::{Page, PageNum};

verus! {

pub struct DataAccessLayer {
    pub options: Options,
    pub free_list: FreeList,
    pub meta: Meta,
}

impl DataAccessLayer {
    /// The state of a fresh file: the free list takes page 1 and the root is
    /// at page 2.
    pub fn new(options: Options) -> (r: Self)
        ensures
            r.options == options,
            r.free_list@ == (FreeListModel { max_page: 1, released: Seq::empty() }),
            r.meta == (Meta { root: 2, free_list_page_num: 1 }),
    {
        let mut free_list = FreeList::new();
        let mut meta = Meta::new();
        meta.free_list_page_num = free_list.get_next_page();
        DataAccessLayer { options, free_list, meta }
    }

    /// The state of an existing file, from the records read from it.
    pub fn from_parts(options: Options, meta: Meta, free_list: FreeList) -> (r: Self)
        ensures
            r.options == options,
            r.meta == meta,
            r.free_list@ == free_list@,
    {
        DataAccessLayer { options, free_list, meta }
    }

    pub fn page_size(&self) -> (r: usize)
        ensures
            r == self.options.page_size,
    {
        self.options.page_size
    }

    /// A zero-filled page numbered 0.
    pub fn allocate_empty_page(&self) -> (r: Page)
        ensures
            r.number() == 0,
            r.bytes() == Seq::new(self.options.page_size as nat, |i: int| 0u8),
            r.cursor_at() == 0,
    {
        Page::from_data(Page::initialize_raw_data(self.options.page_size))
    }

    /// A zero-filled page numbered `page_num`.
    pub fn allocate_empty_page_with_num(&self, page_num: PageNum) -> (r: Page)
        ensures
            r.number() == page_num,
            r.bytes() == Seq::new(self.options.page_size as nat, |i: int| 0u8),
            r.cursor_at() == 0,
    {
        Page::new(page_num, Page::initialize_raw_data(self.options.page_size))
    }

    /// The page that holds the meta record; a page too small for it is a
    /// capacity error.
    pub fn meta_page(&self) -> (r: Result<Page, DbError>)
        ensures
            r is Ok <==> self.options.page_size >= META_SIZE,
            r is Err ==> r == Err::<Page, DbError>(DbError::Capacity),
            r matches Ok(p) ==> p.number() == META_PAGE_NUM && written(
                Seq::new(self.options.page_size as nat, |i: int| 0u8),
                p.bytes(),
                0,
                self.meta.encoded(),
            ),
    {
        if self.options.page_size < META_SIZE {
            return Err(DbError::Capacity);
        }
        let mut data = Page::initialize_raw_data(self.options.page_size);
        self.meta.serialize(&mut data);
        Ok(Page::new(META_PAGE_NUM, data))
    }

    /// The page that holds the free list, at the page the meta record names;
    /// a free list that does not fit one page is a capacity error.
    pub fn free_list_page(&self) -> (r: Result<Page, DbError>)
        ensures
            r is Ok <==> (self.free_list@.released.len() <= u16::MAX && encoded_len(
                self.free_list@.released.len() as int,
            ) <= self.options.page_size),
            r is Err ==> r == Err::<Page, DbError>(DbError::Capacity),
            r matches Ok(p) ==> p.number() == self.meta.free_list_page_num && p.bytes().len()
                == self.options.page_size && free_list_decoded(p.bytes()) == (FreeListModel {
                max_page: self.free_list@.max_page % 0x10000,
                released: self.free_list@.released,
            }),
    {
        if !self.free_list.fits_in(self.options.page_size) {
            return Err(DbError::Capacity);
        }
        let mut data = Page::initialize_raw_data(self.options.page_size);
        self.free_list.serialize(&mut data);
        Ok(Page::new(self.meta.free_list_page_num, data))
    }

    /// The node that `page` holds, stamped with the page's number.
    pub fn get_node(&self, page: &Page) -> (r: Result<Node, DbError>)
        ensures
            r is Ok <==> decodable(page.bytes()),
            r is Err ==> r == Err::<Node, DbError>(DbError::Format),
            r matches Ok(n) ==> n.page_num == page.number() && n.pairs() == decoded_pairs(page.bytes())
                && n.children@ == decoded_children(page.bytes()),
    {
        let mut node = Node::new();
        match node.deserialize(page.data()) {
            Ok(()) => {
                node.page_num = page.page_num();
                Ok(node)
            },
            Err(e) => Err(e),
        }
    }

    /// The page to write `node` to. A node with no page yet gets the next
    /// page of the allocator. A node that does not fit a page is a capacity
    /// error, and then nothing changes.
    pub fn write_node(&mut self, node: &mut Node) -> (r: Result<Page, DbError>)
        requires
            old(node).page_num != 0 || can_allocate(old(self).free_list@),
        ensures
            r is Ok <==> fits_page(*old(node), old(self).options.page_size as int),
            r is Err ==> r == Err::<Page, DbError>(DbError::Capacity) && *final(self) == *old(self)
                && *final(node) == *old(node),
            r is Ok ==> final(node).items@ == old(node).items@ && final(node).children@ == old(
                node,
            ).children@,
            r is Ok && old(node).page_num != 0 ==> final(node).page_num == old(node).page_num
                && final(self).free_list@ == old(self).free_list@,
            r is Ok && old(node).page_num == 0 ==> (final(node).page_num, final(self).free_list@)
                == next_page(old(self).free_list@),
            final(self).meta == old(self).meta,
            final(self).options == old(self).options,
            r matches Ok(p) ==> p.number() == final(node).page_num && p.bytes().len()
                == old(self).options.page_size && encodes_node(p.bytes(), *old(node)),
    {
        if !node.fits_page(self.options.page_size) {
            return Err(DbError::Capacity);
        }
        let mut data = Page::initialize_raw_data(self.options.page_size);
        let res = node.serialize(&mut data);
        if node.page_num == 0 {
            node.page_num = self.free_list.get_next_page();
        }
        match res {
            Ok(()) => Ok(Page::new(node.page_num, data)),
            Err(e) => Err(e),
        }
    }

    /// Gives the node's page back to the allocator.
    pub fn delete_node(&mut self, page_num: PageNum)
        ensures
            final(self).free_list@ == release(old(self).free_list@, page_num),
            final(self).meta == old(self).meta,
            final(self).options == old(self).options,
    {
        self.free_list.release_page(page_num);
    }

    /// A node with no page yet, holding `items` and `children`.
    pub fn new_node(&self, items: Vec<Item>, children: Vec<PageNum>) -> (r: Node)
        ensures
            r.page_num == 0,
            r.items@ == items@,
            r.children@ == children@,
    {
        Node::with_contents(items, children)
    }

    pub fn is_over_populated(&self, node: &Node) -> (r: bool)
        requires
            node.well_shaped(),
        ensures
            r == self.options.over(node_size_spec(node.items@)),
    {
        self.options.is_over_populated(node)
    }

    pub fn is_under_populated(&self, node: &Node) -> (r: bool)
        requires
            node.well_shaped(),
        ensures
            r == self.options.under(node_size_spec(node.items@)),
    {
        self.options.is_under_populated(node)
    }

    /// Where an over-full node is split, if anywhere.
    pub fn get_split_index(&self, node: &Node) -> (r: Option<usize>)
        requires
            node.well_shaped(),
        ensures
            r is None <==> forall|i: int| !#[trigger] self.options.can_split_at(node.items@, i),
            r matches Some(i) ==> (self.options.can_split_at(node.items@, i as int) && forall|j: int|
                0 <= j < i ==> !#[trigger] self.options.can_split_at(node.items@, j)),
    {
        self.options.get_split_index(node)
    }
}

} // verus!

verus! {

impl Node {
    /// The node is above the upper fill bound of `dal`.
    pub fn is_over_populated(&self, dal: &DataAccessLayer) -> (r: bool)
        requires
            self.well_shaped(),
        ensures
            r == dal.options.over(node_size_spec(self.items@)),
    {
        dal.is_over_populated(self)
    }

    /// The node is below the lower fill bound of `dal`.
    pub fn is_under_populated(&self, dal: &DataAccessLayer) -> (r: bool)
        requires
            self.well_shaped(),
        ensures
            r == dal.options.under(node_size_spec(self.items@)),
    {
        dal.is_under_populated(self)
    }
}

} // verus!
