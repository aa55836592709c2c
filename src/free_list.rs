//! The page allocator: the highest page handed out so far and a stack of
//! released pages to hand out again first.
use vstd::prelude::*;
use crate::bytes::{
    lemma_u16_round_trip, lemma_written_keeps, lemma_written_u64, read_u16_le, read_u64_le,
    u16_from_le, u16_to_le, u64_from_le, u64_to_le, write_u16_le, write_u64_le,
};
use crate::error::DbError;
use crate::meta::META_PAGE_NUM;
use crate::page::{PageNum, PAGE_NUM_SIZE};

verus! {

/// What a free list holds.
pub struct FreeListModel {
    pub max_page: PageNum,
    pub released: Seq<PageNum>,
}

/// Whether another page can be handed out without the counter overflowing.
pub open spec fn can_allocate(v: FreeListModel) -> bool {
    v.released.len() > 0 || v.max_page < u64::MAX
}

/// The page handed out next and the free list after it: the most recently
/// released page if there is one, else a page one past the highest so far.
pub open spec fn next_page(v: FreeListModel) -> (PageNum, FreeListModel) {
    if v.released.len() > 0 {
        (v.released.last(), FreeListModel { max_page: v.max_page, released: v.released.drop_last() })
    } else {
        ((v.max_page + 1) as u64, FreeListModel { max_page: (v.max_page + 1) as u64, released: v.released })
    }
}

/// The free list after `p` is given back.
pub open spec fn release(v: FreeListModel, p: PageNum) -> FreeListModel {
    FreeListModel { max_page: v.max_page, released: v.released.push(p) }
}

/// Page `p` has been handed out and not given back.
pub open spec fn in_use(v: FreeListModel, p: PageNum) -> bool {
    0 < p <= v.max_page && !v.released.contains(p)
}

/// Every released page was handed out before, and none is released twice.
pub open spec fn well_formed(v: FreeListModel) -> bool {
    &&& forall|i: int| 0 <= i < v.released.len() ==> 0 < #[trigger] v.released[i] <= v.max_page
    &&& v.released.no_duplicates()
}

/// Bytes taken by an encoded free list with `n` released pages.
pub open spec fn encoded_len(n: int) -> int {
    4 + PAGE_NUM_SIZE * n
}

/// The free list that a buffer holds: the highest page as 16 bits, the
/// count of released pages as 16 bits, then each released page as 64 bits.
pub open spec fn free_list_decoded(buf: Seq<u8>) -> FreeListModel {
    FreeListModel {
        max_page: u16_from_le(buf[0], buf[1]) as u64,
        released: Seq::new(
            u16_from_le(buf[2], buf[3]) as nat,
            |i: int| u64_from_le(buf.subrange(4 + 8 * i, 4 + 8 * i + 8)),
        ),
    }
}

#[derive(Clone)]
pub struct FreeList {
    max_page: PageNum,
    released_pages: Vec<PageNum>,
}

impl View for FreeList {
    type V = FreeListModel;

    closed spec fn view(&self) -> FreeListModel {
        FreeListModel { max_page: self.max_page, released: self.released_pages@ }
    }
}

impl FreeList {
    /// An allocator on which only the meta page is taken.
    pub fn new() -> (r: Self)
        ensures
            r@ == (FreeListModel { max_page: 0, released: Seq::empty() }),
    {
        Self { max_page: META_PAGE_NUM, released_pages: Vec::new() }
    }

    /// Hands out a page number.
    pub fn get_next_page(&mut self) -> (r: PageNum)
        requires
            can_allocate(old(self)@),
        ensures
            (r, final(self)@) == next_page(old(self)@),
    {
        if self.released_pages.len() > 0 {
            match self.released_pages.pop() {
                Some(p) => p,
                None => 0,
            }
        } else {
            self.max_page = self.max_page + 1;
            self.max_page
        }
    }

    /// Whether another page can be handed out.
    pub fn can_allocate(&self) -> (r: bool)
        ensures
            r == can_allocate(self@),
    {
        self.released_pages.len() > 0 || self.max_page < u64::MAX
    }

    /// Gives page `page` back, to be handed out before any new page.
    pub fn release_page(&mut self, page: PageNum)
        ensures
            final(self)@ == release(old(self)@, page),
    {
        self.released_pages.push(page);
    }

    /// Whether the list fits in a buffer of `size` bytes.
    pub fn fits_in(&self, size: usize) -> (r: bool)
        ensures
            r == (self@.released.len() <= u16::MAX && encoded_len(self@.released.len() as int) <= size),
    {
        size >= 4 && self.released_pages.len() <= 0xffff && self.released_pages.len() <= (size - 4)
            / 8
    }

    /// Writes the list at the start of `buf`. The highest page is kept to
    /// its low 16 bits.
    pub fn serialize(&self, buf: &mut Vec<u8>)
        requires
            self@.released.len() <= u16::MAX,
            encoded_len(self@.released.len() as int) <= old(buf).len(),
        ensures
            final(buf)@.len() == old(buf)@.len(),
            forall|k: int|
                encoded_len(self@.released.len() as int) <= k < old(buf)@.len() ==> #[trigger] final(buf)@[k]
                    == old(buf)@[k],
            free_list_decoded(final(buf)@) == (FreeListModel {
                max_page: self@.max_page % 0x10000,
                released: self@.released,
            }),
    {
        let n: usize = self.released_pages.len();
        let low: u16 = (self.max_page & 0xffffu64) as u16;
        let mp: u64 = self.max_page;
        assert(mp & 0xffffu64 == mp % 0x10000) by (bit_vector);
        write_u16_le(buf, 0, low);
        let ghost b1 = buf@;
        write_u16_le(buf, 2, n as u16);
        let ghost header = buf@.subrange(0, 4);
        proof {
            lemma_u16_round_trip(low);
            lemma_u16_round_trip(n as u16);
            assert(buf@[0] == b1[0] && buf@[1] == b1[1]);
            assert(buf@[2int + 0int] == u16_to_le(n as u16)[0]);
            assert(buf@[2int + 1int] == u16_to_le(n as u16)[1]);
            assert(b1[0int + 0int] == u16_to_le(low)[0]);
            assert(b1[0int + 1int] == u16_to_le(low)[1]);
        }
        let mut i: usize = 0;
        while i < n
            invariant
                n == self.released_pages@.len(),
                n <= u16::MAX,
                i <= n,
                4 + 8 * n <= buf.len(),
                buf@.len() == old(buf)@.len(),
                buf@.subrange(0, 4) == header,
                u16_from_le(header[0], header[1]) == low,
                u16_from_le(header[2], header[3]) == n as u16,
                forall|j: int|
                    0 <= j < i ==> u64_from_le(#[trigger] buf@.subrange(4 + 8 * j, 4 + 8 * j + 8))
                        == self.released_pages@[j],
                forall|k: int| 4 + 8 * n <= k < old(buf)@.len() ==> #[trigger] buf@[k] == old(buf)@[k],
            decreases n - i,
        {
            let ghost prev = buf@;
            let pos: usize = 4 + 8 * i;
            write_u64_le(buf, pos, self.released_pages[i]);
            proof {
                lemma_written_u64(prev, buf@, pos as int, self.released_pages@[i as int]);
                lemma_written_keeps(prev, buf@, pos as int, u64_to_le(self.released_pages@[i as int]), 0, 4);
                assert forall|j: int| 0 <= j < i implies u64_from_le(
                    #[trigger] buf@.subrange(4 + 8 * j, 4 + 8 * j + 8),
                ) == self.released_pages@[j] by {
                    lemma_written_keeps(prev, buf@, pos as int, u64_to_le(self.released_pages@[i as int]), 4 + 8 * j, 8);
                }
            }
            i = i + 1;
        }
        proof {
            let d = free_list_decoded(buf@);
            assert(buf@[0] == header[0] && buf@[1] == header[1]);
            assert(buf@[2] == header[2] && buf@[3] == header[3]);
            assert(d.released =~= self.released_pages@);
        }
    }

    /// Reads a list from the start of `buf`; a buffer too short for the
    /// header or for the count of pages it gives is a format error.
    pub fn deserialize(buf: &Vec<u8>) -> (r: Result<Self, DbError>)
        ensures
            buf.len() >= 4 && encoded_len(u16_from_le(buf@[2], buf@[3]) as int) <= buf.len()
                ==> (r matches Ok(f) && f@ == free_list_decoded(buf@)),
            !(buf.len() >= 4 && encoded_len(u16_from_le(buf@[2], buf@[3]) as int) <= buf.len())
                ==> r == Err::<FreeList, DbError>(DbError::Format),
    {
        if buf.len() < 4 {
            return Err(DbError::Format);
        }
        let max_page = read_u16_le(buf, 0) as u64;
        let count = read_u16_le(buf, 2) as usize;
        if count > (buf.len() - 4) / 8 {
            return Err(DbError::Format);
        }
        let mut released_pages: Vec<PageNum> = Vec::new();
        let mut i: usize = 0;
        while i < count
            invariant
                i <= count,
                count == u16_from_le(buf@[2], buf@[3]),
                4 + 8 * count <= buf.len(),
                released_pages@ == free_list_decoded(buf@).released.take(i as int),
            decreases count - i,
        {
            let p = read_u64_le(buf, 4 + 8 * i);
            released_pages.push(p);
            i = i + 1;
            assert(released_pages@ =~= free_list_decoded(buf@).released.take(i as int));
        }
        let r = Self { max_page, released_pages };
        assert(r@.released =~= free_list_decoded(buf@).released);
        Ok(r)
    }
}

/// With no releases, pages are handed out in increasing order, and a fresh
/// allocator hands out page 1 first. The allocator after the call again has
/// no released pages and its highest page is the one handed out, so the same
/// holds for every further call.
pub proof fn lemma_fresh_pages_increase(v: FreeListModel)
    requires
        v.released.len() == 0,
        v.max_page < u64::MAX - 1,
    ensures
        next_page(v).0 == v.max_page + 1,
        next_page(v).1.released.len() == 0,
        next_page(v).1.max_page == next_page(v).0,
        next_page(next_page(v).1).0 > next_page(v).0,
        next_page(FreeListModel { max_page: 0, released: Seq::empty() }).0 == 1,
{
}

/// A released page is the next one handed out, and the allocator is then as
/// it was before the release.
pub proof fn lemma_release_then_reuse(v: FreeListModel, p: PageNum)
    ensures
        next_page(release(v, p)) == (p, v),
{
    assert(release(v, p).released.drop_last() =~= v.released);
}

/// On a well-formed allocator the page handed out is not in use; afterwards
/// it is, no other page changes state, and the allocator stays well formed.
/// So no page is handed out twice without a release in between.
pub proof fn lemma_no_double_allocation(v: FreeListModel)
    requires
        well_formed(v),
        can_allocate(v),
    ensures
        !in_use(v, next_page(v).0),
        in_use(next_page(v).1, next_page(v).0),
        well_formed(next_page(v).1),
        forall|q: PageNum| q != next_page(v).0 ==> in_use(next_page(v).1, q) == in_use(v, q),
{
    let (p, w) = next_page(v);
    if v.released.len() > 0 {
        let n = v.released.len() - 1;
        assert(v.released[n as int] == p);
        assert(v.released.contains(p));
        assert(w.released =~= v.released.subrange(0, n as int));
        assert(!w.released.contains(p)) by {
            if w.released.contains(p) {
                let i = choose|i: int| 0 <= i < w.released.len() && w.released[i] == p;
                assert(v.released[i] == v.released[n as int]);
            }
        }
        assert forall|q: PageNum| q != p implies in_use(w, q) == in_use(v, q) by {
            if v.released.contains(q) {
                let i = choose|i: int| 0 <= i < v.released.len() && v.released[i] == q;
                assert(i != n);
                assert(w.released[i] == q);
            }
            if w.released.contains(q) {
                let i = choose|i: int| 0 <= i < w.released.len() && w.released[i] == q;
                assert(v.released[i] == q);
            }
        }
        assert(w.released.no_duplicates());
    } else {
        assert forall|q: PageNum| q != p implies in_use(w, q) == in_use(v, q) by {
        }
    }
}

/// Giving back a page in use keeps the allocator well formed and makes the
/// page free.
pub proof fn lemma_release_keeps_well_formed(v: FreeListModel, p: PageNum)
    requires
        well_formed(v),
        in_use(v, p),
    ensures
        well_formed(release(v, p)),
        !in_use(release(v, p), p),
{
    let w = release(v, p);
    assert(w.released[v.released.len() as int] == p);
    assert forall|i: int, j: int| 0 <= i < j < w.released.len() implies w.released[i] != w.released[j] by {
        if j == v.released.len() {
            assert(v.released[i] == w.released[i]);
        }
    }
}

} // verus!

verus! {

/// Decoding what `serialize` wrote gives back the same allocator whenever its
/// highest page fits the 16-bit field, and the decoder's length check passes.
pub proof fn lemma_free_list_round_trip(v: FreeListModel, after: Seq<u8>)
    requires
        v.max_page <= u16::MAX,
        v.released.len() <= u16::MAX,
        encoded_len(v.released.len() as int) <= after.len(),
        free_list_decoded(after) == (FreeListModel { max_page: v.max_page % 0x10000, released: v.released }),
    ensures
        free_list_decoded(after) == v,
        encoded_len(u16_from_le(after[2], after[3]) as int) <= after.len(),
{
    assert(free_list_decoded(after).released.len() == u16_from_le(after[2], after[3]));
}

} // verus!
