//! Fixed-size byte buffers tagged with their position in the file.
use vstd::prelude::*;
use vstd::utf8::encode_utf8;
use crate::bytes::written;

verus! {

/// Index of a page in the backing file.
pub type PageNum = u64;

/// Width in bytes of an encoded page number.
pub const PAGE_NUM_SIZE: usize = 8;

/// A page buffer with a write cursor for appending bytes.
#[derive(Clone)]
pub struct Page {
    pub num: PageNum,
    data: Vec<u8>,
    cursor: usize,
}

impl Page {
    /// The page's number.
    pub closed spec fn number(&self) -> PageNum {
        self.num
    }

    /// The page's bytes.
    pub closed spec fn bytes(&self) -> Seq<u8> {
        self.data@
    }

    /// Where the next appended byte goes.
    pub closed spec fn cursor_at(&self) -> int {
        self.cursor as int
    }

    pub fn new(num: PageNum, data: Vec<u8>) -> (r: Self)
        ensures
            r.number() == num,
            r.bytes() == data@,
            r.cursor_at() == 0,
    {
        Self { num, data, cursor: 0 }
    }

    /// A page numbered 0 over `data`.
    pub fn from_data(data: Vec<u8>) -> (r: Self)
        ensures
            r.number() == 0,
            r.bytes() == data@,
            r.cursor_at() == 0,
    {
        Self::new(0, data)
    }

    /// `page_size` zero bytes.
    pub fn initialize_raw_data(page_size: usize) -> (r: Vec<u8>)
        ensures
            r@ == Seq::new(page_size as nat, |i: int| 0u8),
    {
        let mut r: Vec<u8> = Vec::new();
        let mut i: usize = 0;
        while i < page_size
            invariant
                i <= page_size,
                r@ == Seq::new(i as nat, |k: int| 0u8),
            decreases page_size - i,
        {
            r.push(0u8);
            i = i + 1;
            assert(r@ =~= Seq::new(i as nat, |k: int| 0u8));
        }
        r
    }

    pub fn page_num(&self) -> (r: PageNum)
        ensures
            r == self.number(),
    {
        self.num
    }

    pub fn data(&self) -> (r: &Vec<u8>)
        ensures
            r@ == self.bytes(),
    {
        &self.data
    }

    /// Appends the UTF-8 bytes of `s` at the cursor and moves the cursor past them.
    pub fn put_str(&mut self, s: &str)
        requires
            old(self).cursor_at() + encode_utf8(s@).len() <= old(self).bytes().len(),
        ensures
            final(self).number() == old(self).number(),
            written(old(self).bytes(), final(self).bytes(), old(self).cursor_at(), encode_utf8(s@)),
            final(self).cursor_at() == old(self).cursor_at() + encode_utf8(s@).len(),
    {
        let b: &[u8] = s.as_bytes();
        let start: usize = self.cursor;
        let mut i: usize = 0;
        while i < b.len()
            invariant
                b@ == encode_utf8(s@),
                start == old(self).cursor,
                self.cursor == start + i,
                self.num == old(self).num,
                i <= b.len(),
                start + b.len() <= self.data.len(),
                self.data@.len() == old(self).data@.len(),
                forall|k: int| 0 <= k < i ==> #[trigger] self.data@[start + k] == b@[k],
                forall|k: int|
                    0 <= k < old(self).data@.len() && (k < start || k >= start + i)
                        ==> #[trigger] self.data@[k] == old(self).data@[k],
            decreases b.len() - i,
        {
            let c = self.cursor;
            self.data.set(c, b[i]);
            self.cursor = c + 1;
            i = i + 1;
        }
    }

    /// Appends the UTF-8 bytes of `s` at the cursor and moves the cursor past them.
    pub fn put_string(&mut self, s: String)
        requires
            old(self).cursor_at() + encode_utf8(s@).len() <= old(self).bytes().len(),
        ensures
            final(self).number() == old(self).number(),
            written(old(self).bytes(), final(self).bytes(), old(self).cursor_at(), encode_utf8(s@)),
            final(self).cursor_at() == old(self).cursor_at() + encode_utf8(s@).len(),
    {
        self.put_str(s.as_str())
    }
}

} // verus!
