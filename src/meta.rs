//! The meta record at page 0: where the root and the free list live.
use vstd::prelude::*;
use crate::bytes::{read_u64_le, u64_from_le, u64_to_le, write_u64_le, written, lemma_u64_round_trip};
use crate::error::DbError;
use crate::page::{PageNum, PAGE_NUM_SIZE};

verus! {

/// The page reserved for the meta record.
pub const META_PAGE_NUM: PageNum = 0;

/// Bytes taken by an encoded meta record.
pub const META_SIZE: usize = 16;

#[derive(Clone, Copy, Debug, PartialEq, Eq, Structural)]
pub struct Meta {
    pub root: PageNum,
    pub free_list_page_num: PageNum,
}

impl Meta {
    /// The bytes of the record: root, then free-list page, each little-endian.
    pub open spec fn encoded(self) -> Seq<u8> {
        u64_to_le(self.root) + u64_to_le(self.free_list_page_num)
    }

    /// The record that the first sixteen bytes of `buf` hold.
    pub open spec fn decoded(buf: Seq<u8>) -> Meta {
        Meta {
            root: u64_from_le(buf.subrange(0, 8)),
            free_list_page_num: u64_from_le(buf.subrange(8, 16)),
        }
    }

    /// The record of a fresh file: free list at page 1, root at page 2.
    pub fn new() -> (r: Self)
        ensures
            r.root == 2,
            r.free_list_page_num == 1,
    {
        Self { root: 2, free_list_page_num: 1 }
    }

    /// Writes the record at the start of `buf`.
    pub fn serialize(&self, buf: &mut Vec<u8>)
        requires
            old(buf).len() >= META_SIZE,
        ensures
            written(old(buf)@, final(buf)@, 0, self.encoded()),
    {
        write_u64_le(buf, 0, self.root);
        write_u64_le(buf, PAGE_NUM_SIZE, self.free_list_page_num);
        assert forall|k: int| 0 <= k < 16 implies #[trigger] buf@[0 + k] == self.encoded()[k] by {
            if k < 8 {
            } else {
                assert(buf@[8 + (k - 8)] == u64_to_le(self.free_list_page_num)[k - 8]);
            }
        }
    }

    /// Reads the record at the start of `buf`; a buffer shorter than the
    /// record is a format error.
    pub fn deserialize(buf: &Vec<u8>) -> (r: Result<Self, DbError>)
        ensures
            buf.len() >= META_SIZE ==> r == Ok::<Meta, DbError>(Self::decoded(buf@)),
            buf.len() < META_SIZE ==> r == Err::<Meta, DbError>(DbError::Format),
    {
        if buf.len() < META_SIZE {
            return Err(DbError::Format);
        }
        let root = read_u64_le(buf, 0);
        let free_list_page_num = read_u64_le(buf, PAGE_NUM_SIZE);
        Ok(Self { root, free_list_page_num })
    }
}

/// Decoding what `serialize` wrote gives back the same record, whatever the
/// buffer held before.
pub proof fn lemma_meta_round_trip(m: Meta, before: Seq<u8>, after: Seq<u8>)
    requires
        before.len() >= META_SIZE,
        written(before, after, 0, m.encoded()),
    ensures
        Meta::decoded(after) == m,
{
    assert forall|k: int| 0 <= k < 8 implies after.subrange(0, 8)[k] == u64_to_le(m.root)[k] by {
        assert(after[0 + k] == m.encoded()[k]);
    }
    assert(after.subrange(0, 8) =~= u64_to_le(m.root));
    assert forall|k: int| 0 <= k < 8 implies after.subrange(8, 16)[k] == u64_to_le(
        m.free_list_page_num,
    )[k] by {
        assert(after[0 + (8 + k)] == m.encoded()[8 + k]);
    }
    assert(after.subrange(8, 16) =~= u64_to_le(m.free_list_page_num));
    lemma_u64_round_trip(m.root);
    lemma_u64_round_trip(m.free_list_page_num);
}

} // verus!
