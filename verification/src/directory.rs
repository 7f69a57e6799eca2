//! The directory: a power-of-two table mapping hash prefixes to segment
//! indices.

use vstd::arithmetic::power2::{lemma2_to64, lemma_pow2_adds, lemma_pow2_strictly_increases, pow2};
use vstd::bytes::{spec_u32_to_le_bytes, spec_u32_from_le_bytes, u32_to_le_bytes, u32_from_le_bytes};
use vstd::prelude::*;

verus! {

use crate::prefix::{lemma_prefix_bound, prefix_bits, spec_prefix};

/// The deepest directory this build can hold in memory: the table has
/// `2^depth` four-byte entries, so the depth is capped well below the
/// 64 bits the on-disk format could express.
pub const MAX_GLOBAL_DEPTH: u8 = 31;

/// An in-memory directory: the global depth and one `u32` segment index
/// for each `global_depth`-bit prefix.
#[derive(Debug)]
pub struct Directory {
    global_depth: u8,
    table: Vec<u32>,
}

impl Directory {
    /// The number of prefix bits the table is indexed by.
    pub closed spec fn depth(self) -> u8 {
        self.global_depth
    }

    /// The table of segment indices, one per prefix.
    pub closed spec fn entries(self) -> Seq<u32> {
        self.table@
    }

    /// The table length always matches the depth.
    pub open spec fn wf(self) -> bool {
        self.depth() <= MAX_GLOBAL_DEPTH && self.entries().len() == pow2(self.depth() as nat)
    }

    /// Where a hash word lands in the table: its top `depth` bits.
    pub open spec fn spec_dir_index(self, hk: u64) -> int {
        spec_prefix(hk, self.depth() as u64) as int
    }

    /// A fresh directory: depth 0, every prefix mapped to segment 0.
    pub fn new() -> (d: Directory)
        ensures
            d.wf(),
            d.depth() == 0,
            d.entries() =~= seq![0u32],
    {
        let mut table: Vec<u32> = Vec::new();
        table.push(0);
        proof {
            lemma2_to64();
        }
        Directory { global_depth: 0, table }
    }

    /// The current global depth.
    pub fn global_depth(&self) -> (g: u8)
        ensures
            g == self.depth(),
    {
        self.global_depth
    }

    /// The number of table entries.
    pub fn len(&self) -> (n: usize)
        requires
            self.wf(),
        ensures
            n == self.entries().len(),
    {
        self.table.len()
    }

    /// The entry at a table position.
    pub fn entry(&self, i: usize) -> (idx: u32)
        requires
            self.wf(),
            i < self.entries().len(),
        ensures
            idx == self.entries()[i as int],
    {
        self.table[i]
    }

    /// The segment index a hash word routes to.
    pub fn segment_index(&self, hk: u64) -> (idx: u32)
        requires
            self.wf(),
        ensures
            idx == self.entries()[self.spec_dir_index(hk)],
    {
        let i = prefix_bits(hk, self.global_depth as u64);
        proof {
            lemma_prefix_bound(hk, self.global_depth as u64);
            lemma_pow2_strictly_increases(self.global_depth as nat, 32);
            lemma2_to64();
        }
        self.table[i as usize]
    }

    /// Overwrites one table entry in place.
    pub fn set_segment_index(&mut self, i: usize, idx: u32)
        requires
            old(self).wf(),
            i < old(self).entries().len(),
        ensures
            final(self).wf(),
            final(self).depth() == old(self).depth(),
            final(self).entries() == old(self).entries().update(i as int, idx),
    {
        self.table.set(i, idx);
    }

    /// Doubles the table: the depth rises by one and each old entry is
    /// written twice, so every segment keeps exactly twice as many slots.
    pub fn grow(&mut self)
        requires
            old(self).wf(),
            old(self).depth() < MAX_GLOBAL_DEPTH,
        ensures
            final(self).wf(),
            final(self).depth() == old(self).depth() + 1,
            final(self).entries().len() == 2 * old(self).entries().len(),
            forall|i: int|
                0 <= i < old(self).entries().len() ==> final(self).entries()[2 * i] == old(
                    self,
                ).entries()[i] && final(self).entries()[2 * i + 1] == old(self).entries()[i],
    {
        let ghost old_entries = self.table@;
        let n = self.table.len();
        proof {
            lemma_pow2_strictly_increases(self.global_depth as nat, 32);
            lemma2_to64();
            lemma_pow2_adds(self.global_depth as nat, 1);
        }
        let mut table: Vec<u32> = Vec::new();
        let mut i: usize = 0;
        while i < n
            invariant
                n == old_entries.len(),
                n <= 0x8000_0000,
                old_entries == self.table@,
                i <= n,
                table@.len() == 2 * i,
                forall|j: int|
                    0 <= j < i ==> table@[2 * j] == old_entries[j] && table@[2 * j + 1]
                        == old_entries[j],
            decreases n - i,
        {
            let e = self.table[i];
            table.push(e);
            table.push(e);
            i = i + 1;
        }
        self.table = table;
        self.global_depth = self.global_depth + 1;
    }

    /// Grows only when the splitting segment's depth has caught up with
    /// the directory; reports the resulting global depth either way.
    pub fn grow_if_eq(&mut self, local_depth: u8) -> (g: u8)
        requires
            old(self).wf(),
            local_depth >= old(self).depth() ==> old(self).depth() < MAX_GLOBAL_DEPTH,
        ensures
            final(self).wf(),
            g == final(self).depth(),
            old(self).depth() > local_depth ==> *final(self) == *old(self) && g == old(
                self,
            ).depth(),
            old(self).depth() <= local_depth ==> {
                &&& final(self).depth() == old(self).depth() + 1
                &&& final(self).entries().len() == 2 * old(self).entries().len()
                &&& forall|i: int|
                    0 <= i < old(self).entries().len() ==> final(self).entries()[2 * i] == old(
                        self,
                    ).entries()[i] && final(self).entries()[2 * i + 1] == old(self).entries()[i]
            },
    {
        if self.global_depth > local_depth {
            return self.global_depth;
        }
        self.grow();
        self.global_depth
    }
}

/// The serialized table: each entry as four little-endian bytes, in order.
pub open spec fn spec_table_bytes(s: Seq<u32>) -> Seq<u8>
    decreases s.len(),
{
    if s.len() == 0 {
        Seq::empty()
    } else {
        spec_u32_to_le_bytes(s[0]) + spec_table_bytes(s.drop_first())
    }
}

pub proof fn lemma_table_bytes_snoc(s: Seq<u32>, e: u32)
    ensures
        spec_table_bytes(s.push(e)) == spec_table_bytes(s) + spec_u32_to_le_bytes(e),
    decreases s.len(),
{
    vstd::bytes::lemma_auto_spec_u32_to_from_le_bytes();
    let t = s.push(e);
    if s.len() == 0 {
        assert(t[0] == e);
        assert(t.drop_first() =~= Seq::<u32>::empty());
        assert(spec_table_bytes(t.drop_first()) == Seq::<u8>::empty());
        assert(spec_table_bytes(t) == spec_u32_to_le_bytes(e) + Seq::<u8>::empty());
        assert(spec_table_bytes(t) =~= spec_table_bytes(s) + spec_u32_to_le_bytes(e));
    } else {
        assert(t[0] == s[0]);
        assert(t.drop_first() =~= s.drop_first().push(e));
        lemma_table_bytes_snoc(s.drop_first(), e);
        assert(spec_table_bytes(t) == spec_u32_to_le_bytes(s[0]) + (spec_table_bytes(s.drop_first())
            + spec_u32_to_le_bytes(e)));
        assert(spec_table_bytes(t) =~= spec_table_bytes(s) + spec_u32_to_le_bytes(e));
    }
}

pub proof fn lemma_table_bytes_len(s: Seq<u32>)
    ensures
        spec_table_bytes(s).len() == 4 * s.len(),
    decreases s.len(),
{
    vstd::bytes::lemma_auto_spec_u32_to_from_le_bytes();
    if s.len() > 0 {
        lemma_table_bytes_len(s.drop_first());
    }
}

/// The directory file image: the depth byte, then the table.
pub open spec fn spec_directory_bytes(depth: u8, entries: Seq<u32>) -> Seq<u8> {
    seq![depth] + spec_table_bytes(entries)
}

/// Why a directory image was rejected.
#[derive(Clone, Copy, Debug, PartialEq, Eq, Structural)]
pub enum DirectoryDecodeError {
    /// The image is empty, so there is no depth byte.
    Empty,
    /// The depth byte exceeds what this build can hold in memory.
    DepthTooLarge,
    /// The image length does not match `1 + 4 * 2^depth`.
    WrongLength,
}

impl Directory {
    /// Serializes the directory as its file image.
    pub fn to_bytes(&self) -> (buf: Vec<u8>)
        requires
            self.wf(),
        ensures
            buf@ == spec_directory_bytes(self.depth(), self.entries()),
            buf@.len() == 1 + 4 * self.entries().len(),
    {
        let ghost s = self.table@;
        let mut buf: Vec<u8> = Vec::new();
        buf.push(self.global_depth);
        let mut i: usize = 0;
        proof {
            lemma_table_bytes_len(s);
            assert(s.take(0) =~= Seq::<u32>::empty());
            assert(buf@ =~= seq![self.depth()] + spec_table_bytes(s.take(0)));
        }
        let n = self.table.len();
        while i < n
            invariant
                self.wf(),
                s == self.table@,
                n == s.len(),
                i <= n,
                buf@ == seq![self.depth()] + spec_table_bytes(s.take(i as int)),
                buf@.len() == 1 + 4 * i,
            decreases n - i,
        {
            proof {
                vstd::bytes::lemma_auto_spec_u32_to_from_le_bytes();
                lemma_table_bytes_snoc(s.take(i as int), s[i as int]);
                assert(s.take(i as int).push(s[i as int]) =~= s.take(i as int + 1));
                lemma_table_bytes_len(s.take(i as int));
            }
            let mut e = u32_to_le_bytes(self.table[i]);
            buf.append(&mut e);
            proof {
                assert(buf@ =~= seq![self.depth()] + spec_table_bytes(s.take(i as int + 1)));
            }
            i = i + 1;
        }
        proof {
            assert(s.take(n as int) =~= s);
        }
        buf
    }

    /// Reads a directory back from its file image; rejects a corrupt one
    /// and says why.
    pub fn from_bytes(buf: &[u8]) -> (r: Result<Directory, DirectoryDecodeError>)
        ensures
            match r {
                Ok(d) => {
                    &&& d.wf()
                    &&& buf@.len() >= 1
                    &&& d.depth() == buf@[0]
                    &&& buf@[0] <= MAX_GLOBAL_DEPTH
                    &&& buf@.len() == 1 + 4 * pow2(buf@[0] as nat)
                    &&& spec_directory_bytes(d.depth(), d.entries()) == buf@
                    &&& forall|i: int|
                        0 <= i < d.entries().len() ==> #[trigger] d.entries()[i]
                            == spec_u32_from_le_bytes(buf@.subrange(1 + 4 * i, 1 + 4 * i + 4))
                },
                Err(DirectoryDecodeError::Empty) => buf@.len() == 0,
                Err(DirectoryDecodeError::DepthTooLarge) => buf@.len() >= 1 && buf@[0]
                    > MAX_GLOBAL_DEPTH,
                Err(DirectoryDecodeError::WrongLength) => buf@.len() >= 1 && buf@[0]
                    <= MAX_GLOBAL_DEPTH && buf@.len() != 1 + 4 * pow2(buf@[0] as nat),
            },
    {
        if buf.len() == 0 {
            return Err(DirectoryDecodeError::Empty);
        }
        let depth = *vstd::slice::slice_index_get(buf, 0);
        if depth > MAX_GLOBAL_DEPTH {
            return Err(DirectoryDecodeError::DepthTooLarge);
        }
        proof {
            lemma_pow2_strictly_increases(depth as nat, 32);
            lemma2_to64();
        }
        let n32: u32 = 1u32 << (depth as u32);
        proof {
            vstd::bits::lemma_u32_shl_is_mul(1u32, depth as u32);
        }
        let n: usize = n32 as usize;
        let body = buf.len() - 1;
        if body % 4 != 0 || body / 4 != n {
            proof {
                vstd::arithmetic::div_mod::lemma_fundamental_div_mod(buf@.len() as int - 1, 4);
                if buf@.len() == 1 + 4 * pow2(depth as nat) {
                    assert(body as int == 4 * n);
                    vstd::arithmetic::div_mod::lemma_fundamental_div_mod_converse(
                        body as int,
                        4,
                        n as int,
                        0,
                    );
                }
            }
            return Err(DirectoryDecodeError::WrongLength);
        }
        proof {
            vstd::arithmetic::div_mod::lemma_fundamental_div_mod(buf@.len() as int - 1, 4);
            assert(buf@.len() == 1 + 4 * n);
        }
        let mut table: Vec<u32> = Vec::new();
        let mut i: usize = 0;
        proof {
            assert(table@.take(0) =~= Seq::<u32>::empty());
        }
        while i < n
            invariant
                buf@.len() == 1 + 4 * n,
                1 + 4 * n <= usize::MAX,
                i <= n,
                table@.len() == i,
                spec_table_bytes(table@) == buf@.subrange(1, 1 + 4 * i),
                forall|j: int|
                    0 <= j < i ==> #[trigger] table@[j] == spec_u32_from_le_bytes(
                        buf@.subrange(1 + 4 * j, 1 + 4 * j + 4),
                    ),
            decreases n - i,
        {
            let slice = vstd::slice::slice_subrange(buf, 1 + 4 * i, 1 + 4 * i + 4);
            let e = u32_from_le_bytes(slice);
            proof {
                vstd::bytes::lemma_auto_spec_u32_to_from_le_bytes();
                lemma_table_bytes_snoc(table@, e);
                assert(spec_u32_to_le_bytes(e) =~= buf@.subrange(
                    1 + 4 * i as int,
                    1 + 4 * i as int + 4,
                ));
                assert(buf@.subrange(1, 1 + 4 * i as int) + buf@.subrange(
                    1 + 4 * i as int,
                    1 + 4 * i as int + 4,
                ) =~= buf@.subrange(1, 1 + 4 * (i as int + 1)));
            }
            table.push(e);
            i = i + 1;
        }
        let d = Directory { global_depth: depth, table };
        proof {
            assert(seq![depth] + spec_table_bytes(d.entries()) =~= buf@) by {
                assert(buf@.subrange(1, 1 + 4 * n as int) =~= buf@.drop_first());
                assert(seq![depth] + buf@.drop_first() =~= buf@);
            }
        }
        Ok(d)
    }
}

} // verus!
