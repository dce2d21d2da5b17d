//! The occupancy bitmap: a byte region read as one bit per allocatable unit,
//! with bit-level query/update and a first-fit contiguous-run search.

use vstd::prelude::*;

verus! {

use crate::bitops::{lemma_byte_bit_read, lemma_zero_byte, lemma_set_bit, lemma_clear_bit};
use crate::occupancy::{
    bits_of, free_run, has_fit, is_first_fit, mark_range, occupied_at, range_occupied,
};
use crate::{AllocError, AllocResult};
use vstd::arithmetic::div_mod::{lemma_fundamental_div_mod, lemma_mod_division_less_than_divisor};

/// How much `grow_capacity` adds: nothing when the request exceeds the
/// physical ceiling or does not exceed the current logical capacity.
pub open spec fn grow_amount(phys: int, cur: int, requested: int) -> int {
    if requested > phys || requested <= cur {
        0
    } else {
        requested - cur
    }
}

/// A bit-per-unit occupancy table over an owned byte store.
///
/// `bit_count` bits are in active use (the logical capacity); the store could
/// track up to `storage.len() * 8` bits (the physical ceiling).  Bit `i`
/// lives in byte `i / 8` at offset `i % 8`; a set bit marks the unit
/// occupied.
pub struct Bitmap {
    bitmap_addr: usize,
    storage: Vec<u8>,
    bit_count: usize,
}

impl Bitmap {
    /// Base address of the byte region this table stands for.
    pub closed spec fn base_addr(&self) -> int {
        self.bitmap_addr as int
    }

    /// Number of bytes backing the table.
    pub closed spec fn storage_size(&self) -> int {
        self.storage@.len() as int
    }

    /// The physical ceiling: the most bits the backing bytes could track.
    pub closed spec fn phys_bits(&self) -> int {
        self.storage@.len() * 8int
    }

    /// The logical capacity: bits currently in active use.
    pub closed spec fn logical_bits(&self) -> int {
        self.bit_count as int
    }

    /// The occupancy of every physical bit.
    pub closed spec fn occ(&self) -> Seq<bool> {
        bits_of(self.storage@)
    }

    /// The logical capacity never exceeds the physical ceiling, and the
    /// ceiling itself is a representable count.
    pub closed spec fn wf(&self) -> bool {
        &&& self.bit_count <= self.storage@.len() * 8
        &&& self.storage@.len() * 8 <= usize::MAX
    }

    /// The shape of the table: eight bits per backing byte, the occupancy
    /// sequence covering exactly the physical bits, and (for a well-formed
    /// table) the logical capacity within the ceiling.
    pub proof fn lemma_shape(&self)
        ensures
            self.phys_bits() == self.storage_size() * 8,
            self.occ().len() == self.phys_bits(),
            self.wf() ==> self.logical_bits() <= self.phys_bits(),
            self.wf() ==> self.phys_bits() <= usize::MAX,
            self.logical_bits() >= 0,
            self.storage_size() >= 0,
    {
    }

    /// Bit `bit` reads as free: it lies beyond the logical range (the
    /// boundary check is strict, so index `logical_bits` itself is still
    /// read), beyond the backing bytes, or its stored bit is clear.
    pub open spec fn free_at(&self, i: int) -> bool {
        ||| i > self.logical_bits()
        ||| i >= self.phys_bits()
        ||| !self.occ()[i]
    }

    /// Bit `i` is reachable by an update: in the (boundary-inclusive)
    /// logical range and inside the backing bytes.
    pub open spec fn bit_writable(&self, i: int) -> bool {
        i <= self.logical_bits() && i < self.phys_bits()
    }

    /// Creates a table over `size` fresh zero bytes at `addr`, tracking
    /// `count` bits.  Rejected when the requested logical capacity cannot
    /// fit in the physical backing bytes.
    pub fn new(addr: usize, size: usize, count: usize) -> (r: AllocResult<Bitmap>)
        requires
            size * 8 <= usize::MAX,
        ensures
            r is Ok <==> count <= size * 8,
            r is Err ==> r->Err_0 == AllocError::InvalidParam,
            r is Ok ==> (r->Ok_0).wf(),
            r is Ok ==> (r->Ok_0).base_addr() == addr,
            r is Ok ==> (r->Ok_0).storage_size() == size,
            r is Ok ==> (r->Ok_0).logical_bits() == count,
            r is Ok ==> forall|i: int|
                0 <= i < (r->Ok_0).phys_bits() ==> !(r->Ok_0).occ()[i],
    {
        if count > size * 8 {
            Err(AllocError::InvalidParam)
        } else {
            let storage = zeroed_bytes(size);
            let bm = Bitmap { bitmap_addr: addr, storage, bit_count: count };
            proof {
                assert forall|i: int| 0 <= i < bm.phys_bits() implies !bm.occ()[i] by {
                    lemma_zero_byte((i % 8) as u8);
                }
            }
            Ok(bm)
        }
    }

    /// True when bit `bit` is free, by the table's boundary convention.
    pub fn check_free(&self, bit: usize) -> (r: bool)
        requires
            self.wf(),
        ensures
            r == self.free_at(bit as int),
    {
        if bit > self.bit_count {
            return true;
        }
        let byte_idx = bit / 8;
        if byte_idx >= self.storage.len() {
            proof {
                lemma_fundamental_div_mod(bit as int, 8);
            }
            return true;
        }
        let off = (bit % 8) as u8;
        let b = self.storage[byte_idx];
        proof {
            lemma_fundamental_div_mod(bit as int, 8);
            lemma_mod_division_less_than_divisor(bit as int, 8);
            lemma_byte_bit_read(b, off);
        }
        ((b >> off) & 1u8) == 0
    }

    /// Writes bit `bit` (set or clear); bits outside the writable range are
    /// silently ignored.
    fn set_bit(&mut self, bit: usize, set: bool)
        requires
            old(self).wf(),
        ensures
            final(self).wf(),
            final(self).base_addr() == old(self).base_addr(),
            final(self).storage_size() == old(self).storage_size(),
            final(self).logical_bits() == old(self).logical_bits(),
            forall|i: int|
                0 <= i < final(self).phys_bits() ==> (#[trigger] final(self).occ()[i]) == (if i
                    == bit && old(self).bit_writable(bit as int) {
                    set
                } else {
                    old(self).occ()[i]
                }),
    {
        if bit > self.bit_count {
            return ;
        }
        let byte_idx = bit / 8;
        if byte_idx >= self.storage.len() {
            proof {
                lemma_fundamental_div_mod(bit as int, 8);
            }
            return ;
        }
        let off = (bit % 8) as u8;
        let b = self.storage[byte_idx];
        let nb = if set {
            b | (1u8 << off)
        } else {
            b & !(1u8 << off)
        };
        self.storage.set(byte_idx, nb);
        proof {
            lemma_fundamental_div_mod(bit as int, 8);
            lemma_mod_division_less_than_divisor(bit as int, 8);
            assert forall|i: int|
                0 <= i < final(self).phys_bits() implies (#[trigger] final(self).occ()[i]) == (if i
                == bit {
                set
            } else {
                old(self).occ()[i]
            }) by {
                lemma_fundamental_div_mod(i, 8);
                lemma_mod_division_less_than_divisor(i, 8);
                let k = (i % 8) as u8;
                if i / 8 == byte_idx {
                    if set {
                        lemma_set_bit(b, off, k);
                    } else {
                        lemma_clear_bit(b, off, k);
                    }
                }
            }
        }
    }

    /// Marks every bit of `[start, end)` occupied or free; bits outside the
    /// writable range are silently ignored.
    pub fn set_bits(&mut self, start: usize, end: usize, set: bool)
        requires
            old(self).wf(),
        ensures
            final(self).wf(),
            final(self).base_addr() == old(self).base_addr(),
            final(self).storage_size() == old(self).storage_size(),
            final(self).logical_bits() == old(self).logical_bits(),
            forall|i: int|
                0 <= i < final(self).phys_bits() ==> (#[trigger] final(self).occ()[i]) == (if start
                    <= i < end && old(self).bit_writable(i) {
                    set
                } else {
                    old(self).occ()[i]
                }),
    {
        let mut cur = start;
        while cur < end
            invariant
                self.wf(),
                start <= cur,
                cur <= end || cur == start,
                self.base_addr() == old(self).base_addr(),
                self.storage_size() == old(self).storage_size(),
                self.logical_bits() == old(self).logical_bits(),
                forall|i: int|
                    0 <= i < self.phys_bits() ==> (#[trigger] self.occ()[i]) == (if start <= i
                        < cur && old(self).bit_writable(i) {
                        set
                    } else {
                        old(self).occ()[i]
                    }),
            decreases end - cur,
        {
            self.set_bit(cur, set);
            proof {
                assert forall|i: int|
                    0 <= i < self.phys_bits() implies (#[trigger] self.occ()[i]) == (if start <= i
                    < cur + 1 && old(self).bit_writable(i) {
                    set
                } else {
                    old(self).occ()[i]
                }) by {}
            }
            cur = cur + 1;
        }
    }

    /// First-fit search: finds the first run of `alloc_cnt` consecutive free
    /// bits inside the logical range, marks it occupied, and returns its
    /// starting index; fails with `NoMemory` when no such run exists.
    pub fn alloc_contiguous(&mut self, alloc_cnt: usize) -> (r: AllocResult<usize>)
        requires
            old(self).wf(),
        ensures
            final(self).wf(),
            final(self).base_addr() == old(self).base_addr(),
            final(self).storage_size() == old(self).storage_size(),
            final(self).logical_bits() == old(self).logical_bits(),
            r is Ok <==> has_fit(old(self).occ(), old(self).logical_bits(), alloc_cnt as int),
            r is Ok ==> is_first_fit(
                old(self).occ(),
                old(self).logical_bits(),
                r->Ok_0 as int,
                alloc_cnt as int,
            ),
            r is Ok ==> r->Ok_0 + alloc_cnt <= old(self).logical_bits(),
            r is Ok ==> forall|i: int|
                0 <= i < final(self).phys_bits() ==> (#[trigger] final(self).occ()[i]) == (old(
                    self,
                ).occ()[i] || r->Ok_0 <= i < r->Ok_0 + alloc_cnt),
            r is Ok ==> final(self).occ() == mark_range(
                old(self).occ(),
                r->Ok_0 as int,
                alloc_cnt as int,
                true,
            ),
            r is Err ==> r->Err_0 == AllocError::NoMemory,
            r is Err ==> final(self).occ() == old(self).occ(),
    {
        if alloc_cnt == 0 {
            proof {
                assert(free_run(self.occ(), self.logical_bits(), 0, 0));
                assert(self.occ() =~= mark_range(self.occ(), 0, 0, true));
            }
            return Ok(0);
        }
        let mut idx: usize = 0;
        let mut run: usize = 0;
        while idx < self.bit_count
            invariant
                self.wf(),
                alloc_cnt >= 1,
                run < alloc_cnt,
                run <= idx,
                idx <= self.logical_bits(),
                self.base_addr() == old(self).base_addr(),
                self.storage_size() == old(self).storage_size(),
                self.logical_bits() == old(self).logical_bits(),
                self.occ() == old(self).occ(),
                forall|i: int| idx - run <= i < idx ==> !self.occ()[i],
                forall|t: int|
                    0 <= t < idx - run ==> !free_run(
                        self.occ(),
                        self.logical_bits(),
                        t,
                        alloc_cnt as int,
                    ),
            decreases self.logical_bits() - idx,
        {
            if self.check_free(idx) {
                run = run + 1;
                idx = idx + 1;
                if run == alloc_cnt {
                    let s = idx - alloc_cnt;
                    proof {
                        assert(is_first_fit(
                            self.occ(),
                            self.logical_bits(),
                            s as int,
                            alloc_cnt as int,
                        ));
                    }
                    self.set_bits(s, idx, true);
                    proof {
                        assert forall|i: int|
                            0 <= i < self.phys_bits() implies (#[trigger] self.occ()[i]) == (old(
                            self,
                        ).occ()[i] || s <= i < s + alloc_cnt) by {}
                        assert(self.occ() =~= mark_range(
                            old(self).occ(),
                            s as int,
                            alloc_cnt as int,
                            true,
                        ));
                    }
                    return Ok(s);
                }
            } else {
                proof {
                    let occ = self.occ();
                    let logical = self.logical_bits();
                    let n = alloc_cnt as int;
                    assert forall|t: int| 0 <= t < idx + 1 - 0 implies !free_run(
                        occ,
                        logical,
                        t,
                        n,
                    ) by {
                        if t >= idx - run {
                            assert(t <= idx < t + n);
                            assert(occ[idx as int]);
                        }
                    }
                }
                run = 0;
                idx = idx + 1;
            }
        }
        proof {
            let occ = self.occ();
            let logical = self.logical_bits();
            let n = alloc_cnt as int;
            assert forall|t: int| !free_run(occ, logical, t, n) by {
                if 0 <= t && t >= idx - run {
                    assert(t + n > logical);
                }
            }
            assert(!has_fit(occ, logical, n));
        }
        Err(AllocError::NoMemory)
    }

    /// Every bit of `[start, start + size)` is currently occupied.
    fn all_occupied(&self, start: usize, size: usize) -> (r: bool)
        requires
            self.wf(),
            start + size <= usize::MAX,
        ensures
            r == range_occupied(self.occ(), self.logical_bits(), start as int, size as int),
    {
        let last = start + size;
        let mut cur = start;
        while cur < last
            invariant
                self.wf(),
                last == start + size,
                start <= cur <= last,
                forall|i: int|
                    start <= i < cur ==> #[trigger] occupied_at(
                        self.occ(),
                        self.logical_bits(),
                        i,
                    ),
            decreases last - cur,
        {
            if self.check_free(cur) {
                proof {
                    assert(!occupied_at(self.occ(), self.logical_bits(), cur as int));
                    assert(!range_occupied(
                        self.occ(),
                        self.logical_bits(),
                        start as int,
                        size as int,
                    )) by {
                        if range_occupied(
                            self.occ(),
                            self.logical_bits(),
                            start as int,
                            size as int,
                        ) {
                            assert(occupied_at(self.occ(), self.logical_bits(), cur as int));
                        }
                    }
                }
                return false;
            }
            proof {
                assert(occupied_at(self.occ(), self.logical_bits(), cur as int));
            }
            cur = cur + 1;
        }
        proof {
            assert forall|i: int|
                start <= i < start + size implies #[trigger] occupied_at(
                self.occ(),
                self.logical_bits(),
                i,
            ) by {
                assert(start <= i < cur);
            }
            assert(range_occupied(self.occ(), self.logical_bits(), start as int, size as int));
        }
        true
    }

    /// Releases the bits of `[start, start + size)`: rejected with
    /// `MemoryOverlap`, and nothing changed, unless every bit of the range is
    /// currently occupied; on success clears exactly that range.
    pub fn dealloc(&mut self, start: usize, size: usize) -> (r: AllocResult)
        requires
            old(self).wf(),
            start + size <= usize::MAX,
        ensures
            final(self).wf(),
            final(self).base_addr() == old(self).base_addr(),
            final(self).storage_size() == old(self).storage_size(),
            final(self).logical_bits() == old(self).logical_bits(),
            r is Ok <==> range_occupied(
                old(self).occ(),
                old(self).logical_bits(),
                start as int,
                size as int,
            ),
            r is Ok ==> forall|i: int|
                0 <= i < final(self).phys_bits() ==> (#[trigger] final(self).occ()[i]) == (old(
                    self,
                ).occ()[i] && !(start <= i < start + size)),
            r is Ok ==> final(self).occ() == mark_range(
                old(self).occ(),
                start as int,
                size as int,
                false,
            ),
            r is Err ==> r->Err_0 == AllocError::MemoryOverlap,
            r is Err ==> final(self).occ() == old(self).occ(),
    {
        if !self.all_occupied(start, size) {
            return Err(AllocError::MemoryOverlap);
        }
        self.set_bits(start, start + size, false);
        proof {
            assert forall|i: int|
                0 <= i < self.phys_bits() implies (#[trigger] self.occ()[i]) == (old(self).occ()[i]
                && !(start <= i < start + size)) by {
                if start <= i < start + size {
                    assert(occupied_at(old(self).occ(), old(self).logical_bits(), i));
                }
            }
            assert(self.occ() =~= mark_range(old(self).occ(), start as int, size as int, false));
        }
        Ok(())
    }

    /// Raises the logical capacity in place to `new_bits`, returning how many
    /// bits were added: zero when the request exceeds the physical ceiling or
    /// does not exceed the current capacity.
    pub fn grow_capacity(&mut self, new_bits: usize) -> (added: usize)
        requires
            old(self).wf(),
        ensures
            final(self).wf(),
            final(self).base_addr() == old(self).base_addr(),
            final(self).storage_size() == old(self).storage_size(),
            final(self).occ() == old(self).occ(),
            added == grow_amount(old(self).phys_bits(), old(self).logical_bits(), new_bits as int),
            final(self).logical_bits() == old(self).logical_bits() + added,
    {
        let total_bits = self.storage.len() * 8;
        let old_count = self.bit_count;
        if total_bits < new_bits || old_count >= new_bits {
            return 0;
        }
        self.bit_count = new_bits;
        new_bits - old_count
    }
}

/// A bitmap whose stored bits are all clear reports every tracked bit free.
pub proof fn lemma_fresh_bitmap_reads_free(b: Bitmap, i: int)
    requires
        b.wf(),
        forall|j: int| 0 <= j < b.phys_bits() ==> !(#[trigger] b.occ()[j]),
        0 <= i < b.logical_bits(),
    ensures
        b.free_at(i),
{
    b.lemma_shape();
    assert(!b.occ()[i]);
}

/// Capacity growth is monotone: a request either adds nothing or strictly
/// raises the logical capacity, and at the physical ceiling nothing is ever
/// added.
pub proof fn lemma_grow_monotone(phys: int, cur: int, requested: int)
    requires
        0 <= cur <= phys,
    ensures
        grow_amount(phys, cur, requested) >= 0,
        cur + grow_amount(phys, cur, requested) >= cur,
        grow_amount(phys, cur, requested) != 0 ==> cur + grow_amount(phys, cur, requested) > cur,
        cur == phys ==> grow_amount(phys, cur, requested) == 0,
{
}

impl Clone for Bitmap {
    /// An independent copy of the table, backed by its own storage bytes.
    fn clone(&self) -> Self {
        Bitmap { bitmap_addr: self.bitmap_addr, storage: self.storage.clone(), bit_count: self.bit_count }
    }
}

/// A vector of `n` zero bytes.
fn zeroed_bytes(n: usize) -> (v: Vec<u8>)
    ensures
        v@.len() == n,
        forall|i: int| 0 <= i < n ==> v@[i] == 0u8,
{
    let mut v: Vec<u8> = Vec::new();
    let mut k: usize = 0;
    while k < n
        invariant
            k <= n,
            v@.len() == k,
            forall|i: int| 0 <= i < k ==> v@[i] == 0u8,
        decreases n - k,
    {
        v.push(0u8);
        k = k + 1;
    }
    v
}

} // verus!
