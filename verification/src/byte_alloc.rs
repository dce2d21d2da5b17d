//! The byte allocator: a managed region split into a bitmap prefix and a
//! data suffix, serving unit-granular byte allocations.
//!
//! The allocator owns one [`Bitmap`] tracking a bit per 32-byte unit of the
//! data suffix.  Requests are rounded up to whole units, satisfied by a
//! first-fit search, and translated between unit indices and byte addresses
//! here and nowhere else.

use vstd::prelude::*;

verus! {

use crate::arith::{div_round_up, is_pow2, lemma_div_round_up_bounds, spec_div_round_up};
use crate::bitmap::Bitmap;
use crate::occupancy::{
    count_free, free_run, has_fit, is_first_fit, lemma_count_free_after_clear,
    lemma_count_free_after_set, lemma_count_free_all_free, lemma_count_free_bounds,
    lemma_count_free_free_segment, lemma_free_run_le_count, occupied_at, range_occupied,
};
use crate::{AllocError, AllocResult};
use vstd::arithmetic::div_mod::{
    lemma_fundamental_div_mod, lemma_mod_division_less_than_divisor, lemma_mod_multiples_basic,
};
use vstd::arithmetic::mul::lemma_mul_is_commutative;
use vstd::arithmetic::power2::{pow2, lemma2_to64};

/// Fixed allocation granularity in bytes.
pub const UNIT_SIZE: usize = 32;

/// Bytes of the managed region reserved for bitmap storage.
pub const MIN_BITMAP_COUNT: usize = 4096 * 6;

/// Units a request of `size` bytes occupies: `size` rounded up to whole
/// units.
pub open spec fn units_for(size: int) -> int {
    spec_div_round_up(size, UNIT_SIZE as int)
}

/// Units of an initial region of `size` bytes: what remains after the bitmap
/// prefix, in whole units.
pub open spec fn init_units(size: int) -> int {
    (size - MIN_BITMAP_COUNT) / (UNIT_SIZE as int)
}

/// An initial region of `size` bytes activates the allocator: it exceeds the
/// bitmap prefix and its unit count fits under the bitmap's physical ceiling.
pub open spec fn init_activates(size: int) -> bool {
    size > MIN_BITMAP_COUNT && init_units(size) <= (MIN_BITMAP_COUNT as int) * 8
}

/// Units of the region after growth by `add` bytes.
pub open spec fn grown_units(total: int, add: int) -> int {
    (total + add - MIN_BITMAP_COUNT) / (UNIT_SIZE as int)
}

/// The unit granularity is a power of two.
proof fn lemma_unit_size_pow2()
    ensures
        is_pow2(UNIT_SIZE),
{
    lemma2_to64();
    assert(UNIT_SIZE == pow2(5));
    assert(5nat < usize::BITS);
}

/// A fixed-granularity first-fit byte allocator over a caller-provided
/// region.
///
/// The region starts at `bitmap_addr`: its first `MIN_BITMAP_COUNT` bytes
/// are reserved for occupancy bits, the rest (starting at `data_addr`) is
/// carved into `slot_count` units of `UNIT_SIZE` bytes.
pub struct SimpleByteAllocator {
    slot_count: usize,
    free_unit: usize,
    real_size: usize,
    bitmap_addr: usize,
    data_addr: usize,
    bitmap: Option<Bitmap>,
}

impl SimpleByteAllocator {
    /// The allocator has been initialized with a usable region.
    pub closed spec fn active(&self) -> bool {
        self.bitmap is Some
    }

    /// Number of allocatable units in the data region.
    pub closed spec fn units(&self) -> int {
        self.slot_count as int
    }

    /// Count of currently unoccupied units.
    pub closed spec fn free_units(&self) -> int {
        self.free_unit as int
    }

    /// Total bytes of the managed region.
    pub closed spec fn total(&self) -> int {
        self.real_size as int
    }

    /// Start address of the managed region (and of its bitmap prefix).
    pub closed spec fn base(&self) -> int {
        self.bitmap_addr as int
    }

    /// Start address of the data suffix.
    pub closed spec fn data_base(&self) -> int {
        self.data_addr as int
    }

    /// Per-unit occupancy, as the bitmap tracks it.
    pub closed spec fn occ(&self) -> Seq<bool> {
        if self.bitmap is Some {
            self.bitmap.unwrap().occ()
        } else {
            Seq::empty()
        }
    }

    /// Internal consistency: the counters, the addresses and the bitmap
    /// agree.  In particular `free_unit` counts exactly the clear bits among
    /// the `slot_count` tracked ones, and every bit past `slot_count` is
    /// clear.
    pub closed spec fn wf(&self) -> bool {
        match self.bitmap {
            Option::None => {
                &&& self.slot_count == 0
                &&& self.free_unit == 0
                &&& self.bitmap_addr == 0
                &&& self.data_addr == 0
            },
            Option::Some(b) => {
                &&& b.wf()
                &&& b.logical_bits() == self.slot_count as int
                &&& b.storage_size() == MIN_BITMAP_COUNT as int
                &&& b.base_addr() == self.bitmap_addr as int
                &&& self.data_addr == self.bitmap_addr + MIN_BITMAP_COUNT
                &&& MIN_BITMAP_COUNT < self.real_size
                &&& self.slot_count * UNIT_SIZE <= self.real_size - MIN_BITMAP_COUNT
                &&& self.bitmap_addr + self.real_size <= usize::MAX
                &&& self.free_unit as int == count_free(b.occ(), self.slot_count as int)
                &&& forall|i: int|
                    self.slot_count <= i < b.phys_bits() ==> !(#[trigger] b.occ()[i])
            },
        }
    }

    /// A fresh allocator: no region, no units.
    pub fn new() -> (r: Self)
        ensures
            r.wf(),
            !r.active(),
            r.total() == 0,
            r.units() == 0,
            r.free_units() == 0,
    {
        SimpleByteAllocator {
            slot_count: 0,
            free_unit: 0,
            real_size: 0,
            bitmap_addr: 0,
            data_addr: 0,
            bitmap: Option::None,
        }
    }

    /// One-time setup over the region `[start, start + size)`.  The total is
    /// recorded unconditionally; the allocator becomes active only when the
    /// region exceeds the bitmap prefix and the resulting unit count fits the
    /// bitmap, and then starts with every unit free.
    pub fn init(&mut self, start: usize, size: usize)
        requires
            old(self).wf(),
            !old(self).active(),
            start + size <= usize::MAX,
        ensures
            final(self).wf(),
            final(self).total() == size,
            final(self).active() <==> init_activates(size as int),
            init_activates(size as int) ==> final(self).units() == init_units(size as int),
            init_activates(size as int) ==> final(self).free_units() == init_units(size as int),
            init_activates(size as int) ==> final(self).base() == start,
            init_activates(size as int) ==> final(self).data_base() == start + MIN_BITMAP_COUNT,
            init_activates(size as int) ==> forall|i: int|
                0 <= i < final(self).occ().len() ==> !(#[trigger] final(self).occ()[i]),
            !init_activates(size as int) ==> !final(self).active() && final(self).units() == 0
                && final(self).free_units() == 0,
    {
        self.real_size = size;
        if size <= MIN_BITMAP_COUNT {
            return ;
        }
        let bitmap_bytes = MIN_BITMAP_COUNT;
        let slot_count = (size - bitmap_bytes) / UNIT_SIZE;
        match Bitmap::new(start, bitmap_bytes, slot_count) {
            Ok(bitmap) => {
                proof {
                    bitmap.lemma_shape();
                    lemma_fundamental_div_mod(size - MIN_BITMAP_COUNT, UNIT_SIZE as int);
                    lemma_mod_division_less_than_divisor(
                        size - MIN_BITMAP_COUNT,
                        UNIT_SIZE as int,
                    );
                    lemma_mul_is_commutative(slot_count as int, UNIT_SIZE as int);
                    assert forall|i: int| 0 <= i < slot_count as int implies !(
                    #[trigger] bitmap.occ()[i]) by {}
                    lemma_count_free_all_free(bitmap.occ(), slot_count as int);
                }
                self.slot_count = slot_count;
                self.free_unit = slot_count;
                self.real_size = size;
                self.bitmap_addr = start;
                self.data_addr = start + bitmap_bytes;
                self.bitmap = Option::Some(bitmap);
            },
            Err(_) => {},
        }
    }

    /// The growth request is accepted: the allocator is active, the new
    /// region is exactly contiguous with the managed region's end (measured
    /// from the bitmap base), and the enlarged region's unit count strictly
    /// grows without passing the bitmap's physical ceiling.
    pub open spec fn can_extend(&self, start: int, size: int) -> bool {
        &&& self.active()
        &&& start == self.base() + self.total()
        &&& self.units() < grown_units(self.total(), size)
        &&& grown_units(self.total(), size) <= (MIN_BITMAP_COUNT as int) * 8
    }

    /// Grows the managed region by `[start, start + size)` when that region
    /// is contiguous with the current one; the new units are free.  Rejected
    /// with `InvalidParam` otherwise, leaving everything unchanged.
    pub fn add_memory(&mut self, start: usize, size: usize) -> (r: AllocResult)
        requires
            old(self).wf(),
            start + size <= usize::MAX,
        ensures
            final(self).wf(),
            r is Ok <==> old(self).can_extend(start as int, size as int),
            final(self).active() == old(self).active(),
            final(self).base() == old(self).base(),
            final(self).data_base() == old(self).data_base(),
            final(self).occ() == old(self).occ(),
            r is Err ==> r->Err_0 == AllocError::InvalidParam,
            r is Err ==> final(self).total() == old(self).total() && final(self).units() == old(
                self,
            ).units() && final(self).free_units() == old(self).free_units(),
            r is Ok ==> final(self).total() == old(self).total() + size,
            r is Ok ==> final(self).units() == grown_units(old(self).total(), size as int),
            r is Ok ==> final(self).free_units() == old(self).free_units() + (final(self).units()
                - old(self).units()),
    {
        if self.bitmap.is_some() {
            if start == self.bitmap_addr + self.real_size {
                let new_slots = (self.real_size - MIN_BITMAP_COUNT + size) / UNIT_SIZE;
                proof {
                    old(self).bitmap.unwrap().lemma_shape();
                }
                let b = self.bitmap.as_mut().unwrap();
                let added = b.grow_capacity(new_slots);
                proof {
                    self.bitmap.unwrap().lemma_shape();
                }
                if added == 0 {
                    proof {
                        assert(!old(self).can_extend(start as int, size as int));
                    }
                    return Err(AllocError::InvalidParam);
                }
                proof {
                    let occ = self.bitmap.unwrap().occ();
                    let slots0 = old(self).units();
                    assert forall|i: int| slots0 <= i < new_slots as int implies !(
                    #[trigger] occ[i]) by {}
                    lemma_count_free_free_segment(occ, slots0, new_slots as int);
                    lemma_count_free_bounds(occ, new_slots as int);
                }
                self.real_size = self.real_size + size;
                self.free_unit = self.free_unit + added;
                self.slot_count = new_slots;
                proof {
                    lemma_fundamental_div_mod(
                        old(self).total() + size - MIN_BITMAP_COUNT,
                        UNIT_SIZE as int,
                    );
                    lemma_mod_division_less_than_divisor(
                        old(self).total() + size - MIN_BITMAP_COUNT,
                        UNIT_SIZE as int,
                    );
                    lemma_mul_is_commutative(new_slots as int, UNIT_SIZE as int);
                }
                return Ok(());
            }
        }
        Err(AllocError::InvalidParam)
    }

    /// Allocates `size` bytes (at least one unit's worth per request is
    /// reserved in whole units); the alignment argument is accepted for
    /// interface compatibility and does not change the unit count.  Returns
    /// the first-fit data address, or `NoMemory` when no run of enough free
    /// units exists.
    #[allow(unused_variables)]
    pub fn alloc_bytes(&mut self, size: usize, align: usize) -> (r: AllocResult<usize>)
        requires
            old(self).wf(),
        ensures
            final(self).wf(),
            final(self).active() == old(self).active(),
            final(self).total() == old(self).total(),
            final(self).units() == old(self).units(),
            final(self).base() == old(self).base(),
            final(self).data_base() == old(self).data_base(),
            r is Ok <==> old(self).active() && has_fit(
                old(self).occ(),
                old(self).units(),
                units_for(size as int),
            ),
            r is Err ==> r->Err_0 == AllocError::NoMemory,
            r is Err ==> final(self).free_units() == old(self).free_units(),
            r is Err ==> final(self).occ() == old(self).occ(),
            r is Ok ==> (exists|s: int|
                {
                    &&& is_first_fit(old(self).occ(), old(self).units(), s, units_for(size as int))
                    &&& r->Ok_0 == old(self).data_base() + s * UNIT_SIZE
                    &&& (forall|i: int|
                        0 <= i < final(self).occ().len() ==> (#[trigger] final(self).occ()[i]) == (
                        old(self).occ()[i] || s <= i < s + units_for(size as int)))
                }),
            r is Ok ==> final(self).free_units() == old(self).free_units() - units_for(
                size as int,
            ),
            r is Ok ==> r->Ok_0 != 0,
            r is Ok ==> old(self).data_base() <= r->Ok_0,
            r is Ok ==> r->Ok_0 + units_for(size as int) * UNIT_SIZE <= old(self).data_base()
                + old(self).units() * UNIT_SIZE,
            r is Ok ==> (r->Ok_0 - old(self).data_base()) % (UNIT_SIZE as int) == 0,
    {
        if size > usize::MAX - (UNIT_SIZE - 1) {
            proof {
                let n = units_for(size as int);
                lemma_div_round_up_bounds(size as int, UNIT_SIZE as int);
                if old(self).active() {
                    assert(!has_fit(old(self).occ(), old(self).units(), n)) by {
                        if has_fit(old(self).occ(), old(self).units(), n) {
                            let s = choose|s: int|
                                free_run(old(self).occ(), old(self).units(), s, n);
                            assert(s + n <= old(self).units());
                        }
                    }
                }
            }
            return Err(AllocError::NoMemory);
        }
        proof {
            lemma_unit_size_pow2();
        }
        let request_slots = div_round_up(size, UNIT_SIZE);
        match &mut self.bitmap {
            Option::None => Err(AllocError::NoMemory),
            Option::Some(b) => {
                match b.alloc_contiguous(request_slots) {
                    Ok(start_slot) => {
                        proof {
                            let occ0 = old(self).occ();
                            let occ1 = self.bitmap.unwrap().occ();
                            let slots = old(self).units();
                            let s = start_slot as int;
                            let n = request_slots as int;
                            old(self).bitmap.unwrap().lemma_shape();
                            self.bitmap.unwrap().lemma_shape();
                            lemma_free_run_le_count(occ0, s, n, slots);
                            assert forall|i: int|
                                0 <= i < slots && !(s <= i < s + n) implies occ0[i] == occ1[i] by {
                                assert(occ1[i] == (occ0[i] || s <= i < s + n));
                            }
                            assert forall|i: int| s <= i < s + n implies !occ0[i] && occ1[i] by {
                                assert(occ1[i] == (occ0[i] || s <= i < s + n));
                            }
                            lemma_count_free_after_set(occ0, occ1, slots, s, n);
                            assert forall|i: int|
                                self.slot_count <= i < self.bitmap.unwrap().phys_bits() implies !(
                            #[trigger] occ1[i]) by {
                                assert(occ1[i] == (occ0[i] || s <= i < s + n));
                            }
                        }
                        self.free_unit = self.free_unit - request_slots;
                        proof {
                            lemma_mul_is_commutative(start_slot as int, UNIT_SIZE as int);
                            assert(start_slot * UNIT_SIZE <= self.slot_count * UNIT_SIZE) by (
                            nonlinear_arith)
                                requires
                                    0 <= start_slot as int <= self.slot_count as int,
                            ;
                        }
                        let addr = self.data_addr + start_slot * UNIT_SIZE;
                        proof {
                            lemma_mod_multiples_basic(start_slot as int, UNIT_SIZE as int);
                            assert((start_slot as int + request_slots as int) * UNIT_SIZE
                                <= self.slot_count as int * UNIT_SIZE) by (nonlinear_arith)
                                requires
                                    start_slot as int + request_slots as int
                                        <= self.slot_count as int,
                            ;
                        }
                        Ok(addr)
                    },
                    Err(_) => {
                        proof {
                            old(self).bitmap.unwrap().lemma_shape();
                            self.bitmap.unwrap().lemma_shape();
                        }
                        Err(AllocError::NoMemory)
                    },
                }
            },
        }
    }

    /// Releases the allocation at `pos` of `size` bytes (the alignment
    /// argument is accepted for interface compatibility).  The unit count is
    /// recomputed as in `alloc` and the unit index recovered from the
    /// address; a release over a range that is not fully occupied is
    /// absorbed, leaving everything unchanged.
    #[allow(unused_variables)]
    pub fn dealloc(&mut self, pos: usize, size: usize, align: usize)
        requires
            old(self).wf(),
            old(self).active() ==> pos >= old(self).data_base(),
        ensures
            final(self).wf(),
            final(self).active() == old(self).active(),
            final(self).total() == old(self).total(),
            final(self).units() == old(self).units(),
            final(self).base() == old(self).base(),
            final(self).data_base() == old(self).data_base(),
            (if old(self).active() && size <= usize::MAX - (UNIT_SIZE - 1) && range_occupied(
                old(self).occ(),
                old(self).units(),
                (pos - old(self).data_base()) / (UNIT_SIZE as int),
                units_for(size as int),
            ) {
                let s = (pos - old(self).data_base()) / (UNIT_SIZE as int);
                let n = units_for(size as int);
                &&& (forall|i: int|
                    0 <= i < final(self).occ().len() ==> (#[trigger] final(self).occ()[i]) == (old(
                        self,
                    ).occ()[i] && !(s <= i < s + n)))
                &&& final(self).free_units() == old(self).free_units() + units_for(size as int)
            } else {
                &&& final(self).occ() == old(self).occ()
                &&& final(self).free_units() == old(self).free_units()
            }),
    {
        if size > usize::MAX - (UNIT_SIZE - 1) {
            return ;
        }
        proof {
            lemma_unit_size_pow2();
        }
        let request_slots = div_round_up(size, UNIT_SIZE);
        if self.bitmap.is_none() {
            return ;
        }
        let start_slot = (pos - self.data_addr) / UNIT_SIZE;
        proof {
            lemma_div_round_up_bounds(size as int, UNIT_SIZE as int);
            lemma_fundamental_div_mod(pos - old(self).data_base(), UNIT_SIZE as int);
            lemma_mod_division_less_than_divisor(pos - old(self).data_base(), UNIT_SIZE as int);
        }
        let b = self.bitmap.as_mut().unwrap();
        match b.dealloc(start_slot, request_slots) {
            Ok(_) => {
                proof {
                    let occ0 = old(self).occ();
                    let occ1 = self.bitmap.unwrap().occ();
                    let slots = old(self).units();
                    let s = start_slot as int;
                    let n = request_slots as int;
                    old(self).bitmap.unwrap().lemma_shape();
                    self.bitmap.unwrap().lemma_shape();
                    assert forall|i: int| s <= i < s + n implies 0 <= i < slots && occ0[i] by {
                        assert(occupied_at(occ0, slots, i));
                        assert(i < slots || !occ0[i]);
                    }
                    if n == 0 {
                        assert forall|i: int| 0 <= i < slots implies occ0[i] == occ1[i] by {
                            assert(occ1[i] == (occ0[i] && !(s <= i < s + n)));
                        }
                        crate::occupancy::lemma_count_free_agree(occ0, occ1, slots);
                    } else {
                        assert(occupied_at(occ0, slots, s + n - 1));
                        assert(s + n - 1 < slots);
                        assert forall|i: int|
                            0 <= i < slots && !(s <= i < s + n) implies occ0[i] == occ1[i] by {
                            assert(occ1[i] == (occ0[i] && !(s <= i < s + n)));
                        }
                        assert forall|i: int| s <= i < s + n implies occ0[i] && !occ1[i] by {
                            assert(occ1[i] == (occ0[i] && !(s <= i < s + n)));
                        }
                        lemma_count_free_after_clear(occ0, occ1, slots, s, n);
                    }
                    lemma_count_free_bounds(occ1, slots);
                    assert forall|i: int|
                        self.slot_count <= i < self.bitmap.unwrap().phys_bits() implies !(
                    #[trigger] occ1[i]) by {
                        assert(occ1[i] == (occ0[i] && !(s <= i < s + n)));
                    }
                }
                self.free_unit = self.free_unit + request_slots;
            },
            Err(_) => {
                proof {
                    old(self).bitmap.unwrap().lemma_shape();
                    self.bitmap.unwrap().lemma_shape();
                }
            },
        }
    }

    /// Total bytes of the managed region.
    pub fn total_bytes(&self) -> (r: usize)
        requires
            self.wf(),
        ensures
            r == self.total(),
    {
        self.real_size
    }

    /// Bytes currently allocated: occupied units times the unit size.
    pub fn used_bytes(&self) -> (r: usize)
        requires
            self.wf(),
        ensures
            r == (self.units() - self.free_units()) * UNIT_SIZE,
    {
        proof {
            if self.bitmap is Some {
                lemma_count_free_bounds(self.occ(), self.units());
                assert((self.slot_count - self.free_unit) * UNIT_SIZE
                    <= self.slot_count * UNIT_SIZE) by (nonlinear_arith)
                    requires
                        0 <= self.slot_count as int - self.free_unit as int
                            <= self.slot_count as int,
                ;
            }
        }
        (self.slot_count - self.free_unit) * UNIT_SIZE
    }

    /// Total allocatable bytes: all units, free or not, times the unit size.
    pub fn available_bytes(&self) -> (r: usize)
        requires
            self.wf(),
        ensures
            r == self.units() * UNIT_SIZE,
    {
        self.slot_count * UNIT_SIZE
    }
}

} // verus!
