//! What a store of large chunks offers to the tier above it. No method
//! maps memory itself: where fresh pages are needed, the answer says how
//! many, and the caller hands the mapped region back in.

use vstd::prelude::*;
use crate::common::Layout;
use crate::common::HEADER_SIZE;
use crate::common::PAGE_SIZE;
use crate::common::data_offset;
use crate::common::is_power_of_two;
use crate::common::mapped_length;

verus! {

/// The answer to a request for memory.
#[derive(Clone, Copy, Debug, PartialEq, Eq)]
pub enum Allocation {
    /// A free chunk was taken out of the store; this is the address of its
    /// first usable byte.
    Reused(usize),
    /// No free chunk is large enough. Map this many bytes and hand them to
    /// `install`.
    Fresh(usize),
}

/// The answer to a request to resize.
#[derive(Clone, Copy, Debug, PartialEq, Eq)]
pub enum Reallocation {
    /// The chunk is large enough already; the pointer stays.
    InPlace(usize),
    /// A free chunk takes over and the old one is free again. Copy `copy`
    /// bytes from the old data address to `to`.
    Moved { to: usize, copy: usize },
    /// No free chunk is large enough. Map `length` bytes, hand them to
    /// `install_replacement`, and copy `copy` bytes; until then the old
    /// chunk stays as it is.
    Fresh { length: usize, copy: usize },
    /// The new size cannot be laid out. Nothing changed, and the old
    /// pointer is still good.
    Absent,
}

/// `best` is the smallest capacity in the pool that is at least `size`.
pub open spec fn best_fit(pool: Map<usize, usize>, size: usize, best: usize) -> bool {
    &&& pool.contains_key(best)
    &&& size <= best
    &&& forall|k: usize| pool.contains_key(k) && size <= k ==> best <= k
}

/// Every capacity in the pool is smaller than `size`.
pub open spec fn no_fit(pool: Map<usize, usize>, size: usize) -> bool {
    forall|k: usize| pool.contains_key(k) ==> k < size
}

/// The pool after a chunk has been given back. The pool has one slot for
/// each capacity: a chunk whose capacity is taken stays outside.
pub open spec fn released(pool: Map<usize, usize>, capacity: usize, ptr: usize) -> Map<
    usize,
    usize,
> {
    if pool.contains_key(capacity) {
        pool
    } else {
        pool.insert(capacity, ptr)
    }
}

/// `address` can be the start of a mapping that serves `size` bytes at
/// alignment `align`: it is not null, it lies on a page boundary, and the
/// mapping ends within the address space.
pub open spec fn placeable(address: usize, size: usize, align: usize) -> bool {
    &&& address != 0
    &&& address % PAGE_SIZE == 0
    &&& address + mapped_length(size, align) <= usize::MAX
}

/// What the data addresses say once a fresh chunk has been installed: a
/// chunk whose data begins right behind its header can be found again
/// from its data address; one with more padding cannot.
pub open spec fn with_chunk(
    chunks: Map<usize, usize>,
    address: usize,
    size: usize,
    align: usize,
) -> Map<usize, usize> {
    if data_offset(align) == HEADER_SIZE {
        chunks.insert(
            (address + HEADER_SIZE) as usize,
            (mapped_length(size, align) - HEADER_SIZE) as usize,
        )
    } else {
        chunks
    }
}

/// A store of large chunks with best-fit reuse.
pub trait LargeAllocator {
    /// The store is in order.
    spec fn valid(&self) -> bool;

    /// The free chunks: capacity to data address.
    spec fn pool(&self) -> Map<usize, usize>;

    /// The chunks that can be found from their data address, free or
    /// handed out: data address to capacity.
    spec fn chunks(&self) -> Map<usize, usize>;

    /// The addresses at which a chunk begins.
    spec fn headers(&self) -> Set<usize>;

    /// Takes the free chunk of the smallest capacity that holds
    /// `layout.size()` bytes out of the pool, or says how much to map if
    /// there is none.
    fn allocate(&mut self, layout: Layout) -> (step: Allocation)
        requires
            old(self).valid(),
        ensures
            final(self).valid(),
            final(self).chunks() == old(self).chunks(),
            final(self).headers() == old(self).headers(),
            match step {
                Allocation::Reused(ptr) => {
                    &&& old(self).chunks().contains_key(ptr)
                    &&& best_fit(old(self).pool(), layout.spec_size(), old(self).chunks()[ptr])
                    &&& old(self).pool()[old(self).chunks()[ptr]] == ptr
                    &&& final(self).pool() == old(self).pool().remove(old(self).chunks()[ptr])
                },
                Allocation::Fresh(length) => {
                    &&& no_fit(old(self).pool(), layout.spec_size())
                    &&& length == mapped_length(layout.spec_size(), layout.spec_align())
                    &&& final(self).pool() == old(self).pool()
                },
            },
    ;

    /// Takes over the fresh mapping at `address`, made for `layout`, and
    /// returns the address of its first usable byte. The chunk is handed
    /// out, not free. Nothing is taken over, and nothing changes, if
    /// `address` cannot be such a mapping or a chunk begins there already.
    fn install(&mut self, address: usize, layout: Layout) -> (ptr: Option<usize>)
        requires
            old(self).valid(),
        ensures
            final(self).valid(),
            final(self).pool() == old(self).pool(),
            ptr is Some <==> placeable(address, layout.spec_size(), layout.spec_align())
                && !old(self).headers().contains(address),
            ptr is None ==> final(self).chunks() == old(self).chunks() && final(self).headers()
                == old(self).headers(),
            ptr matches Some(p) ==> {
                &&& p == address + data_offset(layout.spec_align())
                &&& final(self).headers() == old(self).headers().insert(address)
                &&& final(self).chunks() == with_chunk(
                    old(self).chunks(),
                    address,
                    layout.spec_size(),
                    layout.spec_align(),
                )
            },
    ;

    /// Gives the chunk with data address `ptr` back to the pool.
    fn dealloc(&mut self, ptr: usize)
        requires
            old(self).valid(),
            ptr != 0,
            old(self).chunks().contains_key(ptr),
        ensures
            final(self).valid(),
            final(self).chunks() == old(self).chunks(),
            final(self).headers() == old(self).headers(),
            final(self).pool() == released(old(self).pool(), old(self).chunks()[ptr], ptr),
    ;

    /// Makes room for `new_size` bytes in place of the chunk with data
    /// address `ptr`. A chunk that is large enough stays. Otherwise the
    /// replacement comes from this same store: the best fit among the free
    /// chunks, after which the old chunk is free again, or else a fresh
    /// mapping that the caller has to provide.
    fn realloc(&mut self, ptr: usize, layout: Layout, new_size: usize) -> (step: Reallocation)
        requires
            old(self).valid(),
            ptr != 0,
            old(self).chunks().contains_key(ptr),
        ensures
            final(self).valid(),
            final(self).chunks() == old(self).chunks(),
            final(self).headers() == old(self).headers(),
            ({
                let capacity = old(self).chunks()[ptr];
                let fits = is_power_of_two(layout.spec_align()) && new_size <= isize::MAX - (
                layout.spec_align() - 1);
                match step {
                    Reallocation::InPlace(p) => {
                        &&& new_size <= capacity
                        &&& p == ptr
                        &&& final(self).pool() == old(self).pool()
                    },
                    Reallocation::Absent => {
                        &&& capacity < new_size
                        &&& !fits
                        &&& final(self).pool() == old(self).pool()
                    },
                    Reallocation::Moved { to, copy } => {
                        &&& capacity < new_size
                        &&& fits
                        &&& copy == capacity
                        &&& old(self).chunks().contains_key(to)
                        &&& best_fit(old(self).pool(), new_size, old(self).chunks()[to])
                        &&& old(self).pool()[old(self).chunks()[to]] == to
                        &&& final(self).pool() == released(
                            old(self).pool().remove(old(self).chunks()[to]),
                            capacity,
                            ptr,
                        )
                    },
                    Reallocation::Fresh { length, copy } => {
                        &&& capacity < new_size
                        &&& fits
                        &&& copy == capacity
                        &&& no_fit(old(self).pool(), new_size)
                        &&& length == mapped_length(new_size, layout.spec_align())
                        &&& final(self).pool() == old(self).pool()
                    },
                }
            }),
    ;

    /// Completes a `Reallocation::Fresh`: takes over the fresh mapping at
    /// `address`, made for `layout`, and gives the chunk with data address
    /// `ptr` back to the pool. If the mapping cannot be taken over, nothing
    /// changes and the old chunk stays handed out.
    fn install_replacement(&mut self, ptr: usize, address: usize, layout: Layout) -> (to: Option<
        usize,
    >)
        requires
            old(self).valid(),
            ptr != 0,
            old(self).chunks().contains_key(ptr),
        ensures
            final(self).valid(),
            to is Some <==> placeable(address, layout.spec_size(), layout.spec_align())
                && !old(self).headers().contains(address),
            to is None ==> final(self).chunks() == old(self).chunks() && final(self).headers()
                == old(self).headers() && final(self).pool() == old(self).pool(),
            to matches Some(p) ==> {
                &&& p == address + data_offset(layout.spec_align())
                &&& final(self).headers() == old(self).headers().insert(address)
                &&& final(self).chunks() == with_chunk(
                    old(self).chunks(),
                    address,
                    layout.spec_size(),
                    layout.spec_align(),
                )
                &&& final(self).pool() == released(old(self).pool(), old(self).chunks()[ptr], ptr)
            },
    ;
}

} // verus!
