//! Sizes shared by the whole store, and the arithmetic that lays a chunk
//! out: a header, the data behind it, whole pages around both.

use vstd::prelude::*;
use vstd::arithmetic::div_mod::lemma_fundamental_div_mod;
use vstd::arithmetic::div_mod::lemma_mod_bound;
use vstd::arithmetic::div_mod::lemma_mod_multiples_basic;

verus! {

/// The size of a page of the operating system, in bytes.
pub const PAGE_SIZE: usize = 4096;

/// The bytes at the start of every chunk that its header takes up.
pub const HEADER_SIZE: usize = 32;

/// Whether `n` is a power of two.
pub open spec fn is_power_of_two(n: usize) -> bool {
    n > 0 && (n as u64) & ((n - 1) as u64) == 0
}

/// The least multiple of `m` that is at least `n`.
pub open spec fn round_up(n: int, m: int) -> int {
    ((n + m - 1) / m) * m
}

/// How far behind the start of a chunk its data begins: the header's size,
/// rounded up to the alignment asked for.
pub open spec fn data_offset(align: usize) -> int {
    round_up(HEADER_SIZE as int, align as int)
}

/// How many bytes are mapped for a request: header, padding and data,
/// rounded up to whole pages.
pub open spec fn mapped_length(size: usize, align: usize) -> int {
    round_up(data_offset(align) + size, PAGE_SIZE as int)
}

/// The size and alignment of a request for memory.
#[derive(Clone, Copy, Debug, PartialEq, Eq)]
pub struct Layout {
    size: usize,
    align: usize,
}

impl Layout {
    /// The number of bytes asked for.
    pub closed spec fn spec_size(&self) -> usize {
        self.size
    }

    /// The alignment asked for.
    pub closed spec fn spec_align(&self) -> usize {
        self.align
    }

    /// The alignment is a power of two, and the size still fits in an
    /// `isize` after rounding up to it.
    pub open spec fn wf(self) -> bool {
        &&& is_power_of_two(self.spec_align())
        &&& self.spec_size() <= isize::MAX - (self.spec_align() - 1)
    }

    #[verifier::type_invariant]
    spec fn inv(self) -> bool {
        self.wf()
    }

    /// The layout of `size` bytes aligned to `align`, if there is one.
    pub fn from_size_align(size: usize, align: usize) -> (layout: Option<Layout>)
        ensures
            layout is Some <==> is_power_of_two(align) && size <= isize::MAX - (align - 1),
            layout matches Some(l) ==> l.spec_size() == size && l.spec_align() == align && l.wf(),
    {
        if align == 0 {
            return None;
        }
        if (align as u64) & ((align - 1) as u64) != 0 {
            return None;
        }
        if align - 1 > isize::MAX as usize {
            return None;
        }
        if size > isize::MAX as usize - (align - 1) {
            return None;
        }
        Some(Layout { size, align })
    }

    /// The number of bytes asked for.
    #[verifier::when_used_as_spec(spec_size)]
    pub fn size(&self) -> (size: usize)
        ensures
            size == self.spec_size(),
            self.wf(),
    {
        proof {
            use_type_invariant(self);
        }
        self.size
    }

    /// The alignment asked for.
    #[verifier::when_used_as_spec(spec_align)]
    pub fn align(&self) -> (align: usize)
        ensures
            align == self.spec_align(),
            self.wf(),
    {
        proof {
            use_type_invariant(self);
        }
        self.align
    }

    /// How far behind the start of a chunk the data of this request begins.
    pub fn data_offset(&self) -> (offset: usize)
        ensures
            offset == data_offset(self.spec_align()),
            HEADER_SIZE <= offset < HEADER_SIZE + self.spec_align(),
            self.spec_align() <= HEADER_SIZE ==> offset == HEADER_SIZE,
            self.wf(),
    {
        proof {
            use_type_invariant(self);
            lemma_round_up(HEADER_SIZE as int, self.align as int);
            if self.align <= HEADER_SIZE {
                lemma_small_alignment(self.align);
            }
        }
        (HEADER_SIZE + (self.align - 1)) / self.align * self.align
    }

    /// How many bytes have to be mapped to serve this request from a fresh
    /// chunk.
    pub fn mapped_length(&self) -> (length: usize)
        ensures
            length == mapped_length(self.spec_size(), self.spec_align()),
            length % PAGE_SIZE == 0,
            data_offset(self.spec_align()) + self.spec_size() <= length,
            length < data_offset(self.spec_align()) + self.spec_size() + PAGE_SIZE,
            self.spec_size() <= length - HEADER_SIZE,
            self.wf(),
    {
        let offset = self.data_offset();
        proof {
            use_type_invariant(self);
            lemma_round_up(offset + self.size, PAGE_SIZE as int);
        }
        (offset + self.size + (PAGE_SIZE - 1)) / PAGE_SIZE * PAGE_SIZE
    }
}

/// Rounding up gives a multiple of `m`, reached within `m` of `n`.
pub proof fn lemma_round_up(n: int, m: int)
    requires
        0 <= n,
        0 < m,
    ensures
        n <= round_up(n, m) < n + m,
        round_up(n, m) % m == 0,
        0 <= (n + m - 1) / m,
        round_up(n, m) == (n + m - 1) / m * m,
{
    let x = n + m - 1;
    lemma_fundamental_div_mod(x, m);
    lemma_mod_bound(x, m);
    let q = x / m;
    assert(q * m == m * q) by (nonlinear_arith);
    assert(0 <= q) by (nonlinear_arith)
        requires
            q * m + x % m == x,
            0 <= x % m < m,
            0 <= x,
            0 < m,
    ;
    lemma_mod_multiples_basic(q, m);
}

/// What is mapped for a request holds the header and the bytes asked for,
/// and less than one page more than the header, the padding and the bytes.
pub proof fn lemma_capacity_covers(size: usize, align: usize)
    requires
        is_power_of_two(align),
    ensures
        HEADER_SIZE <= data_offset(align) < HEADER_SIZE + align,
        data_offset(align) + size <= mapped_length(size, align) < data_offset(align) + size
            + PAGE_SIZE,
        mapped_length(size, align) % (PAGE_SIZE as int) == 0,
        size <= mapped_length(size, align) - HEADER_SIZE,
{
    lemma_round_up(HEADER_SIZE as int, align as int);
    lemma_round_up(data_offset(align) + size, PAGE_SIZE as int);
}

/// An alignment up to the header's size divides it, so the data of such a
/// request begins right behind the header.
pub proof fn lemma_small_alignment(align: usize)
    requires
        is_power_of_two(align),
        align <= HEADER_SIZE,
    ensures
        round_up(HEADER_SIZE as int, align as int) == HEADER_SIZE,
{
    let a = align as u64;
    assert(a == 1 || a == 2 || a == 4 || a == 8 || a == 16 || a == 32) by (bit_vector)
        requires
            a > 0,
            a & ((a - 1) as u64) == 0,
            a <= 32,
    ;
    if a == 1 {
        assert(round_up(32, 1) == 32);
    } else if a == 2 {
        assert(round_up(32, 2) == 32);
    } else if a == 4 {
        assert(round_up(32, 4) == 32);
    } else if a == 8 {
        assert(round_up(32, 8) == 32);
    } else if a == 16 {
        assert(round_up(32, 16) == 32);
    } else {
        assert(round_up(32, 32) == 32);
    }
}

} // verus!
