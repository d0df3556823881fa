use vstd::prelude::*;

verus! {

/// A physical byte address.
pub type PhysAddress = usize;
/// A virtual byte address.
pub type VirtAddress = usize;
/// An address of either kind.
pub type Address = usize;
/// A count of pages.
pub type NumPages = usize;

/// A page table entry: an address and a size.
pub type PageTableEntry = (PhysAddress, usize);
/// A page table, held as its root entry.
pub type PageTable = PageTableEntry;

/// Position of the command word in a line of server input.
pub const FIRST_INPUT_INDEX: usize = 0;
/// Position of the first argument in a line of server input.
pub const SECOND_INPUT_INDEX: usize = 1;
/// Position of the second argument in a line of server input.
pub const THIRD_INPUT_INDEX: usize = 2;

/// Identifier of the only CPU of a single-CPU system.
pub const SINGLE_CPU_ID: usize = 0;

/// Error code: no free chapter (or set of chapters) is large enough.
pub const NOT_ENOUGH_MEMORY: u8 = 1;
/// Error code: the address is not known to the bookkeeping structures.
pub const CANNOT_FIND_ADDRESS: u8 = 2;
/// Error code: a line of input could not be read.
pub const FAILED_TO_READ_LINE: u8 = 3;

/// Number of command-line arguments when no input file is given.
pub const CMD_LINE_ARGS_NO_FILE: usize = 1;
/// Position of the program name among the command-line arguments.
pub const _PROGRAM_NAME_IDX: usize = 0;
/// Position of the input file name among the command-line arguments.
pub const FILE_NAME_IDX: usize = 1;

/// The number of pages of `page_size` bytes needed to hold `size` bytes,
/// that is `size / page_size` rounded up.
pub open spec fn pages_for(size: int, page_size: int) -> int {
    (size + page_size - 1) / page_size
}

/// Number of pages of `page_size` bytes needed to hold `size` bytes.
pub fn num_pages(size: usize, page_size: usize) -> (r: usize)
    requires
        page_size > 0,
        size + page_size <= usize::MAX,
    ensures
        r == pages_for(size as int, page_size as int),
        r * page_size >= size,
        r > 0 ==> (r - 1) * page_size < size,
{
    let r = (size + page_size - 1) / page_size;
    proof {
        lemma_pages_for_is_ceiling(size as int, page_size as int);
    }
    r
}

/// `pages_for` is the least page count whose pages hold `size` bytes.
pub proof fn lemma_pages_for_is_ceiling(size: int, page_size: int)
    requires
        size >= 0,
        page_size > 0,
    ensures
        pages_for(size, page_size) >= 0,
        pages_for(size, page_size) <= size,
        pages_for(size, page_size) * page_size >= size,
        pages_for(size, page_size) > 0 ==> (pages_for(size, page_size) - 1) * page_size < size,
{
    let q = pages_for(size, page_size);
    let t = size + page_size - 1;
    vstd::arithmetic::div_mod::lemma_fundamental_div_mod(t, page_size);
    assert(t == page_size * q + t % page_size);
    assert(0 <= t % page_size < page_size) by {
        vstd::arithmetic::div_mod::lemma_mod_bound(t, page_size);
    }
    assert(q >= 0) by {
        vstd::arithmetic::div_mod::lemma_div_pos_is_pos(t, page_size);
    }
    assert(q * page_size == page_size * q) by (nonlinear_arith);
    assert(q <= size) by (nonlinear_arith)
        requires
            q * page_size <= size + page_size - 1,
            page_size >= 1,
            q >= 0,
            size >= 0,
    ;
    assert((q - 1) * page_size == q * page_size - page_size) by (nonlinear_arith);
}

} // verus!
