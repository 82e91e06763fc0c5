use vstd::prelude::*;

verus! {

/// What a request for memory comes to.
#[derive(Clone, Copy, PartialEq, Eq, Structural, Debug)]
pub enum MemorizeStep {
    /// No memory is handed out: the null pointer is the answer.
    Null,
    /// The usable memory starts at this address.
    Ready(usize),
    /// No known block fits: this many bytes must be mapped from the system,
    /// and the outcome handed back to the allocator.
    Mmap(usize),
}

/// What freeing memory comes to.
#[derive(Clone, Copy, PartialEq, Eq, Structural, Debug)]
pub enum ForgetStep {
    /// The bookkeeping is done; nothing goes back to the system.
    Done,
    /// The block was dropped from the bookkeeping: these bytes go back to the
    /// system.
    Unmap { address: usize, length: usize },
}

/// What a request to grow a block comes to.
#[derive(Clone, Copy, PartialEq, Eq, Structural, Debug)]
pub enum RememorizeStep {
    /// The null pointer is the answer.
    Null,
    /// The block already has room enough: the same pointer is the answer.
    Keep(usize),
    /// A new block must be asked for with `memorize`; when it comes, this
    /// many bytes are copied over from the old block, which is then freed
    /// with `forget`.
    Move { copy_len: usize },
}

} // verus!
