//! The registers that a context switch saves and restores.

use vstd::prelude::*;

verus! {

/// The callee-saved state of a task that is not running: where to return to,
/// its kernel stack pointer, and the twelve saved registers.
#[derive(Clone, Copy, Debug)]
pub struct TaskContext {
    pub ra: u64,
    pub sp: u64,
    pub s: [u64; 12],
}

impl TaskContext {
    /// A context with every register zero.
    pub fn zero_init() -> (r: Self)
        ensures
            r.ra == 0,
            r.sp == 0,
            r.s@ == Seq::new(12, |i: int| 0u64),
    {
        let r = TaskContext { ra: 0, sp: 0, s: [0u64; 12] };
        assert(r.s@ =~= Seq::new(12, |i: int| 0u64));
        r
    }

    /// The context of a task that has not run yet: switching to it returns
    /// to the code at `trap_return`, on the kernel stack that ends at
    /// `kstack_ptr`.
    pub fn goto_trap_return(kstack_ptr: u64, trap_return: u64) -> (r: Self)
        ensures
            r.ra == trap_return,
            r.sp == kstack_ptr,
            r.s@ == Seq::new(12, |i: int| 0u64),
    {
        let r = TaskContext { ra: trap_return, sp: kstack_ptr, s: [0u64; 12] };
        assert(r.s@ =~= Seq::new(12, |i: int| 0u64));
        r
    }
}

} // verus!
