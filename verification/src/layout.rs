//! The size and alignment of a request.

use vstd::arithmetic::power2::is_pow2;
use vstd::prelude::*;

use crate::ptr_ext::is_power_of_two;

verus! {

/// A request for memory: `size` bytes at an address that is a multiple of `align`.
#[derive(Clone, Copy, Debug, PartialEq, Eq, Structural)]
pub struct Layout {
    pub size: usize,
    pub align: usize,
}

impl Layout {
    /// The alignment of a layout is a power of two.
    pub open spec fn wf(self) -> bool {
        is_pow2(self.align as int)
    }

    /// The layout of `size` bytes aligned to `align`, where `align` is a
    /// power of two.
    pub fn from_size_align(size: usize, align: usize) -> (r: Option<Layout>)
        ensures
            r.is_some() <==> is_pow2(align as int),
            r matches Some(layout) ==> layout.size == size && layout.align == align && layout.wf(),
    {
        if is_power_of_two(align) {
            Some(Layout { size, align })
        } else {
            None
        }
    }
}

} // verus!
