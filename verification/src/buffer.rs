//! Byte buffers shared between the host and a device.

use crate::text::{decimal, numbered};
use vstd::prelude::*;

verus! {

/// An address in the device's view of unified memory.
#[derive(Debug, Clone, Copy, PartialEq, Eq, Structural)]
pub struct DeviceAddress(pub u64);

/// A fixed run of bytes that host and device both reach.
///
/// The defaults of `contents` and `address` stand for no bytes and no address in particular:
/// an implementation that is to be proved against the clauses gives its own.
pub trait UnifiedBuffer {
    /// The bytes, in address order.
    open spec fn contents(&self) -> Seq<u8> {
        arbitrary()
    }

    /// The device address of the first byte.
    open spec fn address(&self) -> u64 {
        arbitrary()
    }

    fn len(&self) -> (r: usize)
        ensures
            r == self.contents().len(),
    ;

    /// The device address of the first byte; the buffer ends within the address space.
    fn device_address(&self) -> (r: DeviceAddress)
        ensures
            r.0 == self.address(),
            self.address() + self.contents().len() <= u64::MAX,
    ;

    fn load(&self, offset: usize) -> (r: u8)
        requires
            offset < self.contents().len(),
        ensures
            r == self.contents()[offset as int],
    ;

    fn store(&mut self, offset: usize, byte: u8)
        requires
            offset < old(self).contents().len(),
        ensures
            final(self).contents() == old(self).contents().update(offset as int, byte),
            final(self).address() == old(self).address(),
    ;
}

/// 1, 2, 4, 8 and so on.
pub open spec fn power_of_two(n: int) -> bool
    decreases n,
{
    n == 1 || (n > 1 && n % 2 == 0 && power_of_two(n / 2))
}

/// A sized, aligned request that an allocator accepts: the alignment is a power of
/// two, and the size rounded up to it is at most `isize::MAX`.
pub open spec fn valid_request(size: usize, align: usize) -> bool {
    &&& power_of_two(align as int)
    &&& size + align - 1 <= isize::MAX
}

/// The alignment used for a request of `align`: at least that of a `usize`.
pub open spec fn effective_align(align: usize) -> usize {
    if align >= vstd::layout::align_of::<usize>() {
        align
    } else {
        vstd::layout::align_of::<usize>() as usize
    }
}

fn is_power_of_two(n: usize) -> (r: bool)
    ensures
        r == power_of_two(n as int),
{
    if n == 0 {
        return false;
    }
    let mut m: usize = n;
    while m > 1
        invariant
            m >= 1,
            power_of_two(m as int) == power_of_two(n as int),
        decreases m,
    {
        if m % 2 != 0 {
            return false;
        }
        m = m / 2;
    }
    true
}

/// The address of a vector's first byte, from `Vec::as_ptr`. An allocation never
/// reaches past the end of the address space; nothing else is said of the address,
/// which the allocator chooses.
#[verifier::external_body]
fn heap_address(bytes: &Vec<u8>) -> (r: u64)
    ensures
        r + bytes@.len() <= u64::MAX,
{
    bytes.as_ptr() as u64
}

/// The bytes to ask the allocator for, so that `size` of them start at a multiple of
/// `align` wherever the allocation lies.
fn reserved_bytes(size: usize, align: usize) -> (r: usize)
    requires
        valid_request(size, align),
    ensures
        r == size + align - 1,
{
    size + (align - 1)
}

/// A zero-initialised host buffer for use without a device.
pub struct HeapUnifiedBuffer {
    bytes: Vec<u8>,
    start: usize,
    size: usize,
    base: u64,
}

impl HeapUnifiedBuffer {
    #[verifier::type_invariant]
    spec fn in_bounds(&self) -> bool {
        &&& self.start + self.size <= self.bytes.len()
        &&& self.base + self.size <= u64::MAX
    }

    /// Allocates `size` zero bytes at an address that is a multiple of `align`.
    pub fn allocate(size: usize, align: usize) -> (r: Result<Self, String>)
        ensures
            match r {
                Ok(b) => {
                    &&& valid_request(size, effective_align(align))
                    &&& b.contents() == Seq::new(size as nat, |i: int| 0u8)
                    &&& b.address() as int % effective_align(align) as int == 0
                },
                Err(e) => if valid_request(size, effective_align(align)) {
                    e@ == "Failed to allocate "@ + decimal(size as nat) + " bytes on heap"@
                } else {
                    e@ == "Invalid layout: invalid parameters to Layout::from_size_align"@
                },
            },
    {
        let least: usize = core::mem::align_of::<usize>();
        let align: usize = if align >= least {
            align
        } else {
            least
        };
        if !is_power_of_two(align) || size > isize::MAX as usize || align - 1 > isize::MAX as usize
            - size {
            return Err("Invalid layout: invalid parameters to Layout::from_size_align".to_owned());
        }
        let mut bytes: Vec<u8> = Vec::new();
        if bytes.try_reserve(reserved_bytes(size, align)).is_err() {
            return Err(numbered("Failed to allocate ", size as u64, " bytes on heap"));
        }
        Ok(Self::zeroed_in(bytes, size, align))
    }

    /// The buffer in an allocation that was granted: `size` zero bytes at the first address
    /// in it that is a multiple of `align`.
    fn zeroed_in(granted: Vec<u8>, size: usize, align: usize) -> (r: Self)
        requires
            valid_request(size, align),
            granted@.len() == 0,
        ensures
            r.contents() == Seq::new(size as nat, |i: int| 0u8),
            r.address() as int % align as int == 0,
    {
        let mut bytes: Vec<u8> = granted;
        bytes.resize(reserved_bytes(size, align), 0u8);
        let raw: u64 = heap_address(&bytes);
        let over: u64 = raw % (align as u64);
        let start: usize = if over == 0 {
            0
        } else {
            (align as u64 - over) as usize
        };
        proof {
            let a = align as int;
            assert((raw + start) % a == 0) by (nonlinear_arith)
                requires
                    a > 0,
                    over == raw as int % a,
                    start == (if over == 0 {
                        0
                    } else {
                        a - over
                    }),
            ;
        }
        let r = HeapUnifiedBuffer { bytes, start, size, base: raw + start as u64 };
        assert(r.contents() =~= Seq::new(size as nat, |i: int| 0u8));
        r
    }
}

impl UnifiedBuffer for HeapUnifiedBuffer {
    closed spec fn contents(&self) -> Seq<u8> {
        self.bytes@.subrange(self.start as int, self.start + self.size)
    }

    closed spec fn address(&self) -> u64 {
        self.base
    }

    fn len(&self) -> (r: usize) {
        proof {
            use_type_invariant(self);
        }
        self.size
    }

    fn device_address(&self) -> (r: DeviceAddress) {
        proof {
            use_type_invariant(self);
        }
        DeviceAddress(self.base)
    }

    fn load(&self, offset: usize) -> (r: u8) {
        proof {
            use_type_invariant(self);
        }
        self.bytes[self.start + offset]
    }

    fn store(&mut self, offset: usize, byte: u8) {
        proof {
            use_type_invariant(&*self);
        }
        let at: usize = self.start + offset;
        self.bytes[at] = byte;
        assert(self.contents() =~= old(self).contents().update(offset as int, byte));
    }
}

/// A block's place in the pool.
#[derive(Debug, Clone, Copy, PartialEq, Eq)]
pub struct BufferRegion {
    pub address: DeviceAddress,
    pub offset: usize,
    pub len: usize,
}

} // verus!
