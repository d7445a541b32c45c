//! The window onto physical memory: one stretch of virtual addresses that
//! shows physical memory from address zero on, byte for byte.

use vstd::prelude::*;
use vstd::slice::slice_subrange;

verus! {

/// Bytes seen through a window, together with the virtual address of the
/// first of them.
#[derive(Clone, Copy, Debug)]
pub struct ByteView<'a> {
    addr: u64,
    bytes: &'a [u8],
}

impl<'a> View for ByteView<'a> {
    type V = Seq<u8>;

    closed spec fn view(&self) -> Seq<u8> {
        self.bytes@
    }
}

impl<'a> ByteView<'a> {
    #[verifier::type_invariant]
    spec fn fits(self) -> bool {
        self.addr + self.bytes@.len() <= u64::MAX
    }

    /// The virtual address of the first byte.
    pub closed spec fn start(self) -> u64 {
        self.addr
    }

    /// The virtual address of the first byte.
    pub fn addr(&self) -> (a: u64)
        ensures
            a == self.start(),
    {
        self.addr
    }

    /// The bytes themselves.
    pub fn bytes(&self) -> (b: &'a [u8])
        ensures
            b@ == self@,
    {
        self.bytes
    }

    /// The number of bytes.
    pub fn len(&self) -> (n: usize)
        ensures
            n == self@.len(),
            self.start() + n <= u64::MAX,
    {
        proof {
            use_type_invariant(self);
        }
        self.bytes.len()
    }
}

/// Physical memory from address zero up to a limit, as it appears at a
/// fixed virtual base.
#[derive(Clone, Copy, Debug)]
pub struct PhysicalWindow<'a> {
    base: u64,
    memory: &'a [u8],
}

impl<'a> PhysicalWindow<'a> {
    #[verifier::type_invariant]
    spec fn fits(self) -> bool {
        self.base + self.memory@.len() <= u64::MAX
    }

    /// The virtual address at which physical address zero appears.
    pub closed spec fn base(self) -> u64 {
        self.base
    }

    /// The bytes of physical memory, the byte at physical address `i` at
    /// index `i`.
    pub closed spec fn memory(self) -> Seq<u8> {
        self.memory@
    }

    /// Whether the `len` bytes from physical address `phys` on lie in the
    /// window.
    pub open spec fn maps(self, phys: u64, len: usize) -> bool {
        phys + len <= self.memory().len()
    }

    /// Whether `view` is a view through this window: its addresses lie in
    /// the window and its bytes are the bytes of physical memory there.
    pub open spec fn holds(self, view: ByteView<'a>) -> bool {
        &&& self.base() <= view.start()
        &&& view.start() + view@.len() <= self.base() + self.memory().len()
        &&& view@ == self.memory().subrange(
            view.start() - self.base(),
            view.start() - self.base() + view@.len(),
        )
    }

    /// A window that shows `memory` from the virtual address `base` on, or
    /// nothing if the window would reach beyond the last virtual address.
    pub fn new(base: u64, memory: &'a [u8]) -> (window: Option<PhysicalWindow<'a>>)
        ensures
            window is Some <==> base + memory@.len() <= u64::MAX,
            window matches Some(w) ==> w.base() == base && w.memory() == memory@,
    {
        if memory.len() as u64 <= u64::MAX - base {
            Some(PhysicalWindow { base, memory })
        } else {
            None
        }
    }

    /// The virtual address at which physical address zero appears.
    pub fn virtual_base(&self) -> (b: u64)
        ensures
            b == self.base(),
    {
        self.base
    }

    /// The number of bytes of physical memory that the window shows.
    pub fn limit(&self) -> (n: usize)
        ensures
            n == self.memory().len(),
            self.base() + n <= u64::MAX,
    {
        proof {
            use_type_invariant(self);
        }
        self.memory.len()
    }

    /// The `len` bytes from physical address `phys` on, or nothing if they
    /// do not all lie in the window.
    pub fn read(&self, phys: u64, len: usize) -> (view: Option<ByteView<'a>>)
        ensures
            view is Some <==> self.maps(phys, len),
            view matches Some(v) ==> {
                &&& v@ == self.memory().subrange(phys as int, phys + len)
                &&& v.start() == self.base() + phys
                &&& self.holds(v)
            },
    {
        proof {
            use_type_invariant(self);
        }
        let limit: usize = self.memory.len();
        if phys <= limit as u64 && len <= limit - phys as usize {
            let from: usize = phys as usize;
            let bytes = slice_subrange(self.memory, from, from + len);
            Some(ByteView { addr: self.base + phys, bytes })
        } else {
            None
        }
    }

    /// The physical address that appears at the virtual address `addr`.
    pub fn physical_address(&self, addr: u64) -> (phys: u64)
        requires
            self.base() <= addr,
        ensures
            phys == addr - self.base(),
    {
        addr - self.base
    }

    /// The physical address of the first byte of a view through this
    /// window.
    pub fn physical_of(&self, view: &ByteView<'a>) -> (phys: u64)
        requires
            self.holds(*view),
        ensures
            phys == view.start() - self.base(),
            phys + view@.len() <= self.memory().len(),
    {
        self.physical_address(view.addr)
    }
}

} // verus!
