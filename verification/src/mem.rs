use vstd::prelude::*;
use vstd::std_specs::convert::FromSpec;
use vstd::std_specs::convert::FromSpecImpl;

pub mod heap;
pub mod page;

verus! {

/// A physical address.
#[derive(Clone, Copy, Debug)]
pub struct PhysAddr(usize);

/// A virtual address.
#[derive(Clone, Copy, Debug)]
pub struct VirtAddr(usize);

/// An address that can be read as an integer.
pub trait MemoryAddress {
    /// The address as a `usize`.
    spec fn addr_spec(&self) -> usize;

    fn as_usize(&self) -> (r: usize)
        ensures
            r == self.addr_spec(),
    ;

    fn as_u64(&self) -> (r: u64)
        ensures
            r == self.addr_spec() as u64,
    ;
}

impl MemoryAddress for PhysAddr {
    open spec fn addr_spec(&self) -> usize {
        self.value()
    }

    fn as_usize(&self) -> (r: usize) {
        self.0
    }

    fn as_u64(&self) -> (r: u64) {
        self.0 as u64
    }
}

impl MemoryAddress for VirtAddr {
    open spec fn addr_spec(&self) -> usize {
        self.value()
    }

    fn as_usize(&self) -> (r: usize) {
        self.0
    }

    fn as_u64(&self) -> (r: u64) {
        self.0 as u64
    }
}

/// Reading an address as an integer gives its value.
pub proof fn law_addr_spec_is_value(p: PhysAddr, v: VirtAddr)
    ensures
        p.addr_spec() == p.value(),
        v.addr_spec() == v.value(),
{
}

impl PhysAddr {
    /// The address, as a `usize`.
    pub closed spec fn value(self) -> usize {
        self.0
    }
}

impl VirtAddr {
    /// The address, as a `usize`.
    pub closed spec fn value(self) -> usize {
        self.0
    }
}

impl From<u64> for PhysAddr {
    fn from(value: u64) -> (r: PhysAddr) {
        PhysAddr(value as usize)
    }
}

impl FromSpecImpl<u64> for PhysAddr {
    open spec fn obeys_from_spec() -> bool {
        true
    }

    closed spec fn from_spec(v: u64) -> PhysAddr {
        PhysAddr(v as usize)
    }
}

impl From<usize> for PhysAddr {
    fn from(value: usize) -> (r: PhysAddr) {
        PhysAddr(value)
    }
}

impl FromSpecImpl<usize> for PhysAddr {
    open spec fn obeys_from_spec() -> bool {
        true
    }

    closed spec fn from_spec(v: usize) -> PhysAddr {
        PhysAddr(v)
    }
}

impl From<PhysAddr> for u64 {
    fn from(value: PhysAddr) -> (r: u64) {
        value.0 as u64
    }
}

impl FromSpecImpl<PhysAddr> for u64 {
    open spec fn obeys_from_spec() -> bool {
        true
    }

    closed spec fn from_spec(v: PhysAddr) -> u64 {
        v.0 as u64
    }
}

impl From<PhysAddr> for usize {
    fn from(value: PhysAddr) -> (r: usize) {
        value.0
    }
}

impl FromSpecImpl<PhysAddr> for usize {
    open spec fn obeys_from_spec() -> bool {
        true
    }

    closed spec fn from_spec(v: PhysAddr) -> usize {
        v.0
    }
}

impl From<u64> for VirtAddr {
    fn from(value: u64) -> (r: VirtAddr) {
        VirtAddr(value as usize)
    }
}

impl FromSpecImpl<u64> for VirtAddr {
    open spec fn obeys_from_spec() -> bool {
        true
    }

    closed spec fn from_spec(v: u64) -> VirtAddr {
        VirtAddr(v as usize)
    }
}

impl From<usize> for VirtAddr {
    fn from(value: usize) -> (r: VirtAddr) {
        VirtAddr(value)
    }
}

impl FromSpecImpl<usize> for VirtAddr {
    open spec fn obeys_from_spec() -> bool {
        true
    }

    closed spec fn from_spec(v: usize) -> VirtAddr {
        VirtAddr(v)
    }
}

impl From<VirtAddr> for u64 {
    fn from(value: VirtAddr) -> (r: u64) {
        value.0 as u64
    }
}

impl FromSpecImpl<VirtAddr> for u64 {
    open spec fn obeys_from_spec() -> bool {
        true
    }

    closed spec fn from_spec(v: VirtAddr) -> u64 {
        v.0 as u64
    }
}

impl From<VirtAddr> for usize {
    fn from(value: VirtAddr) -> (r: usize) {
        value.0
    }
}

impl FromSpecImpl<VirtAddr> for usize {
    open spec fn obeys_from_spec() -> bool {
        true
    }

    closed spec fn from_spec(v: VirtAddr) -> usize {
        v.0
    }
}

/// Converting a `usize` to an address and back gives the same number.
pub proof fn law_address_round_trip(v: usize)
    ensures
        <PhysAddr as FromSpec<usize>>::from_spec(v).value() == v,
        <VirtAddr as FromSpec<usize>>::from_spec(v).value() == v,
        <usize as FromSpec<PhysAddr>>::from_spec(<PhysAddr as FromSpec<usize>>::from_spec(v)) == v,
        <usize as FromSpec<VirtAddr>>::from_spec(<VirtAddr as FromSpec<usize>>::from_spec(v)) == v,
        <u64 as FromSpec<PhysAddr>>::from_spec(<PhysAddr as FromSpec<usize>>::from_spec(v)) == v as u64,
{
}

} // verus!
