//! Page table entries of the aarch64 VMSAv8-64 translation scheme, and the
//! architecture-independent memory attributes they are built from.
use vstd::prelude::*;
use crate::memory_addr::PhysAddr;

verus! {

/// The memory is readable.
pub const ATTR_READ: usize = 1 << 0;
/// The memory is writable.
pub const ATTR_WRITE: usize = 1 << 1;
/// The memory is executable.
pub const ATTR_EXECUTE: usize = 1 << 2;
/// The memory is user accessible.
pub const ATTR_USER: usize = 1 << 3;
/// The memory is device memory.
pub const ATTR_DEVICE: usize = 1 << 4;

/// A set of memory attributes (`ATTR_*` bits).
#[derive(Copy, Clone, Debug, PartialEq, Eq, Structural)]
pub struct MemoryAttribute {
    pub bits: usize,
}

impl MemoryAttribute {
    /// The attributes with exactly the given bits.
    pub fn from_bits_retain(bits: usize) -> (r: Self)
        ensures
            r.bits == bits,
    {
        MemoryAttribute { bits }
    }

    /// No attribute.
    pub fn empty() -> (r: Self)
        ensures
            r.bits == 0,
    {
        MemoryAttribute { bits: 0 }
    }

    /// The bits of the set.
    pub fn bits(&self) -> (r: usize)
        ensures
            r == self.bits,
    {
        self.bits
    }

    /// Both sets together.
    pub fn union(self, other: Self) -> (r: Self)
        ensures
            r.bits == self.bits | other.bits,
    {
        MemoryAttribute { bits: self.bits | other.bits }
    }

    /// Whether every bit of `other` is in the set.
    pub fn contains(&self, other: Self) -> (r: bool)
        ensures
            r == (self.bits & other.bits == other.bits),
    {
        self.bits & other.bits == other.bits
    }
}

/// Whether the descriptor is valid.
pub const DESC_VALID: u64 = 1 << 0;
/// The descriptor gives the address of the next table or of a 4 KiB page
/// (otherwise, of a block).
pub const DESC_NON_BLOCK: u64 = 1 << 1;
/// Memory attribute index.
pub const DESC_ATTR_INDEX: u64 = 0b111 << 2;
/// Non-secure bit.
pub const DESC_NS: u64 = 1 << 5;
/// Access permission: accessible from EL0.
pub const DESC_AP_EL0: u64 = 1 << 6;
/// Access permission: read-only.
pub const DESC_AP_RO: u64 = 1 << 7;
/// Shareability: inner shareable (otherwise outer shareable).
pub const DESC_INNER: u64 = 1 << 8;
/// Shareability: inner or outer shareable (otherwise non-shareable).
pub const DESC_SHAREABLE: u64 = 1 << 9;
/// Access flag.
pub const DESC_AF: u64 = 1 << 10;
/// Non-global flag.
pub const DESC_NG: u64 = 1 << 11;
/// One of a contiguous set of entries.
pub const DESC_CONT: u64 = 1 << 52;
/// Privileged execute-never.
pub const DESC_PXN: u64 = 1 << 53;
/// Execute-never, or unprivileged execute-never.
pub const DESC_UXN: u64 = 1 << 54;

/// The kind of memory a mapping refers to; the number is the MAIR index.
#[derive(Copy, Clone, Debug, PartialEq, Eq, Structural)]
pub enum MemoryType {
    Device,
    Normal,
}

/// The descriptor attribute bits of a translation table entry.
#[derive(Copy, Clone, Debug, PartialEq, Eq, Structural)]
pub struct DescriptorAttr {
    pub bits: u64,
}

/// `flag` when `cond` holds, nothing otherwise.
pub open spec fn bit_if(cond: bool, flag: u64) -> u64 {
    if cond {
        flag
    } else {
        0
    }
}

/// The attribute-index and shareability bits of a memory type: index 0 for
/// device memory; index 1, inner shareable for normal memory.
pub open spec fn memory_type_bits(t: MemoryType) -> u64 {
    match t {
        MemoryType::Device => 0,
        MemoryType::Normal => (1u64 << 2) | DESC_INNER | DESC_SHAREABLE,
    }
}

/// The descriptor bits for a set of memory attributes: device or normal
/// memory; valid when readable; read-only unless writable; user mappings are
/// never executable at EL1 and executable at EL0 only when executable;
/// kernel mappings are never executable at EL0 and executable at EL1 only
/// when executable.
pub open spec fn descriptor_bits(attr: usize) -> u64 {
    memory_type_bits(if has_attr(attr, ATTR_DEVICE) { MemoryType::Device } else { MemoryType::Normal })
        | bit_if(has_attr(attr, ATTR_READ), DESC_VALID)
        | bit_if(!has_attr(attr, ATTR_WRITE), DESC_AP_RO)
        | (if has_attr(attr, ATTR_USER) {
            DESC_AP_EL0 | DESC_PXN | bit_if(!has_attr(attr, ATTR_EXECUTE), DESC_UXN)
        } else {
            DESC_UXN | bit_if(!has_attr(attr, ATTR_EXECUTE), DESC_PXN)
        })
}

/// The attribute bits `attr` include all of `flag`.
pub open spec fn has_attr(attr: usize, flag: usize) -> bool {
    attr & flag == flag
}

impl DescriptorAttr {
    /// The descriptor bits of a memory type.
    pub fn from_memory_type(memory_type: MemoryType) -> (r: Self)
        ensures
            r.bits == memory_type_bits(memory_type),
    {
        let t: u64 = match memory_type {
            MemoryType::Device => 0,
            MemoryType::Normal => 1,
        };
        let mut bits: u64 = t << 2;
        if matches!(memory_type, MemoryType::Normal) {
            bits = bits | DESC_INNER | DESC_SHAREABLE;
        }
        proof {
            assert(0u64 << 2 == 0) by (bit_vector);
        }
        DescriptorAttr { bits }
    }

    /// The descriptor bits for a set of memory attributes.
    pub fn from(memory_attr: MemoryAttribute) -> (r: Self)
        ensures
            r.bits == descriptor_bits(memory_attr.bits),
            (r.bits & DESC_VALID != 0) == (memory_attr.bits & ATTR_READ == ATTR_READ),
            (r.bits & DESC_AP_RO != 0) == !(memory_attr.bits & ATTR_WRITE == ATTR_WRITE),
            (r.bits & DESC_AP_EL0 != 0) == (memory_attr.bits & ATTR_USER == ATTR_USER),
            (r.bits & DESC_PXN != 0) == (memory_attr.bits & ATTR_USER == ATTR_USER || !(memory_attr.bits & ATTR_EXECUTE == ATTR_EXECUTE)),
            (r.bits & DESC_UXN != 0) == (!(memory_attr.bits & ATTR_USER == ATTR_USER) || !(memory_attr.bits & ATTR_EXECUTE == ATTR_EXECUTE)),
            r.bits & DESC_ATTR_INDEX == (if memory_attr.bits & ATTR_DEVICE == ATTR_DEVICE { 0 } else { 1u64 << 2 }),
    {
        proof {
            lemma_descriptor_attr_bits(memory_attr.bits);
        }
        let device = MemoryAttribute::from_bits_retain(ATTR_DEVICE);
        let mut attr = if memory_attr.contains(device) {
            Self::from_memory_type(MemoryType::Device)
        } else {
            Self::from_memory_type(MemoryType::Normal)
        };
        if memory_attr.contains(MemoryAttribute::from_bits_retain(ATTR_READ)) {
            attr.bits = attr.bits | DESC_VALID;
        }
        if !memory_attr.contains(MemoryAttribute::from_bits_retain(ATTR_WRITE)) {
            attr.bits = attr.bits | DESC_AP_RO;
        }
        if memory_attr.contains(MemoryAttribute::from_bits_retain(ATTR_USER)) {
            attr.bits = attr.bits | (DESC_AP_EL0 | DESC_PXN);
            if !memory_attr.contains(MemoryAttribute::from_bits_retain(ATTR_EXECUTE)) {
                attr.bits = attr.bits | DESC_UXN;
            }
        } else {
            attr.bits = attr.bits | DESC_UXN;
            if !memory_attr.contains(MemoryAttribute::from_bits_retain(ATTR_EXECUTE)) {
                attr.bits = attr.bits | DESC_PXN;
            }
        }
        proof {
            assert(forall|a: u64, x: u64, y: u64| #![auto] (a | x) | y == a | (x | y)) by (bit_vector);
            assert(forall|a: u64| #![auto] a | 0 == a) by (bit_vector);
        }
        attr
    }
}

/// The meaning of each memory attribute in a descriptor: valid exactly when
/// readable; read-only exactly when not writable; accessible from EL0
/// exactly for user memory; user memory never executable at EL1 and kernel
/// memory never at EL0, each executable at its own level exactly when
/// executable; device memory with attribute index 0 and not shareable,
/// normal memory with index 1 and inner shareable; no other bit set.
pub proof fn lemma_descriptor_attr_bits(attr: usize)
    ensures
        ({
            let d = descriptor_bits(attr);
            let read = attr & ATTR_READ == ATTR_READ;
            let write = attr & ATTR_WRITE == ATTR_WRITE;
            let exec = attr & ATTR_EXECUTE == ATTR_EXECUTE;
            let user = attr & ATTR_USER == ATTR_USER;
            let device = attr & ATTR_DEVICE == ATTR_DEVICE;
            &&& (d & DESC_VALID != 0) == read
            &&& (d & DESC_AP_RO != 0) == !write
            &&& (d & DESC_AP_EL0 != 0) == user
            &&& (d & DESC_PXN != 0) == (user || !exec)
            &&& (d & DESC_UXN != 0) == (!user || !exec)
            &&& d & DESC_ATTR_INDEX == (if device { 0 } else { 1u64 << 2 })
            &&& d & (DESC_INNER | DESC_SHAREABLE) == (if device { 0 } else { DESC_INNER | DESC_SHAREABLE })
            &&& d & !(DESC_VALID | DESC_ATTR_INDEX | DESC_AP_EL0 | DESC_AP_RO | DESC_INNER | DESC_SHAREABLE | DESC_PXN
                | DESC_UXN) == 0
        }),
{
    let d = descriptor_bits(attr);
    let read = attr & ATTR_READ == ATTR_READ;
    let write = attr & ATTR_WRITE == ATTR_WRITE;
    let exec = attr & ATTR_EXECUTE == ATTR_EXECUTE;
    let user = attr & ATTR_USER == ATTR_USER;
    let device = attr & ATTR_DEVICE == ATTR_DEVICE;
    let m = memory_type_bits(if device { MemoryType::Device } else { MemoryType::Normal });
    let r1 = bit_if(read, DESC_VALID);
    let r2 = bit_if(!write, DESC_AP_RO);
    let r3 = if user {
        DESC_AP_EL0 | DESC_PXN | bit_if(!exec, DESC_UXN)
    } else {
        DESC_UXN | bit_if(!exec, DESC_PXN)
    };
    assert(d == m | r1 | r2 | r3);
    let u = bit_if(!exec, DESC_UXN);
    let x = bit_if(!exec, DESC_PXN);
    assert({
        &&& (d & DESC_VALID != 0) == read
        &&& (d & DESC_AP_RO != 0) == !write
        &&& (d & DESC_AP_EL0 != 0) == user
        &&& (d & DESC_PXN != 0) == (user || !exec)
        &&& (d & DESC_UXN != 0) == (!user || !exec)
        &&& d & DESC_ATTR_INDEX == (if device { 0 } else { 1u64 << 2 })
        &&& d & (DESC_INNER | DESC_SHAREABLE) == (if device { 0 } else { DESC_INNER | DESC_SHAREABLE })
        &&& d & !(DESC_VALID | DESC_ATTR_INDEX | DESC_AP_EL0 | DESC_AP_RO | DESC_INNER | DESC_SHAREABLE | DESC_PXN
            | DESC_UXN) == 0
    }) by (bit_vector)
        requires
            d == m | r1 | r2 | r3,
            device ==> m == 0,
            !device ==> m == (1u64 << 2) | DESC_INNER | DESC_SHAREABLE,
            read ==> r1 == DESC_VALID,
            !read ==> r1 == 0,
            write ==> r2 == 0,
            !write ==> r2 == DESC_AP_RO,
            exec ==> u == 0 && x == 0,
            !exec ==> u == DESC_UXN && x == DESC_PXN,
            user ==> r3 == DESC_AP_EL0 | DESC_PXN | u,
            !user ==> r3 == DESC_UXN | x,
    ;
}

/// A page entry carries the meaning of each memory attribute: valid exactly
/// when readable, read-only exactly when not writable, accessible from EL0
/// exactly for user memory, execute-never as the attributes say; its access
/// flag is set, it is a block entry exactly when asked to be, and it holds
/// the masked output address.
pub proof fn lemma_page_entry_attr_bits(attr: usize, is_huge: bool, p: u64)
    ensures
        ({
            let e = (descriptor_bits(attr) | DESC_AF | bit_if(!is_huge, DESC_NON_BLOCK)) | (p & PTE_ADDR_MASK);
            let read = attr & ATTR_READ == ATTR_READ;
            let write = attr & ATTR_WRITE == ATTR_WRITE;
            let exec = attr & ATTR_EXECUTE == ATTR_EXECUTE;
            let user = attr & ATTR_USER == ATTR_USER;
            &&& (e & DESC_VALID != 0) == read
            &&& (e & DESC_AP_RO != 0) == !write
            &&& (e & DESC_AP_EL0 != 0) == user
            &&& (e & DESC_PXN != 0) == (user || !exec)
            &&& (e & DESC_UXN != 0) == (!user || !exec)
            &&& e & DESC_AF != 0
            &&& (e & DESC_NON_BLOCK == 0) == is_huge
            &&& e & PTE_ADDR_MASK == p & PTE_ADDR_MASK
        }),
{
    lemma_descriptor_attr_bits(attr);
    let d = descriptor_bits(attr);
    let n = bit_if(!is_huge, DESC_NON_BLOCK);
    let e = (d | DESC_AF | n) | (p & PTE_ADDR_MASK);
    assert({
        &&& (e & DESC_VALID) == (d & DESC_VALID)
        &&& (e & DESC_AP_RO) == (d & DESC_AP_RO)
        &&& (e & DESC_AP_EL0) == (d & DESC_AP_EL0)
        &&& (e & DESC_PXN) == (d & DESC_PXN)
        &&& (e & DESC_UXN) == (d & DESC_UXN)
        &&& e & DESC_AF != 0
        &&& (e & DESC_NON_BLOCK == 0) == (n == 0)
        &&& e & PTE_ADDR_MASK == p & PTE_ADDR_MASK
    }) by (bit_vector)
        requires
            e == (d | DESC_AF | n) | (p & PTE_ADDR_MASK),
            d & !(DESC_VALID | DESC_ATTR_INDEX | DESC_AP_EL0 | DESC_AP_RO | DESC_INNER | DESC_SHAREABLE | DESC_PXN
                | DESC_UXN) == 0,
            n == 0 || n == DESC_NON_BLOCK,
    ;
    assert((n == 0) == is_huge) by {
        lemma_page_entry(attr, is_huge, p);
    }
}

/// The bits of an entry that hold the output address (bits 12 to 47).
pub const PTE_ADDR_MASK: u64 = 0x0000_FFFF_FFFF_F000;

/// The entry's valid bit is set.
pub open spec fn pte_valid(e: u64) -> bool {
    e & DESC_VALID != 0
}

/// The entry maps a block.
pub open spec fn pte_huge(e: u64) -> bool {
    e & DESC_NON_BLOCK == 0
}

/// The output address held in an entry.
pub open spec fn pte_paddr(e: u64) -> u64 {
    e & PTE_ADDR_MASK
}

/// The unused entry is not valid, and reads as a block entry.
pub proof fn lemma_zero_entry()
    ensures
        !pte_valid(0u64),
        pte_huge(0u64),
{
    assert(0u64 & DESC_VALID == 0 && 0u64 & DESC_NON_BLOCK == 0) by (bit_vector);
}

/// A valid entry is not unused.
pub proof fn lemma_valid_nonzero(e: u64)
    ensures
        pte_valid(e) ==> e != 0,
{
    assert(e & DESC_VALID != 0 ==> e != 0) by (bit_vector);
}

/// A table entry for a page-aligned address below `2^48` is valid, points to
/// a table (not a block) and gives that address back.
pub proof fn lemma_table_entry(p: u64)
    requires
        p % 4096 == 0,
        p < 0x1_0000_0000_0000,
    ensures
        ({
            let e = (DESC_NON_BLOCK | DESC_VALID) | (p & PTE_ADDR_MASK);
            &&& pte_valid(e)
            &&& !pte_huge(e)
            &&& e != 0
            &&& pte_paddr(e) == p
        }),
{
    assert(p & 0xfff == 0) by (bit_vector)
        requires p % 4096 == 0;
    assert(({
        let e = (DESC_NON_BLOCK | DESC_VALID) | (p & PTE_ADDR_MASK);
        &&& pte_valid(e)
        &&& !pte_huge(e)
        &&& e != 0
        &&& pte_paddr(e) == p
    })) by (bit_vector)
        requires p & 0xfff == 0, p < 0x1_0000_0000_0000;
}

/// A page entry is never unused, is a block exactly when asked to be, and
/// holds the masked address.
pub proof fn lemma_page_entry(attr: usize, is_huge: bool, p: u64)
    ensures
        ({
            let e = (descriptor_bits(attr) | DESC_AF | bit_if(!is_huge, DESC_NON_BLOCK)) | (p & PTE_ADDR_MASK);
            &&& e != 0
            &&& pte_huge(e) == is_huge
            &&& pte_paddr(e) == p & PTE_ADDR_MASK
        }),
{
    let d = descriptor_bits(attr);
    let m = memory_type_bits(if has_attr(attr, ATTR_DEVICE) { MemoryType::Device } else { MemoryType::Normal });
    let r1 = bit_if(has_attr(attr, ATTR_READ), DESC_VALID);
    let r2 = bit_if(!has_attr(attr, ATTR_WRITE), DESC_AP_RO);
    let r3 = if has_attr(attr, ATTR_USER) {
        DESC_AP_EL0 | DESC_PXN | bit_if(!has_attr(attr, ATTR_EXECUTE), DESC_UXN)
    } else {
        DESC_UXN | bit_if(!has_attr(attr, ATTR_EXECUTE), DESC_PXN)
    };
    assert(m & DESC_NON_BLOCK == 0 && m & PTE_ADDR_MASK == 0) by {
        assert(((1u64 << 2) | DESC_INNER | DESC_SHAREABLE) & DESC_NON_BLOCK == 0) by (bit_vector);
        assert(((1u64 << 2) | DESC_INNER | DESC_SHAREABLE) & PTE_ADDR_MASK == 0) by (bit_vector);
        assert(0u64 & DESC_NON_BLOCK == 0 && 0u64 & PTE_ADDR_MASK == 0) by (bit_vector);
    }
    assert(r3 & DESC_NON_BLOCK == 0 && r3 & PTE_ADDR_MASK == 0) by {
        let u = bit_if(!has_attr(attr, ATTR_EXECUTE), DESC_UXN);
        let x = bit_if(!has_attr(attr, ATTR_EXECUTE), DESC_PXN);
        assert(u == 0 || u == DESC_UXN);
        assert(x == 0 || x == DESC_PXN);
        assert((u == 0 || u == DESC_UXN) ==> (DESC_AP_EL0 | DESC_PXN | u) & DESC_NON_BLOCK == 0
            && (DESC_AP_EL0 | DESC_PXN | u) & PTE_ADDR_MASK == 0) by (bit_vector);
        assert((x == 0 || x == DESC_PXN) ==> (DESC_UXN | x) & DESC_NON_BLOCK == 0
            && (DESC_UXN | x) & PTE_ADDR_MASK == 0) by (bit_vector);
    }
    assert(r1 == 0 || r1 == DESC_VALID);
    assert(r2 == 0 || r2 == DESC_AP_RO);
    assert(d & DESC_NON_BLOCK == 0 && d & PTE_ADDR_MASK == 0) by (bit_vector)
        requires
            d == m | r1 | r2 | r3,
            m & DESC_NON_BLOCK == 0,
            r3 & DESC_NON_BLOCK == 0,
            m & PTE_ADDR_MASK == 0,
            r3 & PTE_ADDR_MASK == 0,
            r1 == 0 || r1 == DESC_VALID,
            r2 == 0 || r2 == DESC_AP_RO,
    ;
    let n = bit_if(!is_huge, DESC_NON_BLOCK);
    assert(DESC_NON_BLOCK != 0) by (bit_vector);
    assert((n == 0) == is_huge);
    assert(({
        let e = (d | DESC_AF | n) | (p & PTE_ADDR_MASK);
        &&& e != 0
        &&& (e & DESC_NON_BLOCK == 0) == (n == 0)
        &&& e & PTE_ADDR_MASK == p & PTE_ADDR_MASK
    })) by (bit_vector)
        requires d & DESC_NON_BLOCK == 0, d & PTE_ADDR_MASK == 0, n == 0 || n == DESC_NON_BLOCK;
}

/// A translation table entry.
#[derive(Copy, Clone, Debug, PartialEq, Eq, Structural)]
pub struct PTE(pub u64);

impl PTE {
    /// The entry with no bit set.
    pub fn empty() -> (r: Self)
        ensures
            r.0 == 0,
    {
        PTE(0)
    }

    /// An entry mapping the page or block at `paddr` with the given
    /// attributes; `is_huge` makes it a block entry.
    pub fn new_page(paddr: PhysAddr, attr: MemoryAttribute, is_huge: bool) -> (r: Self)
        ensures
            r.0 == (descriptor_bits(attr.bits) | DESC_AF | bit_if(!is_huge, DESC_NON_BLOCK)) | (
            paddr.0 & PTE_ADDR_MASK),
            (r.0 & DESC_VALID != 0) == (attr.bits & ATTR_READ == ATTR_READ),
            (r.0 & DESC_AP_RO != 0) == !(attr.bits & ATTR_WRITE == ATTR_WRITE),
            (r.0 & DESC_AP_EL0 != 0) == (attr.bits & ATTR_USER == ATTR_USER),
            r.0 & DESC_AF != 0,
            (r.0 & DESC_NON_BLOCK == 0) == is_huge,
            r.0 & PTE_ADDR_MASK == paddr.0 & PTE_ADDR_MASK,
    {
        proof {
            lemma_page_entry_attr_bits(attr.bits, is_huge, paddr.0);
        }
        let mut a = DescriptorAttr::from(attr);
        a.bits = a.bits | DESC_AF;
        if !is_huge {
            a.bits = a.bits | DESC_NON_BLOCK;
        }
        proof {
            assert(forall|x: u64| #![auto] x | 0 == x) by (bit_vector);
        }
        PTE(a.bits | (paddr.0 & PTE_ADDR_MASK))
    }

    /// Whether no bit of the entry is set.
    pub fn is_unused(&self) -> (r: bool)
        ensures
            r == (self.0 == 0),
    {
        self.0 == 0
    }

    /// Whether the entry is valid.
    pub fn is_valid(&self) -> (r: bool)
        ensures
            r == (self.0 & DESC_VALID != 0),
    {
        self.0 & DESC_VALID != 0
    }

    /// Whether the entry maps a block rather than pointing to a table or a
    /// 4 KiB page.
    pub fn is_huge(&self) -> (r: bool)
        ensures
            r == (self.0 & DESC_NON_BLOCK == 0),
    {
        self.0 & DESC_NON_BLOCK == 0
    }

    /// The output address held in the entry.
    pub fn paddr(&self) -> (r: PhysAddr)
        ensures
            r.0 == self.0 & PTE_ADDR_MASK,
    {
        PhysAddr(self.0 & PTE_ADDR_MASK)
    }

    /// Clears every bit of the entry.
    pub fn clear(&mut self)
        ensures
            final(self).0 == 0,
    {
        self.0 = 0;
    }

    /// The entry pointing to the next-level table at `paddr`.
    pub open spec fn new_table_spec(paddr: PhysAddr) -> PTE {
        PTE((DESC_NON_BLOCK | DESC_VALID) | (paddr.0 & PTE_ADDR_MASK))
    }

    /// An entry pointing to the next-level table at `paddr`.
    pub fn new_table(paddr: PhysAddr) -> (r: Self)
        ensures
            r == Self::new_table_spec(paddr),
            r.0 == (DESC_NON_BLOCK | DESC_VALID) | (paddr.0 & PTE_ADDR_MASK),
    {
        PTE((DESC_NON_BLOCK | DESC_VALID) | (paddr.0 & PTE_ADDR_MASK))
    }
}

} // verus!
