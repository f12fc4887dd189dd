use vstd::prelude::*;

verus! {

/// Size of one page frame in bytes.
pub const PGSIZE: u64 = 4096;

/// Number of low address bits that select a byte within a page.
pub const PGSHIFT: u64 = 12;

/// Amount of physical memory that the kernel manages.
pub const MAXPA: u64 = 512 * 1024 * 1024;

/// Number of page frames in `MAXPA` bytes of physical memory.
pub const NPAGE: u64 = MAXPA / PGSIZE;

/// Base of the kernel half of the address space.
pub const KERNEL_BASE: u64 = 0xFFFFFF0000000000;

/// Kernel virtual address of the frame-descriptor array.
pub const KERNEL_PAGES: u64 = 0xFFFFFF0000000000 + 0x01400000;

/// Address of the user frame-descriptor array.
pub const USER_PAGES: u64 = 0x1fd00000;

/// Number of descriptors in the user frame-descriptor array.
pub const USER_NPAGE: u64 = 768;

/// Top of the initial user stack.
pub const USTACKTOP: u64 = 0x1f000000;

/// Number of pages mapped below `USTACKTOP` as the initial user stack.
pub const USTACK_PAGES: u64 = 4;

/// Entries in one page-table level.
pub const PTE2PT: u64 = 512;

/// Bytes taken by one frame descriptor in the descriptor array.
pub const PAGE_DESC_SIZE: u64 = 24;

/// Table-entry valid bits.
pub const PTE_V: u64 = 0x3;
/// Block-entry valid bit.
pub const PBE_V: u64 = 0x1;
/// Read/write at EL1 only.
pub const ATTRIB_AP_RW_EL1: u64 = 0x0 << 6;
/// Read/write at every exception level.
pub const ATTRIB_AP_RW_ALL: u64 = 0x1 << 6;
/// Read-only at EL1 only.
pub const ATTRIB_AP_RO_EL1: u64 = 0x2 << 6;
/// Read-only at every exception level.
pub const ATTRIB_AP_RO_ALL: u64 = 0x3 << 6;
/// Non-shareable memory.
pub const ATTRIB_SH_NON_SHAREABLE: u64 = 0x0 << 8;
/// Outer-shareable memory.
pub const ATTRIB_SH_OUTER_SHAREABLE: u64 = 0x2 << 8;
/// Inner-shareable memory.
pub const ATTRIB_SH_INNER_SHAREABLE: u64 = 0x3 << 8;
/// Access flag.
pub const AF: u64 = 0x1 << 10;
/// Privileged execute-never (clear).
pub const PXN: u64 = 0x0 << 53;
/// Unprivileged execute-never.
pub const UXN: u64 = 0x1 << 54;
/// Normal memory attribute index.
pub const ATTRINDX_NORMAL: u64 = 0 << 2;
/// Device memory attribute index.
pub const ATTRINDX_DEVICE: u64 = 1 << 2;
/// Strongly ordered device memory attribute index.
pub const ATTRINDX_COHERENT: u64 = 2 << 2;

/// The index that selects the entry of page-table level `level` (0 to 3) for `va`.
/// Each index is nine bits of the address: bits 39 to 47, 30 to 38, 21 to
/// 29 and 12 to 20.
pub open spec fn pt_index(va: u64, level: int) -> int {
    if level == 0 {
        (va as int / 0x80_0000_0000) % 512
    } else if level == 1 {
        (va as int / 0x4000_0000) % 512
    } else if level == 2 {
        (va as int / 0x20_0000) % 512
    } else {
        (va as int / 0x1000) % 512
    }
}

/// Level-0 table index of `va`.
#[allow(non_snake_case)]
pub fn PT0X(va: u64) -> (r: u64)
    ensures
        r == pt_index(va, 0),
        r < 512,
{
    assert(((va >> 39) & 0x1FF) == (va / 0x80_0000_0000) % 512) by (bit_vector);
    (va >> 39) & 0x1FF
}

/// Level-1 table index of `va`.
#[allow(non_snake_case)]
pub fn PT1X(va: u64) -> (r: u64)
    ensures
        r == pt_index(va, 1),
        r < 512,
{
    assert(((va >> 30) & 0x1FF) == (va / 0x4000_0000) % 512) by (bit_vector);
    (va >> 30) & 0x1FF
}

/// Level-2 table index of `va`.
#[allow(non_snake_case)]
pub fn PT2X(va: u64) -> (r: u64)
    ensures
        r == pt_index(va, 2),
        r < 512,
{
    assert(((va >> 21) & 0x1FF) == (va / 0x20_0000) % 512) by (bit_vector);
    (va >> 21) & 0x1FF
}

/// Level-3 table index of `va`.
#[allow(non_snake_case)]
pub fn PT3X(va: u64) -> (r: u64)
    ensures
        r == pt_index(va, 3),
        r < 512,
{
    assert(((va >> 12) & 0x1FF) == (va / 0x1000) % 512) by (bit_vector);
    (va >> 12) & 0x1FF
}

/// The frame address held in a page-table entry: bits 12 to 39.
pub open spec fn pte_addr(pte: u64) -> int {
    (pte as int % 0x100_0000_0000) / 0x1000 * 0x1000
}

/// Frame address held in the page-table entry `pte`.
#[allow(non_snake_case)]
pub fn PTE_ADDR(pte: u64) -> (r: u64)
    ensures
        r == pte_addr(pte),
{
    assert((pte & 0xFFFFFFF000) == (pte % 0x100_0000_0000) / 0x1000 * 0x1000) by (bit_vector);
    pte & 0xFFFFFFF000
}

/// Byte offset of `addr` within its page.
#[allow(non_snake_case)]
pub fn OFFSET(addr: u64) -> (r: u64)
    ensures
        r == addr % PGSIZE,
{
    assert((addr & 0xFFF) == addr % 4096) by (bit_vector);
    addr & 0xFFF
}

/// Page number of the address `va`.
#[allow(non_snake_case)]
pub fn PPN(va: u64) -> (r: u64)
    ensures
        r == va / PGSIZE,
{
    assert((va >> 12) == va / 4096) by (bit_vector);
    va >> 12
}

/// Page number of `va` within the low 40 bits of the address space.
#[allow(non_snake_case)]
pub fn VPN(va: u64) -> (r: u64)
    ensures
        r == (va % 0x100_0000_0000) / PGSIZE,
{
    assert(((va & 0xFFFFFFFFFF) >> 12) == (va % 0x100_0000_0000) / 4096) by (bit_vector);
    (va & 0xFFFFFFFFFF) >> 12
}

/// Kernel virtual address of the physical address `pa`.
#[allow(non_snake_case)]
pub fn KADDR(pa: u64) -> (r: u64)
    ensures
        r == KERNEL_BASE + pa % 0x100_0000_0000,
{
    assert((pa | 0xFFFFFF0000000000) == 0xFFFFFF0000000000 + pa % 0x100_0000_0000) by (bit_vector);
    pa | 0xFFFFFF0000000000
}

/// Physical address of the kernel virtual address `va`.
#[allow(non_snake_case)]
pub fn PADDR(va: u64) -> (r: u64)
    ensures
        r == va % 0x100_0000_0000,
{
    assert((va & 0x000000FFFFFFFFFF) == va % 0x100_0000_0000) by (bit_vector);
    va & 0x000000FFFFFFFFFF
}

/// Page-aligned part of the low 48 bits of `va`.
#[allow(non_snake_case)]
pub fn VA2PFN(va: u64) -> (r: u64)
    ensures
        r == (va % 0x1_0000_0000_0000) / PGSIZE * PGSIZE,
{
    assert((va & 0xFFFFFFFFF000) == (va % 0x1_0000_0000_0000) / 4096 * 4096) by (bit_vector);
    va & 0xFFFFFFFFF000
}

/// Physical page number of the frame whose descriptor lives at `page` in the
/// kernel descriptor array.
pub fn page2ppn(page: u64) -> (r: u64)
    requires
        page >= KERNEL_PAGES,
    ensures
        r == (page - KERNEL_PAGES) / (PAGE_DESC_SIZE as int),
{
    (page - KERNEL_PAGES) / PAGE_DESC_SIZE
}

/// Physical address of the frame whose descriptor lives at `page`.
pub fn page2pa(page: u64) -> (r: u64)
    requires
        page >= KERNEL_PAGES,
    ensures
        r == (page - KERNEL_PAGES) / (PAGE_DESC_SIZE as int) * (PGSIZE as int),
{
    let ppn = page2ppn(page);
    assert(ppn < 0x10_0000_0000_0000) by (nonlinear_arith)
        requires ppn == (page - KERNEL_PAGES) / 24, page <= 0xFFFF_FFFF_FFFF_FFFF;
    assert((ppn << 12) == ppn * 4096) by (bit_vector)
        requires ppn < 0x10_0000_0000_0000;
    ppn << 12
}

/// Kernel virtual address of the frame whose descriptor lives at `page`.
pub fn page2kva(page: u64) -> (r: u64)
    requires
        page >= KERNEL_PAGES,
    ensures
        r == KERNEL_BASE + ((page - KERNEL_PAGES) / (PAGE_DESC_SIZE as int) * (PGSIZE as int)) % 0x100_0000_0000,
{
    KADDR(page2pa(page))
}

/// Address of the descriptor, in the kernel descriptor array, of the frame
/// that holds the physical address `pa`.
pub fn pa2page(pa: u64) -> (r: u64)
    requires
        pa / PGSIZE < NPAGE,
    ensures
        r == KERNEL_PAGES + (pa / PGSIZE) * PAGE_DESC_SIZE,
{
    KERNEL_PAGES + PPN(pa) * PAGE_DESC_SIZE
}

/// Address of the descriptor, in the user descriptor array, of the page
/// that holds the address `pa`.
pub fn user_pa2page(pa: u64) -> (r: u64)
    requires
        pa / PGSIZE < USER_NPAGE,
    ensures
        r == USER_PAGES + (pa / PGSIZE) * PAGE_DESC_SIZE,
{
    USER_PAGES + PPN(pa) * PAGE_DESC_SIZE
}

/// User virtual address of the frame whose descriptor lives at `page` in the
/// user descriptor array.
pub fn page2va(page: u64) -> (r: u64)
    requires
        USER_PAGES <= page < USER_PAGES + USER_NPAGE * PAGE_DESC_SIZE,
    ensures
        r == (page - USER_PAGES) / (PAGE_DESC_SIZE as int) * (PGSIZE as int),
{
    let ppn = (page - USER_PAGES) / PAGE_DESC_SIZE;
    assert((ppn << 12) == ppn * 4096) by (bit_vector)
        requires ppn < 0x10_0000_0000_0000;
    ppn << 12
}

/// True when `align` is a power of two.
pub open spec fn is_pow2(align: u64) -> bool {
    align > 0 && align & ((align - 1) as u64) == 0
}

/// The page size is a power of two.
pub proof fn lemma_pgsize_pow2()
    ensures
        is_pow2(PGSIZE),
{
    assert(4096u64 & 4095u64 == 0) by (bit_vector);
}

/// Aligns `addr` downwards to a multiple of `align`, a power of two.
pub fn align_down(addr: u64, align: u64) -> (r: u64)
    requires
        is_pow2(align),
    ensures
        r == addr / align * align,
        r <= addr,
        r % align == 0,
        addr - r < align,
{
    let q = addr / align;
    proof {
        assert(q * align <= addr) by (nonlinear_arith)
            requires q == addr / align, align > 0;
        assert(addr - q * align < align) by (nonlinear_arith)
            requires q == addr / align, align > 0;
        assert((q * align) % (align as int) == 0) by (nonlinear_arith)
            requires align > 0;
    }
    q * align
}

/// Aligns `addr` upwards to a multiple of `align`, a power of two. The
/// rounded value must fit in a machine word.
pub fn align_up(addr: u64, align: u64) -> (r: u64)
    requires
        is_pow2(align),
        addr + align - 1 <= u64::MAX,
    ensures
        r == (addr + align - 1) / align as int * align,
        r >= addr,
        r % align == 0,
        r - addr < align,
{
    let s = addr + (align - 1);
    let q = s / align;
    proof {
        assert(q * align <= s) by (nonlinear_arith)
            requires q == s / align, align > 0;
        assert(s - q * align < align) by (nonlinear_arith)
            requires q == s / align, align > 0;
        assert((q * align) % (align as int) == 0) by (nonlinear_arith)
            requires align > 0;
    }
    q * align
}

/// Descriptor of one physical page frame.
#[derive(Clone, Copy, Debug)]
pub struct Page {
    /// Number of mappings that refer to the frame.
    pub reference: i32,
    /// Reserved (bit 0), head of a free run (bit 1), allocated (bit 2).
    pub flags: u32,
    /// Length of the free run that starts here; meaningful on run heads.
    pub property: u32,
}

/// Flag bit of a reserved frame.
pub const PG_RESERVED: u32 = 0x1;
/// Flag bit of the head of a free run.
pub const PG_PROPERTY: u32 = 0x2;
/// Flag bit of an allocated frame.
pub const PG_USED: u32 = 0x4;

impl Page {
    /// A descriptor with no flags, no references and no run.
    pub fn new() -> (r: Page)
        ensures
            r.reference == 0,
            r.flags == 0,
            r.property == 0,
    {
        Page { reference: 0, flags: 0, property: 0 }
    }

    #[allow(non_snake_case)]
    pub fn SetPageReserved(&mut self)
        ensures
            final(self).flags == old(self).flags | PG_RESERVED,
            final(self).reference == old(self).reference,
            final(self).property == old(self).property,
    {
        self.flags = self.flags | PG_RESERVED;
    }

    #[allow(non_snake_case)]
    pub fn SetPageProperty(&mut self)
        ensures
            final(self).flags == old(self).flags | PG_PROPERTY,
            final(self).reference == old(self).reference,
            final(self).property == old(self).property,
    {
        self.flags = self.flags | PG_PROPERTY;
    }

    #[allow(non_snake_case)]
    pub fn SetPageUsed(&mut self)
        ensures
            final(self).flags == old(self).flags | PG_USED,
            final(self).reference == old(self).reference,
            final(self).property == old(self).property,
    {
        self.flags = self.flags | PG_USED;
    }

    /// Whether the allocated bit is set.
    #[allow(non_snake_case)]
    pub fn isUsed(&mut self) -> (r: bool)
        ensures
            r == (old(self).flags & PG_USED != 0),
            *final(self) == *old(self),
    {
        let f = self.flags;
        assert(((f >> 2) & 0x1 == 1) == (f & 0x4 != 0)) by (bit_vector);
        (self.flags >> 2) & 0x1 == 1
    }

    #[allow(non_snake_case)]
    pub fn ClearPageProperty(&mut self)
        ensures
            final(self).flags == old(self).flags & !PG_PROPERTY,
            final(self).reference == old(self).reference,
            final(self).property == old(self).property,
    {
        let f = self.flags;
        assert((f & 0xfffffffd) == (f & !(2u32 as u32))) by (bit_vector);
        self.flags = self.flags & 0xfffffffd;
    }

    #[allow(non_snake_case)]
    pub fn ClearPageReserved(&mut self)
        ensures
            final(self).flags == old(self).flags & !PG_RESERVED,
            final(self).reference == old(self).reference,
            final(self).property == old(self).property,
    {
        let f = self.flags;
        assert((f & 0xfffffffe) == (f & !(1u32 as u32))) by (bit_vector);
        self.flags = self.flags & 0xfffffffe;
    }

    #[allow(non_snake_case)]
    pub fn ClearPageUsed(&mut self)
        ensures
            final(self).flags == old(self).flags & !PG_USED,
            final(self).reference == old(self).reference,
            final(self).property == old(self).property,
    {
        let f = self.flags;
        assert((f & 0xfffffffb) == (f & !(4u32 as u32))) by (bit_vector);
        self.flags = self.flags & 0xfffffffb;
    }

    /// Sets the reference count to `val`.
    pub fn set_page_ref(&mut self, val: i32)
        ensures
            final(self).reference == val,
            final(self).flags == old(self).flags,
            final(self).property == old(self).property,
    {
        self.reference = val;
    }

    /// Decrements the reference count and returns the new count.
    pub fn page_ref_dec(&mut self) -> (r: i32)
        requires
            old(self).reference > i32::MIN,
        ensures
            r == old(self).reference - 1,
            final(self).reference == r,
            final(self).flags == old(self).flags,
            final(self).property == old(self).property,
    {
        self.reference = self.reference - 1;
        self.reference
    }

    /// Increments the reference count and returns the new count.
    pub fn page_ref_inc(&mut self) -> (r: i32)
        requires
            old(self).reference < i32::MAX,
        ensures
            r == old(self).reference + 1,
            final(self).reference == r,
            final(self).flags == old(self).flags,
            final(self).property == old(self).property,
    {
        self.reference = self.reference + 1;
        self.reference
    }
}

} // verus!
