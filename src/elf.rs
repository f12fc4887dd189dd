use vstd::prelude::*;

verus! {

/// The ELF magic number, read little-endian from the first four bytes.
pub const ELF_MAGIC: u32 = 0x464C457F;

/// Type of a loadable segment.
pub const PT_LOAD: u32 = 1;

/// Bytes of the file header.
pub const ELFHDR_SIZE: usize = 64;

/// Bytes of one program header.
pub const PROGHDR_SIZE: usize = 56;

/// Little-endian value of the `n` bytes of `b` from offset `o` on.
pub open spec fn le(b: Seq<u8>, o: int, n: nat) -> nat
    decreases n,
{
    if n == 0 {
        0
    } else {
        b[o] as nat + 256 * le(b, o + 1, (n - 1) as nat)
    }
}

/// Reads a little-endian `u16` at `o`.
fn read_u16(b: &[u8], o: usize) -> (r: u16)
    requires
        o + 2 <= b@.len(),
    ensures
        r == le(b@, o as int, 2),
{
    proof {
        reveal_with_fuel(le, 3);
    }
    (b[o] as u16) + (b[o + 1] as u16) * 0x100
}

/// Reads a little-endian `u32` at `o`.
fn read_u32(b: &[u8], o: usize) -> (r: u32)
    requires
        o + 4 <= b@.len(),
    ensures
        r == le(b@, o as int, 4),
{
    let len = b.len();
    assert(o + 4 <= len);
    let lo = read_u16(b, o);
    let hi = read_u16(b, o + 2);
    proof {
        lemma_le_split(b@, o as int, 2, 2);
        reveal_with_fuel(pow256, 3);
        assert(pow256(2) == 0x10000);
        assert(le(b@, o as int, 4) == le(b@, o as int, 2) + 0x10000 * le(b@, o + 2, 2));
    }
    (lo as u32) + (hi as u32) * 0x10000
}

/// Reads a little-endian `u64` at `o`.
fn read_u64(b: &[u8], o: usize) -> (r: u64)
    requires
        o + 8 <= b@.len(),
    ensures
        r == le(b@, o as int, 8),
{
    let len = b.len();
    assert(o + 8 <= len);
    let lo = read_u32(b, o);
    let hi = read_u32(b, o + 4);
    proof {
        lemma_le_split(b@, o as int, 4, 4);
        reveal_with_fuel(pow256, 5);
        assert(pow256(4) == 0x1_0000_0000);
    }
    (lo as u64) + (hi as u64) * 0x1_0000_0000
}

/// A little-endian number splits into its low and high parts.
proof fn lemma_le_split(b: Seq<u8>, o: int, m: nat, n: nat)
    ensures
        le(b, o, m + n) == le(b, o, m) + pow256(m) * le(b, o + m, n),
        le(b, o + m, n) < pow256(n),
        le(b, o, m) < pow256(m),
    decreases m,
{
    lemma_le_bound(b, o + m, n);
    lemma_le_bound(b, o, m);
    if m > 0 {
        lemma_le_split(b, o + 1, (m - 1) as nat, n);
        assert(le(b, o, m + n) == b[o] as nat + 256 * le(b, o + 1, (m + n - 1) as nat));
        assert((m - 1) as nat + n == (m + n - 1) as nat);
        assert(pow256(m) == 256 * pow256((m - 1) as nat));
        assert(le(b, o, m + n) == le(b, o, m) + pow256(m) * le(b, o + m, n)) by (nonlinear_arith)
            requires
                le(b, o, m + n) == b[o] as nat + 256 * le(b, o + 1, (m + n - 1) as nat),
                le(b, o + 1, (m + n - 1) as nat) == le(b, o + 1, (m - 1) as nat) + pow256((m - 1) as nat) * le(b, o + 1 + (m - 1), n),
                le(b, o, m) == b[o] as nat + 256 * le(b, o + 1, (m - 1) as nat),
                pow256(m) == 256 * pow256((m - 1) as nat),
                o + 1 + (m - 1) == o + m;
    } else {
        assert(pow256(0) == 1);
        assert(le(b, o, 0) == 0);
        assert(m + n == n);
    }
}

/// `256` to the power `n`.
pub open spec fn pow256(n: nat) -> nat
    decreases n,
{
    if n == 0 { 1 } else { 256 * pow256((n - 1) as nat) }
}

/// A little-endian number of `n` bytes is below `256` to the power `n`.
proof fn lemma_le_bound(b: Seq<u8>, o: int, n: nat)
    ensures
        le(b, o, n) < pow256(n),
    decreases n,
{
    if n > 0 {
        lemma_le_bound(b, o + 1, (n - 1) as nat);
        let x = b[o] as nat;
        assert(x <= 255);
        assert(le(b, o, n) < pow256(n)) by (nonlinear_arith)
            requires
                le(b, o, n) == x + 256 * le(b, o + 1, (n - 1) as nat),
                le(b, o + 1, (n - 1) as nat) < pow256((n - 1) as nat),
                pow256(n) == 256 * pow256((n - 1) as nat),
                x <= 255;
    }
}

/// The file header of an executable image.
#[derive(Clone, Copy, Debug, PartialEq, Eq, Structural)]
pub struct Elfhdr {
    pub e_magic: u32,
    pub e_type: u16,
    pub e_machine: u16,
    pub e_version: u32,
    pub e_entry: u64,
    pub e_phoff: u64,
    pub e_shoff: u64,
    pub e_flags: u32,
    pub e_ehsize: u16,
    pub e_phentsize: u16,
    pub e_phnum: u16,
    pub e_shentsize: u16,
    pub e_shnum: u16,
    pub e_shstrndx: u16,
}

/// One program header of an executable image.
#[derive(Clone, Copy, Debug, PartialEq, Eq, Structural)]
pub struct Proghdr {
    pub p_type: u32,
    pub p_flags: u32,
    pub p_offset: u64,
    pub p_va: u64,
    pub p_pa: u64,
    pub p_filesz: u64,
    pub p_memsz: u64,
    pub p_align: u64,
}

/// The file header held by the first bytes of `b`.
pub open spec fn elfhdr_of(b: Seq<u8>) -> Elfhdr {
    Elfhdr {
        e_magic: le(b, 0, 4) as u32,
        e_type: le(b, 16, 2) as u16,
        e_machine: le(b, 18, 2) as u16,
        e_version: le(b, 20, 4) as u32,
        e_entry: le(b, 24, 8) as u64,
        e_phoff: le(b, 32, 8) as u64,
        e_shoff: le(b, 40, 8) as u64,
        e_flags: le(b, 48, 4) as u32,
        e_ehsize: le(b, 52, 2) as u16,
        e_phentsize: le(b, 54, 2) as u16,
        e_phnum: le(b, 56, 2) as u16,
        e_shentsize: le(b, 58, 2) as u16,
        e_shnum: le(b, 60, 2) as u16,
        e_shstrndx: le(b, 62, 2) as u16,
    }
}

/// The program header held by the bytes of `b` from offset `o` on.
pub open spec fn proghdr_of(b: Seq<u8>, o: int) -> Proghdr {
    Proghdr {
        p_type: le(b, o, 4) as u32,
        p_flags: le(b, o + 4, 4) as u32,
        p_offset: le(b, o + 8, 8) as u64,
        p_va: le(b, o + 16, 8) as u64,
        p_pa: le(b, o + 24, 8) as u64,
        p_filesz: le(b, o + 32, 8) as u64,
        p_memsz: le(b, o + 40, 8) as u64,
        p_align: le(b, o + 48, 8) as u64,
    }
}

impl Elfhdr {
    /// Reads the file header at the start of `b`; `None` when `b` is shorter.
    pub fn parse(b: &[u8]) -> (r: Option<Elfhdr>)
        ensures
            r == if b@.len() >= ELFHDR_SIZE { Some(elfhdr_of(b@)) } else { None::<Elfhdr> },
    {
        if b.len() < ELFHDR_SIZE {
            return None;
        }
        Some(Elfhdr {
            e_magic: read_u32(b, 0),
            e_type: read_u16(b, 16),
            e_machine: read_u16(b, 18),
            e_version: read_u32(b, 20),
            e_entry: read_u64(b, 24),
            e_phoff: read_u64(b, 32),
            e_shoff: read_u64(b, 40),
            e_flags: read_u32(b, 48),
            e_ehsize: read_u16(b, 52),
            e_phentsize: read_u16(b, 54),
            e_phnum: read_u16(b, 56),
            e_shentsize: read_u16(b, 58),
            e_shnum: read_u16(b, 60),
            e_shstrndx: read_u16(b, 62),
        })
    }
}

impl Proghdr {
    /// Reads the program header at offset `o` of `b`; `None` when it does not
    /// fit in `b`.
    pub fn parse(b: &[u8], o: u64) -> (r: Option<Proghdr>)
        ensures
            r == if o + PROGHDR_SIZE <= b@.len() { Some(proghdr_of(b@, o as int)) } else { None::<Proghdr> },
    {
        let len = b.len();
        if o >= len as u64 || (len as u64) - o < PROGHDR_SIZE as u64 {
            return None;
        }
        let p = o as usize;
        Some(Proghdr {
            p_type: read_u32(b, p),
            p_flags: read_u32(b, p + 4),
            p_offset: read_u64(b, p + 8),
            p_va: read_u64(b, p + 16),
            p_pa: read_u64(b, p + 24),
            p_filesz: read_u64(b, p + 32),
            p_memsz: read_u64(b, p + 40),
            p_align: read_u64(b, p + 48),
        })
    }
}

} // verus!
