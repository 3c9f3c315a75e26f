use vstd::prelude::*;
use crate::text::{str_chars, chars_eq, string_from_chars};
use crate::fs::ramfs::{RamFs, PathView, NodeView, write_spec};

verus! {

/// Size of the ELF file header.
pub const ELF_HEADER_SIZE: usize = 64;
/// Size of one program header.
pub const PROGRAM_HEADER_SIZE: usize = 56;
/// Program header type of a loadable segment.
pub const PT_LOAD: u32 = 1;
/// Object file type of an executable.
pub const ET_EXEC: u16 = 2;
/// Machine number of x86-64.
pub const EM_X86_64: u16 = 62;
/// The one ELF version.
pub const EV_CURRENT: u32 = 1;
/// Entry point of the first program.
pub const ENTRY_BASE: u64 = 0x40_0000;
/// Distance between the entry points of consecutive programs.
pub const ENTRY_STRIDE: u64 = 0x1000;

/// Why an image is not a loadable program.
#[derive(Debug, Clone, Copy, PartialEq, Eq, Structural)]
pub enum ElfError {
    TooSmall,
    BadMagic,
    Unsupported,
    Truncated,
    MissingLoadSegment,
    UnknownProgram,
}

/// The programs installed under `/bin`.
#[derive(Debug, Clone, Copy, PartialEq, Eq, Structural)]
pub enum ProgramId {
    Shell,
    Ls,
    Rm,
    Mv,
    Cp,
    Touch,
    Cat,
    Echo,
    Sleep,
    Count,
}

/// The number of a program, from 1 to 10.
pub open spec fn program_number(p: ProgramId) -> u64 {
    match p {
        ProgramId::Shell => 1,
        ProgramId::Ls => 2,
        ProgramId::Rm => 3,
        ProgramId::Mv => 4,
        ProgramId::Cp => 5,
        ProgramId::Touch => 6,
        ProgramId::Cat => 7,
        ProgramId::Echo => 8,
        ProgramId::Sleep => 9,
        ProgramId::Count => 10,
    }
}

/// The program with number `n`.
pub open spec fn program_with_number(n: u64) -> Option<ProgramId> {
    if n == 1 {
        Some(ProgramId::Shell)
    } else if n == 2 {
        Some(ProgramId::Ls)
    } else if n == 3 {
        Some(ProgramId::Rm)
    } else if n == 4 {
        Some(ProgramId::Mv)
    } else if n == 5 {
        Some(ProgramId::Cp)
    } else if n == 6 {
        Some(ProgramId::Touch)
    } else if n == 7 {
        Some(ProgramId::Cat)
    } else if n == 8 {
        Some(ProgramId::Echo)
    } else if n == 9 {
        Some(ProgramId::Sleep)
    } else if n == 10 {
        Some(ProgramId::Count)
    } else {
        None
    }
}

/// The name of a program, as it appears under `/bin`.
pub open spec fn program_name(p: ProgramId) -> Seq<char> {
    match p {
        ProgramId::Shell => seq!['s', 'h', 'e', 'l', 'l'],
        ProgramId::Ls => seq!['l', 's'],
        ProgramId::Rm => seq!['r', 'm'],
        ProgramId::Mv => seq!['m', 'v'],
        ProgramId::Cp => seq!['c', 'p'],
        ProgramId::Touch => seq!['t', 'o', 'u', 'c', 'h'],
        ProgramId::Cat => seq!['c', 'a', 't'],
        ProgramId::Echo => seq!['e', 'c', 'h', 'o'],
        ProgramId::Sleep => seq!['s', 'l', 'e', 'e', 'p'],
        ProgramId::Count => seq!['c', 'o', 'u', 'n', 't'],
    }
}

/// The entry point of a program.
pub open spec fn program_entry(p: ProgramId) -> u64 {
    (ENTRY_BASE + program_number(p) * ENTRY_STRIDE) as u64
}

/// The program whose entry point is `entry`.
pub open spec fn program_at(entry: u64) -> Option<ProgramId> {
    if entry < ENTRY_BASE || (entry - ENTRY_BASE) % (ENTRY_STRIDE as int) != 0 {
        None
    } else {
        program_with_number(((entry - ENTRY_BASE) / (ENTRY_STRIDE as int)) as u64)
    }
}

impl ProgramId {
    /// Every program, in order of number.
    pub fn all() -> (r: [ProgramId; 10])
        ensures
            forall|i: int| 0 <= i < 10 ==> program_number(#[trigger] r@[i]) == i + 1,
    {
        [
            ProgramId::Shell,
            ProgramId::Ls,
            ProgramId::Rm,
            ProgramId::Mv,
            ProgramId::Cp,
            ProgramId::Touch,
            ProgramId::Cat,
            ProgramId::Echo,
            ProgramId::Sleep,
            ProgramId::Count,
        ]
    }

    /// The number of the program.
    pub fn number(self) -> (n: u64)
        ensures
            n == program_number(self),
    {
        match self {
            ProgramId::Shell => 1,
            ProgramId::Ls => 2,
            ProgramId::Rm => 3,
            ProgramId::Mv => 4,
            ProgramId::Cp => 5,
            ProgramId::Touch => 6,
            ProgramId::Cat => 7,
            ProgramId::Echo => 8,
            ProgramId::Sleep => 9,
            ProgramId::Count => 10,
        }
    }

    /// The name of the program under `/bin`.
    pub fn name(self) -> (r: &'static str)
        ensures
            r@ == program_name(self),
    {
        match self {
            ProgramId::Shell => {
                proof {
                    reveal_strlit("shell");
                }
                "shell"
            },
            ProgramId::Ls => {
                proof {
                    reveal_strlit("ls");
                }
                "ls"
            },
            ProgramId::Rm => {
                proof {
                    reveal_strlit("rm");
                }
                "rm"
            },
            ProgramId::Mv => {
                proof {
                    reveal_strlit("mv");
                }
                "mv"
            },
            ProgramId::Cp => {
                proof {
                    reveal_strlit("cp");
                }
                "cp"
            },
            ProgramId::Touch => {
                proof {
                    reveal_strlit("touch");
                }
                "touch"
            },
            ProgramId::Cat => {
                proof {
                    reveal_strlit("cat");
                }
                "cat"
            },
            ProgramId::Echo => {
                proof {
                    reveal_strlit("echo");
                }
                "echo"
            },
            ProgramId::Sleep => {
                proof {
                    reveal_strlit("sleep");
                }
                "sleep"
            },
            ProgramId::Count => {
                proof {
                    reveal_strlit("count");
                }
                "count"
            },
        }
    }

    /// The program named `name`.
    pub fn from_name(name: &str) -> (r: Option<ProgramId>)
        ensures
            match r {
                Some(p) => program_name(p) == name@,
                None => forall|p: ProgramId| program_name(p) != name@,
            },
    {
        let wanted = str_chars(name);
        let all = ProgramId::all();
        let mut i: usize = 0;
        while i < 10
            invariant
                i <= 10,
                wanted@ == name@,
                forall|k: int| 0 <= k < 10 ==> program_number(#[trigger] all@[k]) == k + 1,
                forall|p: ProgramId| program_number(p) <= i ==> program_name(p) != name@,
            decreases 10 - i,
        {
            let p = all[i];
            let candidate = str_chars(p.name());
            if chars_eq(&candidate, &wanted) {
                return Some(p);
            }
            proof {
                assert forall|q: ProgramId| program_number(q) <= i + 1 implies program_name(q) != name@ by {
                    if program_number(q) == i + 1 {
                        assert(program_number(p) == i + 1);
                        assert(q == p);
                    }
                }
            }
            i = i + 1;
        }
        proof {
            assert forall|p: ProgramId| program_name(p) != name@ by {
                assert(program_number(p) <= 10);
            }
        }
        None
    }

    /// The entry point of the program.
    pub fn entry(self) -> (r: u64)
        ensures
            r == program_entry(self),
    {
        ENTRY_BASE + self.number() * ENTRY_STRIDE
    }

    /// The program whose entry point is `entry`.
    fn from_entry(entry: u64) -> (r: Option<ProgramId>)
        ensures
            r == program_at(entry),
    {
        let offset = match entry.checked_sub(ENTRY_BASE) {
            Some(o) => o,
            None => {
                return None;
            },
        };
        if offset % ENTRY_STRIDE != 0 {
            return None;
        }
        let id = offset / ENTRY_STRIDE;
        let all = ProgramId::all();
        let mut i: usize = 0;
        while i < 10
            invariant
                i <= 10,
                id == (entry - ENTRY_BASE) / (ENTRY_STRIDE as int),
                entry >= ENTRY_BASE,
                (entry - ENTRY_BASE) % (ENTRY_STRIDE as int) == 0,
                forall|k: int| 0 <= k < 10 ==> program_number(#[trigger] all@[k]) == k + 1,
                id < 1 || id > i,
            decreases 10 - i,
        {
            if all[i].number() == id {
                proof {
                    law_program_numbers(all@[i as int], all@[i as int]);
                }
                return Some(all[i]);
            }
            i = i + 1;
        }
        None
    }
}

/// The program numbered `n` has number `n`, and only one program has each number.
pub proof fn law_program_numbers(p: ProgramId, q: ProgramId)
    ensures
        program_with_number(program_number(p)) == Some(p),
        program_number(p) == program_number(q) ==> p == q,
        1 <= program_number(p) <= 10,
{
}

/// A program is found again from its entry point.
pub proof fn law_entry_round_trip(p: ProgramId)
    ensures
        program_at(program_entry(p)) == Some(p),
{
    let n = program_number(p);
    assert((ENTRY_BASE + n * ENTRY_STRIDE - ENTRY_BASE) == n * ENTRY_STRIDE);
    assert((n * 0x1000) % 0x1000 == 0 && (n * 0x1000) / 0x1000 == n) by (nonlinear_arith)
        requires
            1 <= n <= 10,
    ;
}

/// A program is found again from its name.
pub proof fn law_names_distinct(p: ProgramId, q: ProgramId)
    ensures
        program_name(p) == program_name(q) ==> p == q,
{
    if program_name(p) == program_name(q) && p != q {
        assert(program_name(p).len() == program_name(q).len());
        assert(program_name(p)[0] == program_name(q)[0]);
        assert(program_name(p)[1] == program_name(q)[1]);
    }
}

/// The little-endian 16-bit value at `o`.
pub open spec fn le16(s: Seq<u8>, o: int) -> u16 {
    (s[o] as u16) | ((s[o + 1] as u16) << 8)
}

/// The little-endian 32-bit value at `o`.
pub open spec fn le32(s: Seq<u8>, o: int) -> u32 {
    (s[o] as u32) | ((s[o + 1] as u32) << 8) | ((s[o + 2] as u32) << 16) | ((s[o + 3] as u32) << 24)
}

/// The little-endian 64-bit value at `o`.
pub open spec fn le64(s: Seq<u8>, o: int) -> u64 {
    (s[o] as u64) | ((s[o + 1] as u64) << 8) | ((s[o + 2] as u64) << 16) | ((s[o + 3] as u64) << 24) | ((s[o + 4] as u64)
        << 32) | ((s[o + 5] as u64) << 40) | ((s[o + 6] as u64) << 48) | ((s[o + 7] as u64) << 56)
}

/// `s` with the little-endian bytes of `v` at `o`.
pub open spec fn put16(s: Seq<u8>, o: int, v: u16) -> Seq<u8> {
    s.update(o, v as u8).update(o + 1, (v >> 8) as u8)
}

/// `s` with the little-endian bytes of `v` at `o`.
pub open spec fn put32(s: Seq<u8>, o: int, v: u32) -> Seq<u8> {
    s.update(o, v as u8).update(o + 1, (v >> 8) as u8).update(o + 2, (v >> 16) as u8).update(o + 3, (v >> 24) as u8)
}

/// `s` with the little-endian bytes of `v` at `o`.
pub open spec fn put64(s: Seq<u8>, o: int, v: u64) -> Seq<u8> {
    s.update(o, v as u8).update(o + 1, (v >> 8) as u8).update(o + 2, (v >> 16) as u8).update(o + 3, (v >> 24) as u8).update(
        o + 4,
        (v >> 32) as u8,
    ).update(o + 5, (v >> 40) as u8).update(o + 6, (v >> 48) as u8).update(o + 7, (v >> 56) as u8)
}

proof fn lemma_bytes16(v: u16)
    ensures
        ((v as u8) as u16) | ((((v >> 8) as u8) as u16) << 8) == v,
{
    assert(((v as u8) as u16) | ((((v >> 8) as u8) as u16) << 8) == v) by (bit_vector);
}

proof fn lemma_bytes32(v: u32)
    ensures
        ((v as u8) as u32) | ((((v >> 8) as u8) as u32) << 8) | ((((v >> 16) as u8) as u32) << 16) | ((((v >> 24) as u8)
            as u32) << 24) == v,
{
    assert(((v as u8) as u32) | ((((v >> 8) as u8) as u32) << 8) | ((((v >> 16) as u8) as u32) << 16) | ((((v >> 24)
        as u8) as u32) << 24) == v) by (bit_vector);
}

proof fn lemma_bytes64(v: u64)
    ensures
        ((v as u8) as u64) | ((((v >> 8) as u8) as u64) << 8) | ((((v >> 16) as u8) as u64) << 16) | ((((v >> 24) as u8)
            as u64) << 24) | ((((v >> 32) as u8) as u64) << 32) | ((((v >> 40) as u8) as u64) << 40) | ((((v >> 48) as u8)
            as u64) << 48) | ((((v >> 56) as u8) as u64) << 56) == v,
{
    assert(((v as u8) as u64) | ((((v >> 8) as u8) as u64) << 8) | ((((v >> 16) as u8) as u64) << 16) | ((((v >> 24)
        as u8) as u64) << 24) | ((((v >> 32) as u8) as u64) << 32) | ((((v >> 40) as u8) as u64) << 40) | ((((v >> 48)
        as u8) as u64) << 48) | ((((v >> 56) as u8) as u64) << 56) == v) by (bit_vector);
}

/// A 16-bit value written at `o` reads back unchanged, and no other byte changes.
pub proof fn law_read_after_write16(s: Seq<u8>, o: int, v: u16)
    requires
        0 <= o,
        o + 2 <= s.len(),
    ensures
        le16(put16(s, o, v), o) == v,
        put16(s, o, v).len() == s.len(),
        forall|j: int| 0 <= j < s.len() && !(o <= j < o + 2) ==> put16(s, o, v)[j] == s[j],
{
    lemma_bytes16(v);
}

/// A 32-bit value written at `o` reads back unchanged, and no other byte changes.
pub proof fn law_read_after_write32(s: Seq<u8>, o: int, v: u32)
    requires
        0 <= o,
        o + 4 <= s.len(),
    ensures
        le32(put32(s, o, v), o) == v,
        put32(s, o, v).len() == s.len(),
        forall|j: int| 0 <= j < s.len() && !(o <= j < o + 4) ==> put32(s, o, v)[j] == s[j],
{
    lemma_bytes32(v);
}

/// A 64-bit value written at `o` reads back unchanged, and no other byte changes.
pub proof fn law_read_after_write64(s: Seq<u8>, o: int, v: u64)
    requires
        0 <= o,
        o + 8 <= s.len(),
    ensures
        le64(put64(s, o, v), o) == v,
        put64(s, o, v).len() == s.len(),
        forall|j: int| 0 <= j < s.len() && !(o <= j < o + 8) ==> put64(s, o, v)[j] == s[j],
{
    lemma_bytes64(v);
}

fn read_u16(image: &[u8], offset: usize) -> (r: Result<u16, ElfError>)
    requires
        offset + 2 <= usize::MAX,
    ensures
        r == if offset + 2 <= image@.len() {
            Ok::<u16, ElfError>(le16(image@, offset as int))
        } else {
            Err::<u16, ElfError>(ElfError::Truncated)
        },
{
    if offset + 2 > image.len() {
        return Err(ElfError::Truncated);
    }
    Ok((image[offset] as u16) | ((image[offset + 1] as u16) << 8))
}

fn read_u32(image: &[u8], offset: usize) -> (r: Result<u32, ElfError>)
    requires
        offset + 4 <= usize::MAX,
    ensures
        r == if offset + 4 <= image@.len() {
            Ok::<u32, ElfError>(le32(image@, offset as int))
        } else {
            Err::<u32, ElfError>(ElfError::Truncated)
        },
{
    if offset + 4 > image.len() {
        return Err(ElfError::Truncated);
    }
    Ok((image[offset] as u32) | ((image[offset + 1] as u32) << 8) | ((image[offset + 2] as u32) << 16) | ((image[offset
        + 3] as u32) << 24))
}

fn read_u64(image: &[u8], offset: usize) -> (r: Result<u64, ElfError>)
    requires
        offset + 8 <= usize::MAX,
    ensures
        r == if offset + 8 <= image@.len() {
            Ok::<u64, ElfError>(le64(image@, offset as int))
        } else {
            Err::<u64, ElfError>(ElfError::Truncated)
        },
{
    if offset + 8 > image.len() {
        return Err(ElfError::Truncated);
    }
    Ok((image[offset] as u64) | ((image[offset + 1] as u64) << 8) | ((image[offset + 2] as u64) << 16) | ((image[offset
        + 3] as u64) << 24) | ((image[offset + 4] as u64) << 32) | ((image[offset + 5] as u64) << 40) | ((image[offset
        + 6] as u64) << 48) | ((image[offset + 7] as u64) << 56))
}

fn write_u16(image: &mut [u8], offset: usize, value: u16)
    requires
        offset + 2 <= old(image)@.len(),
    ensures
        final(image)@ == put16(old(image)@, offset as int, value),
{
    image[offset] = value as u8;
    image[offset + 1] = (value >> 8) as u8;
}

fn write_u32(image: &mut [u8], offset: usize, value: u32)
    requires
        offset + 4 <= old(image)@.len(),
    ensures
        final(image)@ == put32(old(image)@, offset as int, value),
{
    image[offset] = value as u8;
    image[offset + 1] = (value >> 8) as u8;
    image[offset + 2] = (value >> 16) as u8;
    image[offset + 3] = (value >> 24) as u8;
}

fn write_u64(image: &mut [u8], offset: usize, value: u64)
    requires
        offset + 8 <= old(image)@.len(),
    ensures
        final(image)@ == put64(old(image)@, offset as int, value),
{
    image[offset] = value as u8;
    image[offset + 1] = (value >> 8) as u8;
    image[offset + 2] = (value >> 16) as u8;
    image[offset + 3] = (value >> 24) as u8;
    image[offset + 4] = (value >> 32) as u8;
    image[offset + 5] = (value >> 40) as u8;
    image[offset + 6] = (value >> 48) as u8;
    image[offset + 7] = (value >> 56) as u8;
}

/// Where and how the program's loadable segment lies.
#[derive(Debug, Clone, Copy, PartialEq, Eq, Structural)]
pub struct LoadSegment {
    pub offset: usize,
    pub virt_addr: u64,
    pub file_size: usize,
    pub mem_size: usize,
    pub flags: u32,
}

/// What a program image declares.
#[derive(Debug, Clone, Copy, PartialEq, Eq, Structural)]
pub struct ParsedElf {
    pub entry: u64,
    pub program: ProgramId,
    pub load: LoadSegment,
}

/// The first loadable segment among the program headers `index` to `count`
/// of the table at `table`, or why the table is unusable.
pub open spec fn load_search(s: Seq<u8>, table: int, count: int, index: int) -> Result<Option<LoadSegment>, ElfError>
    decreases count - index,
{
    if index >= count {
        Ok(None)
    } else {
        let off = table + index * PROGRAM_HEADER_SIZE;
        if off + PROGRAM_HEADER_SIZE > s.len() {
            Err(ElfError::Truncated)
        } else if le32(s, off) != PT_LOAD {
            load_search(s, table, count, index + 1)
        } else {
            let file_offset = le64(s, off + 8) as usize;
            let file_size = le64(s, off + 32) as usize;
            let mem_size = le64(s, off + 40) as usize;
            if file_offset + file_size > usize::MAX || file_offset + file_size > s.len() {
                Err(ElfError::Truncated)
            } else if mem_size < file_size {
                Err(ElfError::Unsupported)
            } else {
                Ok(
                    Some(
                        LoadSegment {
                            offset: file_offset,
                            virt_addr: le64(s, off + 16),
                            file_size,
                            mem_size,
                            flags: le32(s, off + 4),
                        },
                    ),
                )
            }
        }
    }
}

/// The segment that the search finds lies inside the image.
proof fn lemma_load_within(s: Seq<u8>, table: int, count: int, index: int)
    ensures
        load_search(s, table, count, index) matches Ok(Some(load)) ==> load.offset + load.file_size <= s.len(),
    decreases count - index,
{
    if index < count {
        lemma_load_within(s, table, count, index + 1);
    }
}

/// The segment of a parsed image lies inside the image.
pub proof fn lemma_parsed_segment_within(s: Seq<u8>)
    ensures
        parse_spec(s) matches Ok(parsed) ==> parsed.load.offset + parsed.load.file_size <= s.len(),
{
    lemma_load_within(s, table_start(s), le16(s, 56) as int, 0);
}

/// Whether the header fields say: an executable, little-endian, 64-bit, for x86-64.
pub open spec fn header_ok(s: Seq<u8>) -> bool {
    le16(s, 16) == ET_EXEC && le16(s, 18) == EM_X86_64 && le32(s, 20) == EV_CURRENT
}

/// Whether the header sizes are the expected ones and there is a program header.
pub open spec fn table_ok(s: Seq<u8>) -> bool {
    le16(s, 52) == ELF_HEADER_SIZE && le16(s, 54) == PROGRAM_HEADER_SIZE && le16(s, 56) != 0
}

/// The start of the program header table.
pub open spec fn table_start(s: Seq<u8>) -> int {
    (le64(s, 32) as usize) as int
}

/// What `parse` makes of the image `s`.
pub open spec fn parse_spec(s: Seq<u8>) -> Result<ParsedElf, ElfError> {
    if s.len() < ELF_HEADER_SIZE {
        Err(ElfError::TooSmall)
    } else if !(s[0] == 0x7f && s[1] == 0x45 && s[2] == 0x4c && s[3] == 0x46) {
        Err(ElfError::BadMagic)
    } else if s[4] != 2 || s[5] != 1 || s[6] != 1 {
        Err(ElfError::Unsupported)
    } else if !header_ok(s) || !table_ok(s) {
        Err(ElfError::Unsupported)
    } else {
        match program_at(le64(s, 24)) {
            None => Err(ElfError::UnknownProgram),
            Some(program) => match load_search(s, table_start(s), le16(s, 56) as int, 0) {
                Err(e) => Err(e),
                Ok(None) => Err(ElfError::MissingLoadSegment),
                Ok(Some(load)) => Ok(ParsedElf { entry: le64(s, 24), program, load }),
            },
        }
    }
}

/// Reads the header of a program image and finds its loadable segment.
pub fn parse(image: &[u8]) -> (r: Result<ParsedElf, ElfError>)
    ensures
        r == parse_spec(image@),
{
    if image.len() < ELF_HEADER_SIZE {
        return Err(ElfError::TooSmall);
    }
    if image[0] != 0x7f || image[1] != 0x45 || image[2] != 0x4c || image[3] != 0x46 {
        return Err(ElfError::BadMagic);
    }
    if image[4] != 2 || image[5] != 1 || image[6] != 1 {
        return Err(ElfError::Unsupported);
    }
    let e_type = match read_u16(image, 16) {
        Ok(v) => v,
        Err(e) => {
            return Err(e);
        },
    };
    let e_machine = match read_u16(image, 18) {
        Ok(v) => v,
        Err(e) => {
            return Err(e);
        },
    };
    let e_version = match read_u32(image, 20) {
        Ok(v) => v,
        Err(e) => {
            return Err(e);
        },
    };
    if e_type != ET_EXEC || e_machine != EM_X86_64 || e_version != EV_CURRENT {
        return Err(ElfError::Unsupported);
    }
    let entry = match read_u64(image, 24) {
        Ok(v) => v,
        Err(e) => {
            return Err(e);
        },
    };
    let phoff = match read_u64(image, 32) {
        Ok(v) => v as usize,
        Err(e) => {
            return Err(e);
        },
    };
    let ehsize = match read_u16(image, 52) {
        Ok(v) => v as usize,
        Err(e) => {
            return Err(e);
        },
    };
    let phentsize = match read_u16(image, 54) {
        Ok(v) => v as usize,
        Err(e) => {
            return Err(e);
        },
    };
    let phnum = match read_u16(image, 56) {
        Ok(v) => v as usize,
        Err(e) => {
            return Err(e);
        },
    };
    if ehsize != ELF_HEADER_SIZE || phentsize != PROGRAM_HEADER_SIZE || phnum == 0 {
        return Err(ElfError::Unsupported);
    }
    let program = match ProgramId::from_entry(entry) {
        Some(p) => p,
        None => {
            return Err(ElfError::UnknownProgram);
        },
    };
    let ghost s = image@;
    let mut index: usize = 0;
    while index < phnum
        invariant
            s == image@,
            phnum == le16(s, 56) as int,
            phnum <= 0xffff,
            phentsize == PROGRAM_HEADER_SIZE,
            phoff == table_start(s),
            index <= phnum,
            load_search(s, phoff as int, phnum as int, 0) == load_search(s, phoff as int, phnum as int, index as int),
            parse_spec(s) == match load_search(s, phoff as int, phnum as int, 0) {
                Err(e) => Err(e),
                Ok(None) => Err(ElfError::MissingLoadSegment),
                Ok(Some(load)) => Ok(ParsedElf { entry, program, load }),
            },
        decreases phnum - index,
    {
        let offset = match phoff.checked_add(index * phentsize) {
            Some(o) => o,
            None => {
                assert(s.len() == image.len());
                assert(phoff + index * PROGRAM_HEADER_SIZE + PROGRAM_HEADER_SIZE > s.len());
                return Err(ElfError::Truncated);
            },
        };
        if offset > image.len() || image.len() - offset < PROGRAM_HEADER_SIZE {
            return Err(ElfError::Truncated);
        }
        let p_type = match read_u32(image, offset) {
            Ok(v) => v,
            Err(e) => {
                return Err(e);
            },
        };
        if p_type != PT_LOAD {
            index = index + 1;
        } else {
            let p_flags = match read_u32(image, offset + 4) {
                Ok(v) => v,
                Err(e) => {
                    return Err(e);
                },
            };
            let p_offset = match read_u64(image, offset + 8) {
                Ok(v) => v as usize,
                Err(e) => {
                    return Err(e);
                },
            };
            let p_vaddr = match read_u64(image, offset + 16) {
                Ok(v) => v,
                Err(e) => {
                    return Err(e);
                },
            };
            let p_filesz = match read_u64(image, offset + 32) {
                Ok(v) => v as usize,
                Err(e) => {
                    return Err(e);
                },
            };
            let p_memsz = match read_u64(image, offset + 40) {
                Ok(v) => v as usize,
                Err(e) => {
                    return Err(e);
                },
            };
            let end = match p_offset.checked_add(p_filesz) {
                Some(e) => e,
                None => {
                    return Err(ElfError::Truncated);
                },
            };
            if end > image.len() {
                return Err(ElfError::Truncated);
            }
            if p_memsz < p_filesz {
                return Err(ElfError::Unsupported);
            }
            let load = LoadSegment {
                offset: p_offset,
                virt_addr: p_vaddr,
                file_size: p_filesz,
                mem_size: p_memsz,
                flags: p_flags,
            };
            return Ok(ParsedElf { entry, program, load });
        }
    }
    Err(ElfError::MissingLoadSegment)
}

/// Number of the `exit` system call.
pub const SYS_EXIT: u32 = 3;
/// Number of the `write` system call.
pub const SYS_WRITE: u32 = 6;
/// Descriptor of standard output.
pub const STDOUT: u32 = 1;

/// The little-endian bytes of `v`.
pub open spec fn le_bytes32(v: u32) -> Seq<u8> {
    seq![v as u8, (v >> 8) as u8, (v >> 16) as u8, (v >> 24) as u8]
}

/// The bytes of ASCII text.
pub open spec fn ascii_bytes(text: Seq<char>) -> Seq<u8> {
    text.map_values(|c: char| c as u8)
}

/// The line a program prints: "exec /bin/<name> ok" and CR LF.
pub open spec fn exec_message(p: ProgramId) -> Seq<u8> {
    seq![0x65u8, 0x78, 0x65, 0x63, 0x20, 0x2f, 0x62, 0x69, 0x6e, 0x2f] + ascii_bytes(program_name(p)) + seq![
        0x20u8,
        0x6f,
        0x6b,
        0x0d,
        0x0a,
    ]
}

/// The machine code of a program: write its message to standard output with
/// a RIP-relative address, exit, and spin should exit return.
pub open spec fn program_code(p: ProgramId) -> Seq<u8> {
    let message = exec_message(p);
    seq![0xb8u8] + le_bytes32(SYS_WRITE) + seq![0xbfu8] + le_bytes32(STDOUT) + seq![0x48u8, 0x8d, 0x35] + le_bytes32(18)
        + seq![0xbau8] + le_bytes32(message.len() as u32) + seq![0x0fu8, 0x05, 0xb8] + le_bytes32(SYS_EXIT) + seq![
        0x31u8,
        0xff,
        0x0f,
        0x05,
        0xeb,
        0xfe,
    ] + message
}

/// Appends `bytes` to `v`.
pub fn push_all(v: &mut Vec<u8>, bytes: &[u8])
    ensures
        final(v)@ == old(v)@ + bytes@,
{
    let ghost v0 = v@;
    let mut i: usize = 0;
    while i < bytes.len()
        invariant
            i <= bytes@.len(),
            v@ == v0 + bytes@.take(i as int),
        decreases bytes@.len() - i,
    {
        v.push(bytes[i]);
        i = i + 1;
        assert(v@ =~= v0 + bytes@.take(i as int));
    }
    assert(bytes@.take(i as int) =~= bytes@);
}

/// Appends the little-endian bytes of `value` to `v`.
pub fn push_u32_le(v: &mut Vec<u8>, value: u32)
    ensures
        final(v)@ == old(v)@ + le_bytes32(value),
{
    v.push(value as u8);
    v.push((value >> 8) as u8);
    v.push((value >> 16) as u8);
    v.push((value >> 24) as u8);
    assert(v@ =~= old(v)@ + le_bytes32(value));
}

/// The bytes of the ASCII text `text`.
fn ascii_of(text: &str) -> (r: Vec<u8>)
    ensures
        r@ == ascii_bytes(text@),
{
    let chars = str_chars(text);
    let mut r: Vec<u8> = Vec::new();
    let mut i: usize = 0;
    while i < chars.len()
        invariant
            i <= chars@.len(),
            chars@ == text@,
            r@ == ascii_bytes(chars@.take(i as int)),
        decreases chars@.len() - i,
    {
        r.push(chars[i] as u8);
        i = i + 1;
        assert(r@ =~= ascii_bytes(chars@.take(i as int)));
    }
    assert(chars@.take(i as int) =~= chars@);
    r
}

/// The line that program `program` prints.
fn exec_message_bytes(program: ProgramId) -> (r: Vec<u8>)
    ensures
        r@ == exec_message(program),
{
    let mut message: Vec<u8> = Vec::new();
    let prefix: [u8; 10] = [0x65, 0x78, 0x65, 0x63, 0x20, 0x2f, 0x62, 0x69, 0x6e, 0x2f];
    push_all(&mut message, &prefix);
    let name = ascii_of(program.name());
    push_all(&mut message, name.as_slice());
    let suffix: [u8; 5] = [0x20, 0x6f, 0x6b, 0x0d, 0x0a];
    push_all(&mut message, &suffix);
    assert(message@ =~= exec_message(program));
    message
}

/// The machine code of `program`.
fn user_program_code(program: ProgramId) -> (code: Vec<u8>)
    ensures
        code@ == program_code(program),
{
    let message = exec_message_bytes(program);
    let mut code: Vec<u8> = Vec::new();
    code.push(0xb8);
    push_u32_le(&mut code, SYS_WRITE);
    code.push(0xbf);
    push_u32_le(&mut code, STDOUT);
    let lea_start = code.len();
    let lea: [u8; 7] = [0x48, 0x8d, 0x35, 0, 0, 0, 0];
    push_all(&mut code, &lea);
    let lea_next = code.len();
    code.push(0xba);
    push_u32_le(&mut code, message.len() as u32);
    let sys: [u8; 3] = [0x0f, 0x05, 0xb8];
    push_all(&mut code, &sys);
    push_u32_le(&mut code, SYS_EXIT);
    let tail: [u8; 6] = [0x31, 0xff, 0x0f, 0x05, 0xeb, 0xfe];
    push_all(&mut code, &tail);
    let message_offset = code.len();
    let displacement = message_offset - lea_next;
    write_u32(code.as_mut_slice(), lea_start + 3, displacement as u32);
    push_all(&mut code, message.as_slice());
    assert(code@ =~= program_code(program));
    code
}

/// Where a program's code starts in its image: after the file header and the one program header.
pub open spec fn payload_offset() -> int {
    ELF_HEADER_SIZE + PROGRAM_HEADER_SIZE
}

/// The headers of the image of a program with entry point `entry` and `size` bytes of code.
pub open spec fn image_header(entry: u64, size: u64) -> Seq<u8> {
    let s0 = Seq::new(payload_offset() as nat, |i: int| 0u8);
    let s1 = s0.update(0, 0x7f).update(1, 0x45).update(2, 0x4c).update(3, 0x46).update(4, 2).update(5, 1).update(
        6,
        1,
    ).update(7, 0);
    let s2 = put64(
        put64(put64(put32(put16(put16(s1, 16, ET_EXEC), 18, EM_X86_64), 20, EV_CURRENT), 24, entry), 32, 64),
        40,
        0,
    );
    let s3 = put16(put16(put16(put16(put16(put16(put64(s2, 48, 0), 52, 64), 54, 56), 56, 1), 58, 0), 60, 0), 62, 0);
    let s4 = put64(
        put64(put64(put64(put32(put32(s3, 64, PT_LOAD), 68, 0x5), 72, payload_offset() as u64), 80, entry), 88, entry),
        96,
        size,
    );
    put64(put64(s4, 104, size), 112, 0x1000)
}

/// The image installed for a program: headers, then its code.
pub open spec fn program_image(p: ProgramId) -> Seq<u8> {
    image_header(program_entry(p), program_code(p).len() as u64) + program_code(p)
}

/// What `parse` reads from the image of a program.
pub open spec fn parsed_program(p: ProgramId) -> ParsedElf {
    ParsedElf {
        entry: program_entry(p),
        program: p,
        load: LoadSegment {
            offset: payload_offset() as usize,
            virt_addr: program_entry(p),
            file_size: program_code(p).len() as usize,
            mem_size: program_code(p).len() as usize,
            flags: 5,
        },
    }
}

/// The executable image of `program`: one loadable segment holding its code at its entry point.
pub fn build_program_image(program: ProgramId) -> (image: Vec<u8>)
    ensures
        image@ == program_image(program),
{
    let payload = user_program_code(program);
    let payload_offset = ELF_HEADER_SIZE + PROGRAM_HEADER_SIZE;
    let mut image: Vec<u8> = Vec::new();
    while image.len() < payload_offset
        invariant
            image@.len() <= payload_offset,
            forall|i: int| 0 <= i < image@.len() ==> image@[i] == 0u8,
        decreases payload_offset - image@.len(),
    {
        image.push(0);
    }
    assert(image@ =~= Seq::new(payload_offset as nat, |i: int| 0u8));
    image.set(0, 0x7f);
    image.set(1, 0x45);
    image.set(2, 0x4c);
    image.set(3, 0x46);
    image.set(4, 2);
    image.set(5, 1);
    image.set(6, 1);
    image.set(7, 0);
    let entry = program.entry();
    let size = payload.len() as u64;
    write_u16(image.as_mut_slice(), 16, ET_EXEC);
    write_u16(image.as_mut_slice(), 18, EM_X86_64);
    write_u32(image.as_mut_slice(), 20, EV_CURRENT);
    write_u64(image.as_mut_slice(), 24, entry);
    write_u64(image.as_mut_slice(), 32, ELF_HEADER_SIZE as u64);
    write_u64(image.as_mut_slice(), 40, 0);
    write_u64(image.as_mut_slice(), 48, 0);
    write_u16(image.as_mut_slice(), 52, ELF_HEADER_SIZE as u16);
    write_u16(image.as_mut_slice(), 54, PROGRAM_HEADER_SIZE as u16);
    write_u16(image.as_mut_slice(), 56, 1);
    write_u16(image.as_mut_slice(), 58, 0);
    write_u16(image.as_mut_slice(), 60, 0);
    write_u16(image.as_mut_slice(), 62, 0);
    let ph = ELF_HEADER_SIZE;
    write_u32(image.as_mut_slice(), ph, PT_LOAD);
    write_u32(image.as_mut_slice(), ph + 4, 0x5);
    write_u64(image.as_mut_slice(), ph + 8, payload_offset as u64);
    write_u64(image.as_mut_slice(), ph + 16, entry);
    write_u64(image.as_mut_slice(), ph + 24, entry);
    write_u64(image.as_mut_slice(), ph + 32, size);
    write_u64(image.as_mut_slice(), ph + 40, size);
    write_u64(image.as_mut_slice(), ph + 48, 0x1000);
    assert(image@ =~= image_header(entry, size));
    push_all(&mut image, payload.as_slice());
    image
}

proof fn lemma_code_len(p: ProgramId)
    ensures
        37 <= program_code(p).len() <= 55,
        exec_message(p).len() == 15 + program_name(p).len(),
{
    assert(ascii_bytes(program_name(p)).len() == program_name(p).len());
}

proof fn lemma_header_fields(entry: u64, size: u64)
    ensures
        image_header(entry, size).len() == payload_offset(),
        ({
            let h = image_header(entry, size);
            &&& h[0] == 0x7f && h[1] == 0x45 && h[2] == 0x4c && h[3] == 0x46
            &&& h[4] == 2 && h[5] == 1 && h[6] == 1
            &&& le16(h, 16) == ET_EXEC && le16(h, 18) == EM_X86_64 && le32(h, 20) == EV_CURRENT
            &&& le64(h, 24) == entry && le64(h, 32) == 64
            &&& le16(h, 52) == 64 && le16(h, 54) == 56 && le16(h, 56) == 1
            &&& le32(h, 64) == PT_LOAD && le32(h, 68) == 5
            &&& le64(h, 72) == 120 && le64(h, 80) == entry && le64(h, 96) == size && le64(h, 104) == size
        }),
{
    let s0 = Seq::new(payload_offset() as nat, |i: int| 0u8);
    let t0 = s0.update(0, 0x7f).update(1, 0x45).update(2, 0x4c).update(3, 0x46).update(4, 2).update(5, 1).update(
        6,
        1,
    ).update(7, 0);
    assert(t0.len() == 120);
    assert(t0[0] == 0x7f && t0[1] == 0x45 && t0[2] == 0x4c && t0[3] == 0x46 && t0[4] == 2 && t0[5] == 1 && t0[6] == 1);

    let t1 = put16(t0, 16, ET_EXEC);
    law_read_after_write16(t0, 16, ET_EXEC);
    assert(t1[0] == 0x7f && t1[1] == 0x45 && t1[2] == 0x4c && t1[3] == 0x46 && t1[4] == 2 && t1[5] == 1 && t1[6] == 1 && le16(t1, 16) == ET_EXEC);
    let t2 = put16(t1, 18, EM_X86_64);
    law_read_after_write16(t1, 18, EM_X86_64);
    assert(t2[0] == 0x7f && t2[1] == 0x45 && t2[2] == 0x4c && t2[3] == 0x46 && t2[4] == 2 && t2[5] == 1 && t2[6] == 1 && le16(t2, 16) == ET_EXEC && le16(t2, 18) == EM_X86_64);
    let t3 = put32(t2, 20, EV_CURRENT);
    law_read_after_write32(t2, 20, EV_CURRENT);
    assert(t3[0] == 0x7f && t3[1] == 0x45 && t3[2] == 0x4c && t3[3] == 0x46 && t3[4] == 2 && t3[5] == 1 && t3[6] == 1 && le16(t3, 16) == ET_EXEC && le16(t3, 18) == EM_X86_64 && le32(t3, 20) == EV_CURRENT);
    let t4 = put64(t3, 24, entry);
    law_read_after_write64(t3, 24, entry);
    assert(t4[0] == 0x7f && t4[1] == 0x45 && t4[2] == 0x4c && t4[3] == 0x46 && t4[4] == 2 && t4[5] == 1 && t4[6] == 1 && le16(t4, 16) == ET_EXEC && le16(t4, 18) == EM_X86_64 && le32(t4, 20) == EV_CURRENT && le64(t4, 24) == entry);
    let t5 = put64(t4, 32, 64);
    law_read_after_write64(t4, 32, 64);
    assert(t5[0] == 0x7f && t5[1] == 0x45 && t5[2] == 0x4c && t5[3] == 0x46 && t5[4] == 2 && t5[5] == 1 && t5[6] == 1 && le16(t5, 16) == ET_EXEC && le16(t5, 18) == EM_X86_64 && le32(t5, 20) == EV_CURRENT && le64(t5, 24) == entry && le64(t5, 32) == 64);
    let t6 = put64(t5, 40, 0);
    law_read_after_write64(t5, 40, 0);
    assert(t6[0] == 0x7f && t6[1] == 0x45 && t6[2] == 0x4c && t6[3] == 0x46 && t6[4] == 2 && t6[5] == 1 && t6[6] == 1 && le16(t6, 16) == ET_EXEC && le16(t6, 18) == EM_X86_64 && le32(t6, 20) == EV_CURRENT && le64(t6, 24) == entry && le64(t6, 32) == 64);
    let t7 = put64(t6, 48, 0);
    law_read_after_write64(t6, 48, 0);
    assert(t7[0] == 0x7f && t7[1] == 0x45 && t7[2] == 0x4c && t7[3] == 0x46 && t7[4] == 2 && t7[5] == 1 && t7[6] == 1 && le16(t7, 16) == ET_EXEC && le16(t7, 18) == EM_X86_64 && le32(t7, 20) == EV_CURRENT && le64(t7, 24) == entry && le64(t7, 32) == 64);
    let t8 = put16(t7, 52, 64);
    law_read_after_write16(t7, 52, 64);
    assert(t8[0] == 0x7f && t8[1] == 0x45 && t8[2] == 0x4c && t8[3] == 0x46 && t8[4] == 2 && t8[5] == 1 && t8[6] == 1 && le16(t8, 16) == ET_EXEC && le16(t8, 18) == EM_X86_64 && le32(t8, 20) == EV_CURRENT && le64(t8, 24) == entry && le64(t8, 32) == 64 && le16(t8, 52) == 64);
    let t9 = put16(t8, 54, 56);
    law_read_after_write16(t8, 54, 56);
    assert(t9[0] == 0x7f && t9[1] == 0x45 && t9[2] == 0x4c && t9[3] == 0x46 && t9[4] == 2 && t9[5] == 1 && t9[6] == 1 && le16(t9, 16) == ET_EXEC && le16(t9, 18) == EM_X86_64 && le32(t9, 20) == EV_CURRENT && le64(t9, 24) == entry && le64(t9, 32) == 64 && le16(t9, 52) == 64 && le16(t9, 54) == 56);
    let t10 = put16(t9, 56, 1);
    law_read_after_write16(t9, 56, 1);
    assert(t10[0] == 0x7f && t10[1] == 0x45 && t10[2] == 0x4c && t10[3] == 0x46 && t10[4] == 2 && t10[5] == 1 && t10[6] == 1 && le16(t10, 16) == ET_EXEC && le16(t10, 18) == EM_X86_64 && le32(t10, 20) == EV_CURRENT && le64(t10, 24) == entry && le64(t10, 32) == 64 && le16(t10, 52) == 64 && le16(t10, 54) == 56 && le16(t10, 56) == 1);
    let t11 = put16(t10, 58, 0);
    law_read_after_write16(t10, 58, 0);
    assert(t11[0] == 0x7f && t11[1] == 0x45 && t11[2] == 0x4c && t11[3] == 0x46 && t11[4] == 2 && t11[5] == 1 && t11[6] == 1 && le16(t11, 16) == ET_EXEC && le16(t11, 18) == EM_X86_64 && le32(t11, 20) == EV_CURRENT && le64(t11, 24) == entry && le64(t11, 32) == 64 && le16(t11, 52) == 64 && le16(t11, 54) == 56 && le16(t11, 56) == 1);
    let t12 = put16(t11, 60, 0);
    law_read_after_write16(t11, 60, 0);
    assert(t12[0] == 0x7f && t12[1] == 0x45 && t12[2] == 0x4c && t12[3] == 0x46 && t12[4] == 2 && t12[5] == 1 && t12[6] == 1 && le16(t12, 16) == ET_EXEC && le16(t12, 18) == EM_X86_64 && le32(t12, 20) == EV_CURRENT && le64(t12, 24) == entry && le64(t12, 32) == 64 && le16(t12, 52) == 64 && le16(t12, 54) == 56 && le16(t12, 56) == 1);
    let t13 = put16(t12, 62, 0);
    law_read_after_write16(t12, 62, 0);
    assert(t13[0] == 0x7f && t13[1] == 0x45 && t13[2] == 0x4c && t13[3] == 0x46 && t13[4] == 2 && t13[5] == 1 && t13[6] == 1 && le16(t13, 16) == ET_EXEC && le16(t13, 18) == EM_X86_64 && le32(t13, 20) == EV_CURRENT && le64(t13, 24) == entry && le64(t13, 32) == 64 && le16(t13, 52) == 64 && le16(t13, 54) == 56 && le16(t13, 56) == 1);
    let t14 = put32(t13, 64, PT_LOAD);
    law_read_after_write32(t13, 64, PT_LOAD);
    assert(t14[0] == 0x7f && t14[1] == 0x45 && t14[2] == 0x4c && t14[3] == 0x46 && t14[4] == 2 && t14[5] == 1 && t14[6] == 1 && le16(t14, 16) == ET_EXEC && le16(t14, 18) == EM_X86_64 && le32(t14, 20) == EV_CURRENT && le64(t14, 24) == entry && le64(t14, 32) == 64 && le16(t14, 52) == 64 && le16(t14, 54) == 56 && le16(t14, 56) == 1 && le32(t14, 64) == PT_LOAD);
    let t15 = put32(t14, 68, 5);
    law_read_after_write32(t14, 68, 5);
    assert(t15[0] == 0x7f && t15[1] == 0x45 && t15[2] == 0x4c && t15[3] == 0x46 && t15[4] == 2 && t15[5] == 1 && t15[6] == 1 && le16(t15, 16) == ET_EXEC && le16(t15, 18) == EM_X86_64 && le32(t15, 20) == EV_CURRENT && le64(t15, 24) == entry && le64(t15, 32) == 64 && le16(t15, 52) == 64 && le16(t15, 54) == 56 && le16(t15, 56) == 1 && le32(t15, 64) == PT_LOAD && le32(t15, 68) == 5);
    let t16 = put64(t15, 72, payload_offset() as u64);
    law_read_after_write64(t15, 72, payload_offset() as u64);
    assert(t16[0] == 0x7f && t16[1] == 0x45 && t16[2] == 0x4c && t16[3] == 0x46 && t16[4] == 2 && t16[5] == 1 && t16[6] == 1 && le16(t16, 16) == ET_EXEC && le16(t16, 18) == EM_X86_64 && le32(t16, 20) == EV_CURRENT && le64(t16, 24) == entry && le64(t16, 32) == 64 && le16(t16, 52) == 64 && le16(t16, 54) == 56 && le16(t16, 56) == 1 && le32(t16, 64) == PT_LOAD && le32(t16, 68) == 5 && le64(t16, 72) == payload_offset() as u64);
    let t17 = put64(t16, 80, entry);
    law_read_after_write64(t16, 80, entry);
    assert(t17[0] == 0x7f && t17[1] == 0x45 && t17[2] == 0x4c && t17[3] == 0x46 && t17[4] == 2 && t17[5] == 1 && t17[6] == 1 && le16(t17, 16) == ET_EXEC && le16(t17, 18) == EM_X86_64 && le32(t17, 20) == EV_CURRENT && le64(t17, 24) == entry && le64(t17, 32) == 64 && le16(t17, 52) == 64 && le16(t17, 54) == 56 && le16(t17, 56) == 1 && le32(t17, 64) == PT_LOAD && le32(t17, 68) == 5 && le64(t17, 72) == payload_offset() as u64 && le64(t17, 80) == entry);
    let t18 = put64(t17, 88, entry);
    law_read_after_write64(t17, 88, entry);
    assert(t18[0] == 0x7f && t18[1] == 0x45 && t18[2] == 0x4c && t18[3] == 0x46 && t18[4] == 2 && t18[5] == 1 && t18[6] == 1 && le16(t18, 16) == ET_EXEC && le16(t18, 18) == EM_X86_64 && le32(t18, 20) == EV_CURRENT && le64(t18, 24) == entry && le64(t18, 32) == 64 && le16(t18, 52) == 64 && le16(t18, 54) == 56 && le16(t18, 56) == 1 && le32(t18, 64) == PT_LOAD && le32(t18, 68) == 5 && le64(t18, 72) == payload_offset() as u64 && le64(t18, 80) == entry);
    let t19 = put64(t18, 96, size);
    law_read_after_write64(t18, 96, size);
    assert(t19[0] == 0x7f && t19[1] == 0x45 && t19[2] == 0x4c && t19[3] == 0x46 && t19[4] == 2 && t19[5] == 1 && t19[6] == 1 && le16(t19, 16) == ET_EXEC && le16(t19, 18) == EM_X86_64 && le32(t19, 20) == EV_CURRENT && le64(t19, 24) == entry && le64(t19, 32) == 64 && le16(t19, 52) == 64 && le16(t19, 54) == 56 && le16(t19, 56) == 1 && le32(t19, 64) == PT_LOAD && le32(t19, 68) == 5 && le64(t19, 72) == payload_offset() as u64 && le64(t19, 80) == entry && le64(t19, 96) == size);
    let t20 = put64(t19, 104, size);
    law_read_after_write64(t19, 104, size);
    assert(t20[0] == 0x7f && t20[1] == 0x45 && t20[2] == 0x4c && t20[3] == 0x46 && t20[4] == 2 && t20[5] == 1 && t20[6] == 1 && le16(t20, 16) == ET_EXEC && le16(t20, 18) == EM_X86_64 && le32(t20, 20) == EV_CURRENT && le64(t20, 24) == entry && le64(t20, 32) == 64 && le16(t20, 52) == 64 && le16(t20, 54) == 56 && le16(t20, 56) == 1 && le32(t20, 64) == PT_LOAD && le32(t20, 68) == 5 && le64(t20, 72) == payload_offset() as u64 && le64(t20, 80) == entry && le64(t20, 96) == size && le64(t20, 104) == size);
    let t21 = put64(t20, 112, 0x1000);
    law_read_after_write64(t20, 112, 0x1000);
    assert(t21[0] == 0x7f && t21[1] == 0x45 && t21[2] == 0x4c && t21[3] == 0x46 && t21[4] == 2 && t21[5] == 1 && t21[6] == 1 && le16(t21, 16) == ET_EXEC && le16(t21, 18) == EM_X86_64 && le32(t21, 20) == EV_CURRENT && le64(t21, 24) == entry && le64(t21, 32) == 64 && le16(t21, 52) == 64 && le16(t21, 54) == 56 && le16(t21, 56) == 1 && le32(t21, 64) == PT_LOAD && le32(t21, 68) == 5 && le64(t21, 72) == payload_offset() as u64 && le64(t21, 80) == entry && le64(t21, 96) == size && le64(t21, 104) == size);
    assert(t21 =~= image_header(entry, size));
}

/// Parsing the image built for a program gives back the program, its entry
/// point, and one loadable segment that holds exactly its code at that entry point.
pub proof fn law_parse_built_image(p: ProgramId)
    ensures
        parse_spec(program_image(p)) == Ok::<ParsedElf, ElfError>(parsed_program(p)),
{
    let entry = program_entry(p);
    let code = program_code(p);
    lemma_code_len(p);
    let size = code.len() as u64;
    let h = image_header(entry, size);
    let s = program_image(p);
    lemma_header_fields(entry, size);
    assert(forall|i: int| 0 <= i < 120 ==> s[i] == h[i]);
    assert(le16(s, 16) == le16(h, 16) && le16(s, 18) == le16(h, 18) && le32(s, 20) == le32(h, 20));
    assert(le64(s, 24) == le64(h, 24) && le64(s, 32) == le64(h, 32));
    assert(le16(s, 52) == le16(h, 52) && le16(s, 54) == le16(h, 54) && le16(s, 56) == le16(h, 56));
    assert(le32(s, 64) == le32(h, 64) && le32(s, 68) == le32(h, 68));
    assert(le64(s, 72) == le64(h, 72) && le64(s, 80) == le64(h, 80));
    assert(le64(s, 96) == le64(h, 96) && le64(s, 104) == le64(h, 104));
    law_entry_round_trip(p);
    assert(table_start(s) == 64);
    assert(load_search(s, 64, 1, 0) == Ok::<Option<LoadSegment>, ElfError>(Some(parsed_program(p).load)));
}

/// The path of a program: `/bin/` and its name.
pub open spec fn bin_path(p: ProgramId) -> Seq<char> {
    seq!['/', 'b', 'i', 'n', '/'] + program_name(p)
}

/// The file system after the images of the programs numbered 1 to `k` were written under `/bin`.
pub open spec fn installed(m: Map<PathView, NodeView>, k: nat) -> Map<PathView, NodeView>
    decreases k,
{
    if k == 0 {
        m
    } else {
        let p = program_with_number(k as u64)->Some_0;
        write_spec(installed(m, (k - 1) as nat), bin_path(p), program_image(p)).1
    }
}

/// Writes the image of every program to `/bin/<name>`; a write that fails is skipped.
pub fn install_programs(fs: &mut RamFs)
    requires
        old(fs).wf(),
    ensures
        final(fs).wf(),
        final(fs).view() == installed(old(fs).view(), 10),
{
    let ghost m0 = fs.view();
    let all = ProgramId::all();
    let mut i: usize = 0;
    while i < 10
        invariant
            i <= 10,
            fs.wf(),
            fs.view() == installed(m0, i as nat),
            forall|k: int| 0 <= k < 10 ==> program_number(#[trigger] all@[k]) == k + 1,
        decreases 10 - i,
    {
        let program = all[i];
        let mut path: Vec<char> = Vec::new();
        path.push('/');
        path.push('b');
        path.push('i');
        path.push('n');
        path.push('/');
        let name = str_chars(program.name());
        let mut j: usize = 0;
        while j < name.len()
            invariant
                j <= name@.len(),
                path@ == seq!['/', 'b', 'i', 'n', '/'] + name@.take(j as int),
            decreases name@.len() - j,
        {
            path.push(name[j]);
            j = j + 1;
            assert(path@ =~= seq!['/', 'b', 'i', 'n', '/'] + name@.take(j as int));
        }
        assert(name@.take(j as int) =~= name@);
        let text = string_from_chars(&path);
        let image = build_program_image(program);
        proof {
            law_program_numbers(program, program);
            assert(program_with_number((i + 1) as u64) == Some(program));
        }
        let _ = fs.write(text.as_str(), image.as_slice());
        i = i + 1;
    }
}

} // verus!
