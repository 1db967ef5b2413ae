//! The boot information that a Multiboot2 loader leaves in memory: a header
//! and a run of tagged records. It is read here from a copy of its bytes.

use vstd::prelude::*;

verus! {

/// What the loader hands over beside the address of the boot information.
pub const MAGIC: u64 = 0x36d76289;

/// Bytes of a tag's header: its type and its size.
pub const TAG_HEADER: usize = 8;

/// Bytes of the boot information's own header: its size and a reserved word.
pub const INFO_HEADER: usize = 8;

/// Bytes of one entry of the memory map, as this library reads it.
pub const AREA_BYTES: usize = 24;

/// The little-endian number in the four bytes from `at` on.
pub open spec fn le_u32(bytes: Seq<u8>, at: int) -> int {
    bytes[at] + 0x100 * bytes[at + 1] + 0x1_0000 * bytes[at + 2] + 0x100_0000 * bytes[at + 3]
}

/// The little-endian number in the eight bytes from `at` on.
pub open spec fn le_u64(bytes: Seq<u8>, at: int) -> int {
    le_u32(bytes, at) + 0x1_0000_0000 * le_u32(bytes, at + 4)
}

/// How far `from` lies below `to`; zero where it does not.
pub open spec fn gap(from: int, to: int) -> nat {
    if from < to {
        (to - from) as nat
    } else {
        0
    }
}

/// The first multiple of eight at or above `n`.
pub open spec fn round_up8(n: int) -> int {
    n + (8 - n % 8) % 8
}

fn read_u32(bytes: &[u8], at: usize) -> (v: u32)
    requires
        at + 4 <= bytes@.len(),
    ensures
        v == le_u32(bytes@, at as int),
{
    let len = bytes.len();
    let b0 = bytes[at] as u32;
    let b1 = bytes[at + 1] as u32;
    let b2 = bytes[at + 2] as u32;
    let b3 = bytes[at + 3] as u32;
    b0 + 0x100 * b1 + 0x1_0000 * b2 + 0x100_0000 * b3
}

fn read_u64(bytes: &[u8], at: usize) -> (v: u64)
    requires
        at + 8 <= bytes@.len(),
    ensures
        v == le_u64(bytes@, at as int),
{
    let len = bytes.len();
    let low = read_u32(bytes, at) as u64;
    let high = read_u32(bytes, at + 4) as u64;
    low + 0x1_0000_0000 * high
}

/// The kinds of tag.
#[derive(Debug, Clone, Copy, PartialEq, Eq, Structural)]
pub enum TagType {
    End,
    Cmdline,
    Bootloader,
    Module,
    BasicMemInfo,
    BootDevice,
    Mmap,
    VbeInfo,
    Framebuffer,
    ElfSections,
    Apm,
    Efi32,
    Efi64,
    Smbios,
    AcpiV1,
    AcpiV2,
    Network,
    EfiMmap,
    EfiBs,
    Efi32Ih,
    Efi64Ih,
    LoadBaseAddr,
}

impl TagType {
    /// The number that stands for this kind in a tag's header.
    pub open spec fn code(self) -> u32 {
        match self {
            TagType::End => 0,
            TagType::Cmdline => 1,
            TagType::Bootloader => 2,
            TagType::Module => 3,
            TagType::BasicMemInfo => 4,
            TagType::BootDevice => 5,
            TagType::Mmap => 6,
            TagType::VbeInfo => 7,
            TagType::Framebuffer => 8,
            TagType::ElfSections => 9,
            TagType::Apm => 10,
            TagType::Efi32 => 11,
            TagType::Efi64 => 12,
            TagType::Smbios => 13,
            TagType::AcpiV1 => 14,
            TagType::AcpiV2 => 15,
            TagType::Network => 16,
            TagType::EfiMmap => 17,
            TagType::EfiBs => 18,
            TagType::Efi32Ih => 19,
            TagType::Efi64Ih => 20,
            TagType::LoadBaseAddr => 21,
        }
    }

    /// The number that stands for this kind in a tag's header.
    pub fn as_u32(self) -> (v: u32)
        ensures
            v == self.code(),
    {
        match self {
            TagType::End => 0,
            TagType::Cmdline => 1,
            TagType::Bootloader => 2,
            TagType::Module => 3,
            TagType::BasicMemInfo => 4,
            TagType::BootDevice => 5,
            TagType::Mmap => 6,
            TagType::VbeInfo => 7,
            TagType::Framebuffer => 8,
            TagType::ElfSections => 9,
            TagType::Apm => 10,
            TagType::Efi32 => 11,
            TagType::Efi64 => 12,
            TagType::Smbios => 13,
            TagType::AcpiV1 => 14,
            TagType::AcpiV2 => 15,
            TagType::Network => 16,
            TagType::EfiMmap => 17,
            TagType::EfiBs => 18,
            TagType::Efi32Ih => 19,
            TagType::Efi64Ih => 20,
            TagType::LoadBaseAddr => 21,
        }
    }

    /// The kind that `v` stands for, if it stands for one.
    pub fn from_u32(v: u32) -> (t: Option<TagType>)
        ensures
            v > 21 <==> t is None,
            t is Some ==> t->Some_0.code() == v,
    {
        match v {
            0 => Some(TagType::End),
            1 => Some(TagType::Cmdline),
            2 => Some(TagType::Bootloader),
            3 => Some(TagType::Module),
            4 => Some(TagType::BasicMemInfo),
            5 => Some(TagType::BootDevice),
            6 => Some(TagType::Mmap),
            7 => Some(TagType::VbeInfo),
            8 => Some(TagType::Framebuffer),
            9 => Some(TagType::ElfSections),
            10 => Some(TagType::Apm),
            11 => Some(TagType::Efi32),
            12 => Some(TagType::Efi64),
            13 => Some(TagType::Smbios),
            14 => Some(TagType::AcpiV1),
            15 => Some(TagType::AcpiV2),
            16 => Some(TagType::Network),
            17 => Some(TagType::EfiMmap),
            18 => Some(TagType::EfiBs),
            19 => Some(TagType::Efi32Ih),
            20 => Some(TagType::Efi64Ih),
            21 => Some(TagType::LoadBaseAddr),
            _ => None,
        }
    }
}

/// What an area of the memory map may be used for.
#[derive(Debug, Clone, Copy, PartialEq, Eq, Structural)]
pub enum AreaType {
    Available,
    Reserved,
    AcpiAvailable,
    ReservedHibernate,
    Defective,
}

impl AreaType {
    /// The kind of area that `v` stands for. A number that names no kind
    /// stands for memory that must be left alone.
    pub open spec fn of(v: int) -> AreaType {
        if v == 1 {
            AreaType::Available
        } else if v == 3 {
            AreaType::AcpiAvailable
        } else if v == 4 {
            AreaType::ReservedHibernate
        } else if v == 5 {
            AreaType::Defective
        } else {
            AreaType::Reserved
        }
    }

    /// The kind of area that `v` stands for.
    pub fn from_u32(v: u32) -> (t: AreaType)
        ensures
            t == AreaType::of(v as int),
    {
        match v {
            1 => AreaType::Available,
            3 => AreaType::AcpiAvailable,
            4 => AreaType::ReservedHibernate,
            5 => AreaType::Defective,
            _ => AreaType::Reserved,
        }
    }
}

/// One area of the memory map.
#[derive(Debug, Clone, Copy)]
pub struct MemoryArea {
    pub base_addr: u64,
    pub length: u64,
    pub typ: AreaType,
    pub reserved: u32,
}

impl MemoryArea {
    /// The address just past the area.
    pub open spec fn end(self) -> int {
        self.base_addr as usize + self.length as usize
    }

    /// An area with the given start, length and kind.
    pub fn new(base_addr: u64, length: u64, typ: AreaType) -> (a: Self)
        ensures
            a.base_addr == base_addr,
            a.length == length,
            a.typ == typ,
            a.reserved == 0,
    {
        Self { base_addr, length, typ, reserved: 0 }
    }

    pub fn start_addr(&self) -> (a: usize)
        ensures
            a == self.base_addr as usize,
    {
        self.base_addr as usize
    }

    pub fn size(&self) -> (n: usize)
        ensures
            n == self.length as usize,
    {
        self.length as usize
    }

    pub fn end_addr(&self) -> (a: usize)
        requires
            self.end() <= usize::MAX,
        ensures
            a == self.end(),
    {
        self.start_addr() + self.size()
    }

    pub fn typ(&self) -> (t: AreaType)
        ensures
            t == self.typ,
    {
        self.typ
    }
}

/// The area that the 24 bytes from `at` on describe.
pub open spec fn area_at(bytes: Seq<u8>, at: int) -> MemoryArea {
    MemoryArea {
        base_addr: le_u64(bytes, at) as u64,
        length: le_u64(bytes, at + 8) as u64,
        typ: AreaType::of(le_u32(bytes, at + 16)),
        reserved: le_u32(bytes, at + 20) as u32,
    }
}

/// The areas that entries of `entry_size` bytes describe, from `current`
/// up to `last`; the run ends early where an entry is smaller than the
/// fields that are read from it, or does not lie within `bytes`.
pub open spec fn areas_from(bytes: Seq<u8>, current: int, last: int, entry_size: int) -> Seq<
    MemoryArea,
>
    decreases gap(current, last),
{
    if current < last && entry_size >= 24 && 0 <= current && current + 24 <= bytes.len() {
        let rest = areas_from(bytes, current + entry_size, last, entry_size);
        rest.insert(0, area_at(bytes, current))
    } else {
        Seq::empty()
    }
}

/// A cursor over the areas of a memory map.
pub struct MemoryAreaIter<'a> {
    bytes: &'a [u8],
    current_area: usize,
    last_area: usize,
    entry_size: usize,
}

impl<'a> MemoryAreaIter<'a> {
    /// The areas still to come, in order.
    pub closed spec fn remaining(&self) -> Seq<MemoryArea> {
        areas_from(
            self.bytes@,
            self.current_area as int,
            self.last_area as int,
            self.entry_size as int,
        )
    }

    /// Hands out the next area, if one is left, and steps past it.
    pub fn next(&mut self) -> (r: Option<MemoryArea>)
        ensures
            old(self).remaining().len() == 0 ==> r is None && final(self).remaining()
                == old(self).remaining(),
            old(self).remaining().len() > 0 ==> r == Some(old(self).remaining()[0]) && final(self).remaining() == old(self).remaining().skip(1),
    {
        if self.current_area < self.last_area && self.entry_size >= AREA_BYTES
            && self.bytes.len() >= AREA_BYTES && self.current_area <= self.bytes.len()
            - AREA_BYTES {
            let at = self.current_area;
            let base_addr = read_u64(self.bytes, at);
            let length = read_u64(self.bytes, at + 8);
            let typ = AreaType::from_u32(read_u32(self.bytes, at + 16));
            let reserved = read_u32(self.bytes, at + 20);
            let area = MemoryArea { base_addr, length, typ, reserved };
            let ghost before = self.remaining();
            if self.entry_size <= self.last_area - self.current_area {
                self.current_area = self.current_area + self.entry_size;
            } else {
                proof {
                    assert(areas_from(
                        self.bytes@,
                        self.current_area + self.entry_size,
                        self.last_area as int,
                        self.entry_size as int,
                    ) =~= Seq::<MemoryArea>::empty());
                }
                self.current_area = self.last_area;
            }
            proof {
                assert(area == area_at(self.bytes@, at as int));
                assert(self.remaining() =~= before.skip(1));
            }
            Some(area)
        } else {
            None
        }
    }

    /// All the areas still to come.
    pub fn collect(self) -> (v: Vec<MemoryArea>)
        ensures
            v@ == self.remaining(),
    {
        let mut it = self;
        let mut v: Vec<MemoryArea> = Vec::new();
        loop
            invariant
                v@ + it.remaining() == self.remaining(),
            ensures
                v@ == self.remaining(),
            decreases it.remaining().len(),
        {
            match it.next() {
                Some(area) => {
                    v.push(area);
                    proof {
                        assert(v@ + it.remaining() =~= self.remaining());
                    }
                },
                None => {
                    proof {
                        assert(v@ + it.remaining() =~= v@);
                    }
                    break ;
                },
            }
        }
        v
    }
}

/// The header of a tag, and where in the boot information the tag lies.
#[derive(Debug, Clone, Copy, PartialEq, Eq, Structural)]
pub struct TagBase {
    pub typ: u32,
    pub size: u32,
    pub offset: usize,
}

impl TagBase {
    /// The kind of the tag, if its number stands for one.
    pub fn tag_type(&self) -> (t: Option<TagType>)
        ensures
            self.typ > 21 <==> t is None,
            t is Some ==> t->Some_0.code() == self.typ,
    {
        TagType::from_u32(self.typ)
    }
}

/// The tag whose header lies at `at`, unless the tags end there: with the
/// end tag, with the end of the bytes, or with a tag too small to hold its own header.
pub open spec fn tag_at(bytes: Seq<u8>, at: int) -> Option<TagBase> {
    if 0 <= at && at + 8 <= bytes.len() && at <= usize::MAX && le_u32(bytes, at + 4) >= 8 && !(
    le_u32(bytes, at) == 0 && le_u32(bytes, at + 4) == 8) {
        Some(
            TagBase {
                typ: le_u32(bytes, at) as u32,
                size: le_u32(bytes, at + 4) as u32,
                offset: at as usize,
            },
        )
    } else {
        None
    }
}

/// The tags from `at` on, in order. Each tag starts at the first multiple
/// of eight past the tag before it.
pub open spec fn tags_from(bytes: Seq<u8>, at: int) -> Seq<TagBase>
    decreases gap(at, bytes.len() as int),
{
    if tag_at(bytes, at) is Some {
        let tag = tag_at(bytes, at)->Some_0;
        let rest = tags_from(bytes, round_up8(at + tag.size));
        rest.insert(0, tag)
    } else {
        Seq::empty()
    }
}

/// A cursor over the tags of the boot information.
pub struct TagIter<'a> {
    bytes: &'a [u8],
    current: usize,
}

impl<'a> TagIter<'a> {
    /// The tags still to come, in order.
    pub closed spec fn remaining(&self) -> Seq<TagBase> {
        tags_from(self.bytes@, self.current as int)
    }

    /// Hands out the next tag, if one is left, and steps past it.
    pub fn next(&mut self) -> (r: Option<TagBase>)
        ensures
            old(self).remaining().len() == 0 ==> r is None && final(self).remaining()
                == old(self).remaining(),
            old(self).remaining().len() > 0 ==> r == Some(old(self).remaining()[0]) && final(self).remaining() == old(self).remaining().skip(1),
    {
        let len = self.bytes.len();
        if len < TAG_HEADER || self.current > len - TAG_HEADER {
            return None;
        }
        let at = self.current;
        let typ = read_u32(self.bytes, at);
        let size = read_u32(self.bytes, at + 4);
        if size < 8 || (typ == 0 && size == 8) {
            return None;
        }
        let tag = TagBase { typ, size, offset: at };
        let size = size as usize;
        let ghost bytes = self.bytes@;
        let ghost next = round_up8(at + size);
        proof {
            lemma_round_up8(at + size);
            assert(tag_at(bytes, at as int) == Some(tag));
            assert(tags_from(bytes, at as int) == tags_from(bytes, next).insert(0, tag));
        }
        if size > len - at || len - at - size < 7 {
            proof {
                assert(tag_at(bytes, next) is None);
                assert(tag_at(bytes, len as int) is None);
                assert(tags_from(bytes, next) =~= tags_from(bytes, len as int));
            }
            self.current = len;
        } else {
            self.current = (at + size + 7) / 8 * 8;
        }
        proof {
            assert(self.remaining() == tags_from(bytes, next));
            assert(tags_from(bytes, next).insert(0, tag).skip(1) =~= tags_from(bytes, next));
        }
        Some(tag)
    }
}

/// Rounding up to a multiple of eight adds less than eight.
pub proof fn lemma_round_up8(n: int)
    requires
        n >= 0,
    ensures
        round_up8(n) == (n + 7) / 8 * 8,
        n <= round_up8(n) < n + 8,
        round_up8(n) % 8 == 0,
{
}

/// The tag of the memory map: its header, the size and version of its
/// entries, and the bytes in which it lies.
pub struct MemoryMapTag<'a> {
    bytes: &'a [u8],
    offset: usize,
    size: u32,
    entry_size: u32,
    entry_version: u32,
}

impl<'a> MemoryMapTag<'a> {
    /// The areas that the tag lists.
    pub closed spec fn listed(&self) -> Seq<MemoryArea> {
        areas_from(
            self.bytes@,
            self.offset + 16,
            self.offset + self.size,
            self.entry_size as int,
        )
    }

    /// The bytes of one entry.
    pub closed spec fn entry_bytes(&self) -> u32 {
        self.entry_size
    }

    /// The version of the entries' layout.
    pub closed spec fn version(&self) -> u32 {
        self.entry_version
    }

    pub closed spec fn wf(&self) -> bool {
        self.offset + self.size <= self.bytes@.len() && self.size >= 16
    }

    pub fn entry_size(&self) -> (n: u32)
        ensures
            n == self.entry_bytes(),
    {
        self.entry_size
    }

    pub fn entry_version(&self) -> (n: u32)
        ensures
            n == self.version(),
    {
        self.entry_version
    }

    /// A cursor over the areas that the tag lists.
    pub fn areas(&self) -> (it: MemoryAreaIter<'a>)
        requires
            self.wf(),
        ensures
            it.remaining() == self.listed(),
    {
        let len = self.bytes.len();
        MemoryAreaIter {
            bytes: self.bytes,
            current_area: self.offset + 16,
            last_area: self.offset + self.size as usize,
            entry_size: self.entry_size as usize,
        }
    }
}

/// A tag of the boot information, read as what its kind says it is.
pub trait Tag {

}

impl<'a> Tag for CmdlineTag<'a> {

}

impl<'a> Tag for BootloaderTag<'a> {

}

impl<'a> Tag for MemoryMapTag<'a> {

}

/// The bytes that a tag of `size` bytes at `offset` holds after its header,
/// as far as they lie within `bytes`.
pub open spec fn payload(bytes: Seq<u8>, offset: int, size: int) -> Seq<u8> {
    if size >= 8 && 0 <= offset && offset + size <= bytes.len() {
        bytes.subrange(offset + 8, offset + size)
    } else {
        Seq::empty()
    }
}

fn payload_of<'a>(bytes: &'a [u8], tag: &TagBase) -> (p: &'a [u8])
    ensures
        p@ == payload(bytes@, tag.offset as int, tag.size as int),
{
    let len = bytes.len();
    let size = tag.size as usize;
    if tag.size >= 8 && tag.offset <= len && size <= len - tag.offset {
        vstd::slice::slice_subrange(bytes, tag.offset + 8, tag.offset + size)
    } else {
        let empty = vstd::slice::slice_subrange(bytes, 0, 0);
        assert(empty@ =~= Seq::<u8>::empty());
        empty
    }
}

/// The tag that holds the kernel's command line.
pub struct CmdlineTag<'a> {
    typ: TagType,
    size: u32,
    cmdline: &'a [u8],
}

impl<'a> CmdlineTag<'a> {
    /// The bytes of the command line.
    pub closed spec fn text(&self) -> Seq<u8> {
        self.cmdline@
    }

    /// The bytes of the command line, as the loader left them.
    pub fn get(&self) -> (s: &'a [u8])
        ensures
            s@ == self.text(),
    {
        self.cmdline
    }
}

/// The tag that holds the name of the boot loader.
pub struct BootloaderTag<'a> {
    typ: TagType,
    size: u32,
    bootloader: &'a [u8],
}

impl<'a> BootloaderTag<'a> {
    /// The bytes of the name.
    pub closed spec fn text(&self) -> Seq<u8> {
        self.bootloader@
    }

    /// The bytes of the boot loader's name, as the loader left them.
    pub fn get(&self) -> (s: &'a [u8])
        ensures
            s@ == self.text(),
    {
        self.bootloader
    }
}

/// The boot information: where it lies in memory, and a copy of its bytes.
pub struct BootInfo {
    addr: usize,
    bytes: Vec<u8>,
}

/// The first of `tags` whose type is `code`.
pub open spec fn first_of(tags: Seq<TagBase>, code: u32) -> Option<TagBase>
    decreases tags.len(),
{
    if tags.len() == 0 {
        None
    } else if tags[0].typ == code {
        Some(tags[0])
    } else {
        first_of(tags.skip(1), code)
    }
}

impl BootInfo {
    /// The bytes of the boot information.
    pub closed spec fn data(&self) -> Seq<u8> {
        self.bytes@
    }

    /// The address at which the boot information lies.
    pub closed spec fn base(&self) -> usize {
        self.addr
    }

    /// The bytes hold the header, are as many as the header says, and end at an address.
    pub open spec fn wf(&self) -> bool {
        &&& self.data().len() >= 8
        &&& le_u32(self.data(), 0) == self.data().len()
        &&& self.base() + self.data().len() <= usize::MAX
    }

    /// The tags of the boot information, in order.
    pub open spec fn tag_seq(&self) -> Seq<TagBase> {
        tags_from(self.data(), 8)
    }

    /// The areas of the memory map, if the boot information holds a tag
    /// of the memory map that lies within its bytes and is large enough
    /// for its own fields.
    pub open spec fn memory_areas(&self) -> Option<Seq<MemoryArea>> {
        match first_of(self.tag_seq(), TagType::Mmap.code()) {
            Some(tag) => if tag.size >= 16 && tag.offset + tag.size <= self.data().len() {
                Some(
                    areas_from(
                        self.data(),
                        tag.offset + 16,
                        tag.offset + tag.size,
                        le_u32(self.data(), tag.offset + 8),
                    ),
                )
            } else {
                None
            },
            None => None,
        }
    }

    pub fn start_addr(&self) -> (a: usize)
        ensures
            a == self.base(),
    {
        self.addr
    }

    /// The size of the boot information, as its header gives it.
    pub fn size(&self) -> (n: usize)
        requires
            self.wf(),
        ensures
            n == self.data().len(),
    {
        read_u32(self.bytes.as_slice(), 0) as usize
    }

    pub fn end_addr(&self) -> (a: usize)
        requires
            self.wf(),
        ensures
            a == self.base() + self.data().len(),
    {
        self.start_addr() + self.size()
    }

    /// A cursor over the tags.
    pub fn tags(&self) -> (it: TagIter<'_>)
        ensures
            it.remaining() == self.tag_seq(),
    {
        TagIter { bytes: self.bytes.as_slice(), current: INFO_HEADER }
    }

    /// The first tag of kind `typ`.
    pub fn find_tag(&self, typ: TagType) -> (r: Option<TagBase>)
        ensures
            r == first_of(self.tag_seq(), typ.code()),
    {
        let code = typ.as_u32();
        let mut it = self.tags();
        let mut found: Option<TagBase> = None;
        loop
            invariant_except_break
                first_of(it.remaining(), code) == first_of(self.tag_seq(), code),
                found is None,
            ensures
                found == first_of(self.tag_seq(), code),
            decreases it.remaining().len(),
        {
            match it.next() {
                Some(tag) => {
                    if tag.typ == code {
                        found = Some(tag);
                        break ;
                    }
                },
                None => {
                    break ;
                },
            }
        }
        found
    }

    /// Whether the boot information reaches into the page at `addr`, or ends where it starts.
    pub fn overlap_page(&self, addr: usize) -> (b: bool)
        requires
            self.wf(),
            addr + 0x1000 <= usize::MAX,
        ensures
            b == (self.base() < addr + 0x1000 && addr <= self.base() + self.data().len()),
    {
        let start = self.start_addr();
        start < addr + 0x1000 && addr <= start + self.size()
    }

    /// The kernel's command line, if the boot information holds it.
    pub fn cmdline(&self) -> (r: Option<CmdlineTag<'_>>)
        ensures
            match first_of(self.tag_seq(), TagType::Cmdline.code()) {
                Some(tag) => r is Some && r->Some_0.text() == payload(
                    self.data(),
                    tag.offset as int,
                    tag.size as int,
                ),
                None => r is None,
            },
    {
        match self.find_tag(TagType::Cmdline) {
            Some(tag) => Some(
                CmdlineTag {
                    typ: TagType::Cmdline,
                    size: tag.size,
                    cmdline: payload_of(self.bytes.as_slice(), &tag),
                },
            ),
            None => None,
        }
    }

    /// The name of the boot loader, if the boot information holds it.
    pub fn bootloader(&self) -> (r: Option<BootloaderTag<'_>>)
        ensures
            match first_of(self.tag_seq(), TagType::Bootloader.code()) {
                Some(tag) => r is Some && r->Some_0.text() == payload(
                    self.data(),
                    tag.offset as int,
                    tag.size as int,
                ),
                None => r is None,
            },
    {
        match self.find_tag(TagType::Bootloader) {
            Some(tag) => Some(
                BootloaderTag {
                    typ: TagType::Bootloader,
                    size: tag.size,
                    bootloader: payload_of(self.bytes.as_slice(), &tag),
                },
            ),
            None => None,
        }
    }

    /// The tag of the memory map, if the boot information holds one that
    /// lies within its bytes and is large enough for its own fields.
    pub fn memory_map(&self) -> (r: Option<MemoryMapTag<'_>>)
        ensures
            r is Some <==> self.memory_areas() is Some,
            r is Some ==> {
                let tag = first_of(self.tag_seq(), TagType::Mmap.code())->Some_0;
                &&& r->Some_0.wf()
                &&& r->Some_0.listed() == self.memory_areas()->Some_0
                &&& r->Some_0.entry_bytes() == le_u32(self.data(), tag.offset + 8)
                &&& r->Some_0.version() == le_u32(self.data(), tag.offset + 12)
            },
    {
        match self.find_tag(TagType::Mmap) {
            Some(tag) => {
                let len = self.bytes.len();
                let size = tag.size as usize;
                if tag.size >= 16 && tag.offset <= len && size <= len - tag.offset {
                    let bytes = self.bytes.as_slice();
                    Some(
                        MemoryMapTag {
                            bytes,
                            offset: tag.offset,
                            size: tag.size,
                            entry_size: read_u32(bytes, tag.offset + 8),
                            entry_version: read_u32(bytes, tag.offset + 12),
                        },
                    )
                } else {
                    None
                }
            },
            None => None,
        }
    }
}

/// The boot information in `bytes`, a copy of what lies at `addr`, if
/// `magic` is the loader's and the bytes are what their header says.
pub fn init(magic: u64, addr: usize, bytes: Vec<u8>) -> (r: Option<BootInfo>)
    ensures
        r is Some <==> magic == MAGIC && bytes@.len() >= 8 && le_u32(bytes@, 0) == bytes@.len()
            && addr + bytes@.len() <= usize::MAX,
        r is Some ==> r->Some_0.wf() && r->Some_0.data() == bytes@ && r->Some_0.base() == addr,
{
    if magic != MAGIC || bytes.len() < INFO_HEADER {
        return None;
    }
    let size = read_u32(bytes.as_slice(), 0) as usize;
    if size != bytes.len() || bytes.len() > usize::MAX - addr {
        return None;
    }
    Some(BootInfo { addr, bytes })
}

} // verus!
