use kmem::arch::memory::{areas_in_range, bootstrap, init, regions, InitError};
use kmem::frame::Frame;
use kmem::frame_alloc::FrameAlloc;
use kmem::multiboot2::{self, AreaType, MemoryArea, TagType, MAGIC};

fn push_u32(bytes: &mut Vec<u8>, v: u32) {
    bytes.extend_from_slice(&v.to_le_bytes());
}

fn push_u64(bytes: &mut Vec<u8>, v: u64) {
    bytes.extend_from_slice(&v.to_le_bytes());
}

/// Boot information with a command line tag and a memory map of the given areas.
fn boot_info_bytes(areas: &[(u64, u64, u32)]) -> Vec<u8> {
    let mut tags: Vec<u8> = Vec::new();
    // command line "hi\0", padded to a multiple of eight
    push_u32(&mut tags, 1);
    push_u32(&mut tags, 11);
    tags.extend_from_slice(b"hi\0");
    tags.extend_from_slice(&[0u8; 5]);
    // memory map
    push_u32(&mut tags, 6);
    push_u32(&mut tags, 16 + 24 * areas.len() as u32);
    push_u32(&mut tags, 24);
    push_u32(&mut tags, 0);
    for &(base, length, typ) in areas {
        push_u64(&mut tags, base);
        push_u64(&mut tags, length);
        push_u32(&mut tags, typ);
        push_u32(&mut tags, 0);
    }
    // end
    push_u32(&mut tags, 0);
    push_u32(&mut tags, 8);
    let mut bytes: Vec<u8> = Vec::new();
    push_u32(&mut bytes, 8 + tags.len() as u32);
    push_u32(&mut bytes, 0);
    bytes.extend_from_slice(&tags);
    bytes
}

#[test]
fn identity_map_bootstrap_scenario() {
    let areas = vec![
        MemoryArea::new(0x100000, 0x100000, AreaType::Available),
        MemoryArea::new(0x200000, 0x100000, AreaType::Reserved),
    ];
    assert!(areas_in_range(&areas));
    let (space, allocator) = bootstrap(&areas, 0, 0).unwrap();
    let first = space.get_page(0x100000).unwrap();
    assert!(first.flags().bitand(kmem::paging::page::PageFlags::present()));
    assert!(first.flags().bitand(kmem::paging::page::PageFlags::write()));
    assert_eq!(first.frame(), Frame::from_addr(0x100000));
    let last = space.get_page(0x2FF000).unwrap();
    assert!(last.flags().bitand(kmem::paging::page::PageFlags::write()));
    assert_eq!(last.raw(), 0x2FF003);
    assert!(space.get_page(0x300000).is_none());
    assert!(space.get_page(0xFF000).is_none());
    // The root and four tables lie in the first five frames, the bitmap in the sixth.
    assert_eq!(space.root(), Frame::from_addr(0x100000));
    assert!(!allocator.is_free(Frame::from_addr(0x100000)));
    assert!(!allocator.is_free(Frame::from_addr(0x105000)));
    assert!(allocator.is_free(Frame::from_addr(0x106000)));
    assert!(allocator.is_free(Frame::from_addr(0x1FF000)));
    assert!(!allocator.is_free(Frame::from_addr(0x200000)));
}

#[test]
fn regions_are_cut_to_pages_above_kernel_and_boot_information() {
    let areas = vec![
        MemoryArea::new(0, 0x9F000, AreaType::Available),
        MemoryArea::new(0x100000, 0x7EE0800, AreaType::Available),
        MemoryArea::new(0x7FE0000, 0x20000, AreaType::Reserved),
        MemoryArea::new(0x8000000, 0x800, AreaType::Available),
    ];
    let regions = regions(&areas, 0x123456, 0x200010);
    assert_eq!(regions.len(), 1);
    assert_eq!(regions[0].start_addr(), 0x201000);
    assert_eq!(regions[0].size(), 0x7FE0000 - 0x201000);
    assert_eq!(regions[0].end_addr(), 0x7FE0000);
}

#[test]
fn init_reads_the_memory_map_of_the_boot_information() {
    let bytes = boot_info_bytes(&[(0x100000, 0x100000, 1), (0x200000, 0x100000, 2)]);
    let info = multiboot2::init(MAGIC, 0x9000, bytes).unwrap();
    assert_eq!(info.start_addr(), 0x9000);
    assert_eq!(info.size(), 8 + 16 + 64 + 8);
    assert_eq!(info.end_addr(), 0x9000 + 96);
    let tag = info.find_tag(TagType::Mmap).unwrap();
    assert_eq!(tag.offset, 24);
    assert_eq!(tag.size, 64);
    assert_eq!(tag.tag_type(), Some(TagType::Mmap));
    let listed = info.memory_map().unwrap().areas().collect();
    assert_eq!(listed.len(), 2);
    assert_eq!(listed[0].start_addr(), 0x100000);
    assert_eq!(listed[0].end_addr(), 0x200000);
    assert_eq!(listed[1].typ(), AreaType::Reserved);
    let (space, mut allocator) = init(&info, 0x101234).unwrap();
    // The first region starts at the page after the kernel's end.
    assert_eq!(space.root(), Frame::from_addr(0x102000));
    assert!(space.get_page(0x2FF000).is_some());
    assert!(!allocator.is_free(Frame::from_addr(0x101000)));
    assert!(!allocator.is_free(Frame::from_addr(0x107000)));
    assert_eq!(allocator.allocate(1).unwrap().first().addr(), 0x108000);
}

#[test]
fn init_fails_without_memory_map_or_memory() {
    let mut bytes: Vec<u8> = Vec::new();
    push_u32(&mut bytes, 16);
    push_u32(&mut bytes, 0);
    push_u32(&mut bytes, 0);
    push_u32(&mut bytes, 8);
    assert!(multiboot2::init(MAGIC + 1, 0, bytes.clone()).is_none());
    let info = multiboot2::init(MAGIC, 0, bytes).unwrap();
    assert!(info.find_tag(TagType::Mmap).is_none());
    assert_eq!(init(&info, 0).err(), Some(InitError::NoMemoryMap));

    let small = boot_info_bytes(&[(0x100000, 0x3000, 1)]);
    let info = multiboot2::init(MAGIC, 0, small).unwrap();
    assert_eq!(init(&info, 0).err(), Some(InitError::NoMemory));

    let far = boot_info_bytes(&[(0xFFFF_0000_0000_0000, 0x1000, 2)]);
    let info = multiboot2::init(MAGIC, 0, far).unwrap();
    assert_eq!(init(&info, 0).err(), Some(InitError::AreaOutOfRange));
}
