use kmem::addr::{PhysAddr, VirtAddr};
use kmem::frame::{Frame, FrameRange, MemoryArea, PAGE_MASK, PAGE_SHIFT, PAGE_SIZE};
use kmem::frame_alloc::AllocError;
use kmem::multiboot2::{self, TagType, MAGIC};

#[test]
fn addresses_round_to_multiples() {
    assert_eq!(PhysAddr::new(0x1234).align(0x1000).inner(), 0x1000);
    assert_eq!(PhysAddr::new(0x1000).align(0x1000).inner(), 0x1000);
    assert_eq!(PhysAddr::new(0x1234).align_up(0x1000).inner(), 0x2000);
    assert_eq!(PhysAddr::new(0x1000).align_up(0x1000).inner(), 0x2000);
    assert_eq!(VirtAddr::new(100).align(30).inner(), 90);
    assert_eq!(VirtAddr::new(100).align_up(30).inner(), 120);
    assert_eq!(PhysAddr::zero(), PhysAddr::new(0));
    assert_eq!(VirtAddr::zero().inner(), 0);
    assert_eq!(usize::from(PhysAddr::new(77)), 77);
    assert_eq!(usize::from(VirtAddr::new(78)), 78);
}

fn range_first_addr(idx: usize) -> usize {
    FrameRange::from_idx(idx, 1).first().addr()
}

#[test]
fn frames_and_ranges() {
    assert_eq!(PAGE_SIZE, 1 << PAGE_SHIFT);
    assert_eq!(PAGE_MASK, PAGE_SIZE - 1);
    assert_eq!(Frame::from_addr(0x5FFF).idx(), 5);
    assert_eq!(Frame::from_idx(5).addr(), 0x5000);
    assert!(Frame::from_idx(4) < Frame::from_idx(5));
    let range = FrameRange::from_addr(0x3000, 4);
    assert_eq!(range, FrameRange::from_idx(3, 4));
    assert_eq!(range.first().idx(), 3);
    assert_eq!(range.last().idx(), 6);
    assert_eq!(range.get(2).idx(), 5);
    assert_eq!(range.count(), 4);
    assert_eq!(range.addr(), 0x3000);
    assert_eq!(FrameRange::from_addr(0x100000, 1).addr(), 0x100000);
    assert_eq!(FrameRange::from_addr(0x100FFF, 2).addr(), range_first_addr(0x100));
    let mut it = range.iter();
    let mut seen = Vec::new();
    while let Some(frame) = it.next() {
        seen.push(frame.idx());
    }
    assert_eq!(seen, vec![3, 4, 5, 6]);
    assert!(it.next().is_none());
    let area = MemoryArea::new(0x1000, 0x2000);
    assert_eq!(area.start_addr(), 0x1000);
    assert_eq!(area.size(), 0x2000);
    assert_eq!(area.end_addr(), 0x3000);
    assert_eq!(AllocError::NoMemory.message(), "no memory");
}

#[test]
fn tags_are_walked_in_steps_of_eight() {
    let mut bytes: Vec<u8> = Vec::new();
    let put = |bytes: &mut Vec<u8>, v: u32| bytes.extend_from_slice(&v.to_le_bytes());
    put(&mut bytes, 8 + 16 + 24 + 8);
    put(&mut bytes, 0);
    // command line "boot\0": 13 bytes, padded to 16
    put(&mut bytes, 1);
    put(&mut bytes, 13);
    bytes.extend_from_slice(b"boot\0\0\0\0");
    // loader name "grub 2.06\0": 18 bytes, padded to 24
    put(&mut bytes, 2);
    put(&mut bytes, 18);
    bytes.extend_from_slice(b"grub 2.06\0\0\0\0\0\0\0");
    put(&mut bytes, 0);
    put(&mut bytes, 8);
    let info = multiboot2::init(MAGIC, 0x10000, bytes).unwrap();
    let mut it = info.tags();
    let first = it.next().unwrap();
    assert_eq!((first.typ, first.size, first.offset), (1, 13, 8));
    let second = it.next().unwrap();
    assert_eq!((second.typ, second.size, second.offset), (2, 18, 24));
    assert!(it.next().is_none());
    assert_eq!(info.cmdline().unwrap().get(), b"boot\0");
    assert_eq!(info.bootloader().unwrap().get(), b"grub 2.06\0");
    assert!(info.memory_map().is_none());
    assert_eq!(info.find_tag(TagType::Bootloader), Some(second));
    assert!(info.overlap_page(0x10000));
    assert!(!info.overlap_page(0x11000));
    assert!(info.overlap_page(0xF001));
    assert_eq!(TagType::from_u32(6), Some(TagType::Mmap));
    assert_eq!(TagType::from_u32(22), None);
    assert_eq!(TagType::LoadBaseAddr.as_u32(), 21);
}
