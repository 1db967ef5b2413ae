use kmem::bump::BumpAlloc;
use kmem::frame::{Frame, MemoryArea};
use kmem::frame_alloc::AllocError;
use kmem::paging::mapper::PageMapper;
use kmem::paging::page::{Page, PageFlags};

fn mapper_with(pages: usize) -> PageMapper<BumpAlloc> {
    let bump = BumpAlloc::new(vec![MemoryArea::new(0x100000, pages * 0x1000)]);
    PageMapper::new(bump).unwrap()
}

#[test]
fn map_then_get_returns_what_was_set() {
    let mut mapper = mapper_with(8);
    let flags = PageFlags::present().bitor(PageFlags::write());
    {
        let page = mapper.map_page(0x7654_3210_9000, Frame::from_idx(0xABCDE), flags).unwrap();
        assert_eq!(page.frame().idx(), 0xABCDE);
    }
    let page = mapper.get_page(0x7654_3210_9000).unwrap();
    assert_eq!(page.frame(), Frame::from_idx(0xABCDE));
    assert_eq!(page.flags().raw(), 3);
    assert_eq!(page.raw(), 0xABCDE003);
    let same = mapper.get_page(0x7654_3210_9FFF).unwrap();
    assert_eq!(same.raw(), 0xABCDE003);
}

#[test]
fn unmapped_page_stays_absent_when_others_are_mapped() {
    let mut mapper = mapper_with(16);
    assert!(mapper.get_page(0x40_0000).is_none());
    let flags = PageFlags::present();
    mapper.map_page(0x40_1000, Frame::from_idx(7), flags).unwrap();
    mapper.map_page(0x8000_0000, Frame::from_idx(8), flags).unwrap();
    assert!(mapper.get_page(0x40_0000).is_none());
    assert!(mapper.get_page(0x40_1000).is_some());
}

#[test]
fn clear_page_unmaps() {
    let mut mapper = mapper_with(8);
    let flags = PageFlags::present().bitor(PageFlags::user());
    mapper.map_page(0x1000, Frame::from_idx(3), flags).unwrap();
    mapper.map_page(0x2000, Frame::from_idx(4), flags).unwrap();
    mapper.clear_page(0x1000);
    assert!(mapper.get_page(0x1000).is_none());
    assert_eq!(mapper.get_page(0x2000).unwrap().frame().idx(), 4);
    mapper.clear_page(0x5000);
    assert!(mapper.get_page(0x5000).is_none());
}

#[test]
fn touch_page_fails_without_frames_and_keeps_what_it_made() {
    // One frame for the root, two for the first two tables of the walk: the third is missing.
    let mut mapper = mapper_with(3);
    assert_eq!(mapper.touch_page(0x1000, PageFlags::write()).err(), Some(AllocError::NoMemory));
    assert!(mapper.get_page(0x1000).is_none());
    let bump = mapper.into_allocator();
    assert_eq!(bump.offset(), 0x3000);
}

#[test]
fn map_page_without_present_flag_is_not_found() {
    let mut mapper = mapper_with(8);
    mapper.map_page(0x1000, Frame::from_idx(3), PageFlags::write()).unwrap();
    assert!(mapper.get_page(0x1000).is_none());
}

#[test]
fn page_packs_frame_and_flags() {
    let mut page = Page::new();
    assert_eq!(page.raw(), 0);
    page.set_frame(Frame::from_addr(0x5000)).set_flags(PageFlags::present().bitor(PageFlags::user()));
    assert_eq!(page.raw(), 0x5005);
    assert_eq!(page.frame().addr(), 0x5000);
    assert_eq!(page.addr().inner(), 0x5000);
    assert!(page.flags().bitand(PageFlags::user()));
    assert!(!page.flags().bitand(PageFlags::write()));
    page.set_flags(PageFlags::write());
    assert_eq!(page.raw(), 0x5002);
}

#[test]
fn kernel_page_directory_holds_the_walk_to_address_zero() {
    let bump = BumpAlloc::new(vec![MemoryArea::new(0x100000, 0x8000)]);
    let mut mapper = kmem::paging::mapper::alloc_kernel_page_directory(bump).unwrap();
    assert!(mapper.get_page(0).is_none());
    assert_eq!(mapper.root(), Frame::from_addr(0x100000));
    // The walk is there: mapping a page under it takes no further frame.
    mapper.map_page(0x1FF000, Frame::from_idx(9), PageFlags::present()).unwrap();
    assert_eq!(mapper.get_page(0x1FF000).unwrap().frame().idx(), 9);
    let (space, bump) = mapper.into_parts();
    assert_eq!(bump.offset(), 0x4000);
    assert_eq!(space.level1().len(), 1);
    assert_eq!(space.level1().frame(0), Frame::from_addr(0x103000));
    assert_eq!(space.root_table().entry(0).raw(), 0x101003);
    assert_eq!(space.level3().table(0).entry(0).raw(), 0x102003);
    assert_eq!(space.level2().table(0).entry(0).raw(), 0x103003);
    assert_eq!(space.level1().table(0).entry(0x1FF).raw(), 0x9001);

    let small = BumpAlloc::new(vec![MemoryArea::new(0x100000, 0x3000)]);
    assert!(kmem::paging::mapper::alloc_kernel_page_directory(small).is_err());
}

#[test]
fn clear_page_empties_the_leaf_and_keeps_the_directories() {
    let mut mapper = mapper_with(8);
    let flags = PageFlags::present().bitor(PageFlags::write());
    mapper.map_page(0x40_2000, Frame::from_idx(0x77), flags).unwrap();
    let root_entry = mapper.address_space().root_table().entry(0).raw();
    let l3_entry = mapper.address_space().level3().table(0).entry(0).raw();
    let l2_entry = mapper.address_space().level2().table(0).entry(2).raw();
    assert_eq!(root_entry, 0x101003);
    assert_eq!(l3_entry, 0x102003);
    assert_eq!(l2_entry, 0x103003);
    assert_eq!(mapper.address_space().level1().table(0).entry(2).raw(), 0x77003);
    mapper.clear_page(0x40_2000);
    assert_eq!(mapper.address_space().level1().table(0).entry(2).raw(), 0);
    assert_eq!(mapper.address_space().root_table().entry(0).raw(), root_entry);
    assert_eq!(mapper.address_space().level3().table(0).entry(0).raw(), l3_entry);
    assert_eq!(mapper.address_space().level2().table(0).entry(2).raw(), l2_entry);
    assert_eq!(mapper.address_space().level1().len(), 1);
    // Clearing a page that is not mapped changes nothing, and takes no frame.
    mapper.clear_page(0x8000_0000);
    assert_eq!(mapper.address_space().root_table().entry(0).raw(), root_entry);
    assert_eq!(mapper.address_space().level3().table(0).entry(2).raw(), 0);
    assert_eq!(mapper.into_allocator().offset(), 0x4000);
}

#[test]
fn current_starts_from_an_empty_root() {
    let bump = BumpAlloc::new(vec![MemoryArea::new(0x100000, 0x4000)]);
    let mut mapper = PageMapper::current(Frame::from_addr(0x7000), bump);
    assert_eq!(mapper.root(), Frame::from_idx(7));
    assert!(mapper.get_page(0).is_none());
    assert_eq!(mapper.address_space().root_table().entry(511).raw(), 0);
    mapper.map_page(0x3000, Frame::from_idx(3), PageFlags::present()).unwrap();
    assert_eq!(mapper.address_space().root_table().entry(0).raw(), 0x100001);
    assert_eq!(mapper.get_page(0x3000).unwrap().raw(), 0x3001);
}
