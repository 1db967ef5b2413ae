use kmem::bitmap::BitmapAlloc;
use kmem::bump::BumpAlloc;
use kmem::frame::{Frame, FrameRange, MemoryArea};
use kmem::frame_alloc::{AllocError, FrameAlloc};

#[test]
fn bump_hands_out_rising_page_aligned_frames() {
    let mut bump = BumpAlloc::new(vec![MemoryArea::new(0x100000, 0x3000), MemoryArea::new(0x200000, 0x2000)]);
    let a = bump.allocate(1).unwrap();
    assert_eq!(a.first().addr(), 0x100000);
    let b = bump.allocate(2).unwrap();
    assert_eq!(b.first().addr(), 0x101000);
    assert_eq!(b.last().addr(), 0x102000);
    let c = bump.allocate(2).unwrap();
    assert_eq!(c.first().addr(), 0x200000);
    assert_eq!(bump.offset(), 0x5000);
    assert_eq!(bump.allocate(1), Err(AllocError::NoMemory));
    assert_eq!(bump.offset(), 0x5000);
}

#[test]
fn bitmap_takes_over_what_bump_left() {
    let mut bump = BumpAlloc::new(vec![MemoryArea::new(0x100000, 0x100000)]);
    bump.allocate(5).unwrap();
    let mut bitmap = BitmapAlloc::new(bump).unwrap();
    assert!(!bitmap.is_free(Frame::from_addr(0x100000)));
    assert!(!bitmap.is_free(Frame::from_addr(0x105000)));
    assert!(bitmap.is_free(Frame::from_addr(0x106000)));
    assert!(bitmap.is_free(Frame::from_addr(0x1FF000)));
    assert!(!bitmap.is_free(Frame::from_addr(0x200000)));
    let f = bitmap.allocate(1).unwrap();
    assert_eq!(f, FrameRange::from_idx(0x106, 1));
    let g = bitmap.allocate(1).unwrap();
    assert_eq!(g.first().idx(), 0x107);
    bitmap.free(f);
    assert_eq!(bitmap.allocate(1).unwrap().first().idx(), 0x106);
}

#[test]
fn bitmap_hands_out_runs_of_neighbours_only() {
    let bump = BumpAlloc::new(vec![MemoryArea::new(0x100000, 0x8000)]);
    let mut bitmap = BitmapAlloc::new(bump).unwrap();
    // The bitmap lies in the first frame; seven frames are free.
    let mut frames = Vec::new();
    for _ in 0..7 {
        frames.push(bitmap.allocate(1).unwrap());
    }
    assert_eq!(frames[0].first().idx(), 0x101);
    assert_eq!(frames[6].first().idx(), 0x107);
    assert_eq!(bitmap.allocate(1), Err(AllocError::NoMemory));
    bitmap.free(frames[1]);
    bitmap.free(frames[3]);
    bitmap.free(frames[4]);
    let pair = bitmap.allocate(2).unwrap();
    assert_eq!(pair, FrameRange::from_idx(0x104, 2));
    bitmap.free(frames[6]);
    // Two frames are free, 0x102 and 0x107, but they are no neighbours.
    assert!(bitmap.is_free(Frame::from_idx(0x102)));
    assert!(bitmap.is_free(Frame::from_idx(0x107)));
    assert_eq!(bitmap.allocate(2), Err(AllocError::NoMemory));
    assert_eq!(bitmap.allocate(1).unwrap().first().idx(), 0x102);
    // Frames that the bitmap does not track are neither free nor freed.
    bitmap.free(FrameRange::from_idx(0x200, 4));
    assert!(!bitmap.is_free(Frame::from_idx(0x200)));
}

#[test]
fn bump_skips_an_area_that_is_too_small_for_the_request() {
    let mut bump = BumpAlloc::new(vec![
        MemoryArea::new(0x100000, 0x2000),
        MemoryArea::new(0x200000, 0x4000),
    ]);
    assert_eq!(bump.allocate(1).unwrap().first().addr(), 0x100000);
    // Two frames do not fit into what is left of the first area.
    assert_eq!(bump.allocate(2).unwrap().first().addr(), 0x200000);
    assert_eq!(bump.offset(), 0x4000);
    assert_eq!(bump.allocate(1).unwrap().first().addr(), 0x202000);
    assert_eq!(bump.allocate(2), Err(AllocError::NoMemory));
    assert_eq!(bump.offset(), 0x5000);
    assert_eq!(bump.mmap().len(), 2);
}
