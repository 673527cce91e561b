use alarm::log2::{is_power_of_two, next_power_of_two};
use alarm::{AllocErr, Frame, FrameAllocator, FrameCache, Heap, Log2, MockFrame};

type Cache = FrameCache<4096>;

fn cache() -> Cache {
    FrameCache::from_frames(Frame { base: 0x10000 }, Frame { base: 0x20000 }, Frame { base: 0x30000 })
}

fn heap() -> Heap<Cache> {
    Heap::new(512, cache()).unwrap()
}

fn free_lens(heap: &Heap<Cache>) -> Vec<usize> {
    (0..heap.orders()).map(|o| heap.free_list_len(o)).collect()
}

fn free_bytes(heap: &Heap<Cache>) -> usize {
    (0..heap.orders()).map(|o| heap.free_list_len(o) * (heap.min_block_size() << o)).sum()
}

#[test]
fn it_fn_works_alarm_test() {
    let f = MockFrame { number: 0 };
    println!("{:?}", f.base_address());
    println!("{:?}", f.end_address());
    assert_eq!(f.base_address().0, 0);
    assert_eq!(f.end_address().0, 4095);
    assert_eq!(MockFrame { number: 2 }.to_frame(), Frame { base: 8192 });
}

#[test]
fn it_works() {
    assert_eq!(2 + 2, 4);
}

#[test]
fn new_heap_holds_one_frame() {
    let heap = heap();
    assert_eq!(heap.min_block_size(), 512);
    assert_eq!(heap.heap_size(), 4096);
    assert_eq!(free_lens(&heap), vec![0, 0, 0, 1]);
}

#[test]
fn new_heap_rejects_bad_block_sizes() {
    assert_eq!(Heap::new(3, cache()).err(), Some(AllocErr::Unsupported));
    assert_eq!(Heap::new(8192, cache()).err(), Some(AllocErr::Unsupported));
    assert_eq!(Heap::new(0, cache()).err(), Some(AllocErr::Unsupported));
}

#[test]
fn block_size_rounds_requests() {
    let heap = heap();
    assert_eq!(heap.block_size(1, 1), Ok(512));
    assert_eq!(heap.block_size(600, 8), Ok(1024));
    assert_eq!(heap.block_size(100, 2048), Ok(2048));
    assert_eq!(heap.block_size(4096, 4096), Ok(4096));
    assert_eq!(heap.block_size(4097, 8), Err(AllocErr::UnsupportedSize));
    assert_eq!(heap.block_size(usize::MAX, 8), Err(AllocErr::UnsupportedSize));
    assert_eq!(heap.block_size(16, 3), Err(AllocErr::UnsupportedAlignment));
    assert_eq!(heap.block_size(16, 0), Err(AllocErr::UnsupportedAlignment));
    assert_eq!(heap.block_size(16, 8192), Err(AllocErr::UnsupportedAlignment));
    assert_eq!(heap.block_order(600, 8), Ok(1));
    assert_eq!(heap.block_order(1, 1), Ok(0));
    assert_eq!(heap.block_order(3000, 1), Ok(3));
    assert_eq!(heap.block_order(16, 3), Err(AllocErr::UnsupportedAlignment));
}

#[test]
fn buddies_differ_in_the_bit_of_their_size() {
    let heap = heap();
    assert_eq!(heap.get_buddy(0x10000, 0), Some(0x10200));
    assert_eq!(heap.get_buddy(0x10200, 0), Some(0x10000));
    assert_eq!(heap.get_buddy(0x10400, 1), Some(0x10000));
    assert_eq!(heap.get_buddy(0x10800, 2), Some(0x10000));
    assert_eq!(heap.get_buddy(0x10000, 3), None);
}

#[test]
fn split_then_reassemble() {
    let mut heap = heap();
    let a = heap.allocate(512, 512).unwrap();
    assert_eq!(a, 0x10000);
    assert_eq!(free_lens(&heap), vec![1, 1, 1, 0]);
    heap.deallocate(a, 512, 512);
    assert_eq!(free_lens(&heap), vec![0, 0, 0, 1]);
    assert_eq!(heap.allocate(4096, 4096), Ok(0x10000));
}

#[test]
fn exhaustion_triggers_refill() {
    let mut heap = heap();
    assert_eq!(heap.allocate(4096, 8), Ok(0x10000));
    assert_eq!(free_lens(&heap), vec![0, 0, 0, 0]);
    assert_eq!(heap.heap_size(), 4096);
    let b = heap.allocate(16, 8).unwrap();
    assert_eq!(b, 0x20000);
    assert_eq!(heap.heap_size(), 8192);
    assert_eq!(free_lens(&heap), vec![1, 1, 1, 0, 0]);
    assert_eq!(heap.allocate(4096, 8), Ok(0x30000));
    assert_eq!(heap.heap_size(), 12288);
    assert_eq!(heap.allocate(4096, 8), Err(AllocErr::Exhausted));
    assert_eq!(heap.heap_size(), 12288);
    assert_eq!(free_lens(&heap), vec![1, 1, 1, 0, 0]);
}

#[test]
fn a_request_larger_than_a_frame_fits_a_larger_heap() {
    let mut heap = heap();
    assert_eq!(heap.block_size(8192, 8), Err(AllocErr::UnsupportedSize));
    assert_eq!(heap.refill(), Ok(()));
    assert_eq!(heap.block_size(8192, 8), Ok(8192));
    assert_eq!(heap.block_order(8192, 8), Ok(4));
    // The two frames are not buddies, so no block of two frames is free;
    // the heap takes the last frame and still has none.
    assert_eq!(heap.allocate(8192, 8), Err(AllocErr::Exhausted));
    assert_eq!(heap.heap_size(), 12288);
    assert_eq!(free_lens(&heap), vec![0, 0, 0, 3, 0]);
}

fn adjacent_cache() -> Cache {
    FrameCache::from_frames(Frame { base: 0x10000 }, Frame { base: 0x11000 }, Frame { base: 0x12000 })
}

#[test]
fn adjacent_frames_merge_into_larger_blocks() {
    let mut heap = Heap::new(512, adjacent_cache()).unwrap();
    assert_eq!(heap.get_buddy(0x10000, 3), None);
    assert_eq!(heap.refill(), Ok(()));
    assert_eq!(heap.heap_size(), 8192);
    assert_eq!(free_lens(&heap), vec![0, 0, 0, 2, 0]);
    assert_eq!(heap.get_buddy(0x10000, 3), Some(0x11000));
    assert_eq!(heap.get_buddy(0x10000, 4), None);
    let a = heap.allocate(4096, 8).unwrap();
    let b = heap.allocate(4096, 8).unwrap();
    assert_eq!((a, b), (0x11000, 0x10000));
    heap.deallocate(a, 4096, 8);
    heap.deallocate(b, 4096, 8);
    assert_eq!(free_lens(&heap), vec![0, 0, 0, 0, 1]);
    assert_eq!(heap.allocate(8192, 8), Ok(0x10000));
}

#[test]
fn unsupported_alignment_changes_nothing() {
    let mut heap = heap();
    let before = free_lens(&heap);
    assert_eq!(heap.allocate(16, 3), Err(AllocErr::UnsupportedAlignment));
    assert_eq!(heap.allocate(16, 8192), Err(AllocErr::UnsupportedAlignment));
    assert_eq!(heap.allocate(5000, 8), Err(AllocErr::UnsupportedSize));
    assert_eq!(free_lens(&heap), before);
    assert_eq!(heap.heap_size(), 4096);
}

#[test]
fn allocations_are_aligned() {
    let mut heap = heap();
    for &(size, align) in &[(100usize, 256usize), (1, 1024), (700, 16), (1, 2048), (300, 512)] {
        let a = heap.allocate(size, align).unwrap();
        assert_eq!(a % align, 0);
        assert_eq!(a % heap.block_size(size, align).unwrap(), 0);
    }
}

#[test]
fn round_trip_frees_every_byte() {
    let mut heap = heap();
    let reqs = [(512usize, 8usize), (1000, 8), (512, 512), (2000, 4), (300, 64), (4096, 4096)];
    let mut got = Vec::new();
    for &(size, align) in &reqs {
        got.push((heap.allocate(size, align).unwrap(), size, align));
    }
    assert!(free_bytes(&heap) < heap.heap_size());
    for &i in &[3usize, 0, 5, 2, 4, 1] {
        let (a, size, align) = got[i];
        heap.deallocate(a, size, align);
    }
    assert_eq!(free_bytes(&heap), heap.heap_size());
    assert_eq!(free_lens(&heap)[3] * 4096 + free_lens(&heap)[4] * 8192, heap.heap_size());
}

#[test]
fn merging_buddies_in_either_order() {
    let mut one = heap();
    let mut two = heap();
    let a1 = one.allocate(512, 8).unwrap();
    let b1 = one.allocate(512, 8).unwrap();
    let a2 = two.allocate(512, 8).unwrap();
    let b2 = two.allocate(512, 8).unwrap();
    assert_eq!((a1, b1), (0x10000, 0x10200));
    assert_eq!((a1, b1), (a2, b2));
    one.deallocate(a1, 512, 8);
    one.deallocate(b1, 512, 8);
    two.deallocate(b2, 512, 8);
    two.deallocate(a2, 512, 8);
    assert_eq!(free_lens(&one), free_lens(&two));
    assert_eq!(free_lens(&one), vec![0, 0, 0, 1]);
    assert_eq!(one.allocate(4096, 8), two.allocate(4096, 8));
}

#[test]
fn refill_adds_a_frame() {
    let mut heap = heap();
    assert_eq!(heap.refill(), Ok(()));
    assert_eq!(heap.heap_size(), 8192);
    assert_eq!(free_lens(&heap), vec![0, 0, 0, 2, 0]);
    assert_eq!(heap.refill(), Ok(()));
    assert_eq!(heap.refill(), Err(AllocErr::Exhausted));
    assert_eq!(heap.heap_size(), 12288);
}

#[test]
fn frame_cache_hands_out_three_frames() {
    let mut cache = cache();
    assert_eq!(Cache::frame_size(), 4096);
    let f1 = cache.allocate_frame().unwrap();
    assert_eq!(f1, Frame { base: 0x10000 });
    assert_eq!(cache.allocate_frame(), Ok(Frame { base: 0x20000 }));
    assert_eq!(cache.allocate_frame(), Ok(Frame { base: 0x30000 }));
    assert_eq!(cache.allocate_frame(), Err(AllocErr::Exhausted));
    assert_eq!(cache.deallocate_frame(f1), Ok(()));
    assert_eq!(cache.allocate_frame(), Ok(Frame { base: 0x10000 }));
    assert_eq!(cache.deallocate_frame(Frame { base: 0x40000 }), Ok(()));
    assert_eq!(cache.deallocate_frame(Frame { base: 0x50000 }), Ok(()));
    assert_eq!(cache.deallocate_frame(Frame { base: 0x60000 }), Ok(()));
    assert_eq!(cache.deallocate_frame(Frame { base: 0x70000 }), Err(AllocErr::Unsupported));
    assert_eq!(cache.allocate_frame(), Ok(Frame { base: 0x40000 }));
}

#[test]
fn log2_and_powers_of_two() {
    assert_eq!(1usize.log2(), 0);
    assert_eq!(2usize.log2(), 1);
    assert_eq!(4096usize.log2(), 12);
    assert_eq!(4097usize.log2(), 12);
    assert_eq!(usize::MAX.log2(), (usize::BITS - 1) as usize);
    assert!(!is_power_of_two(0));
    assert!(is_power_of_two(1));
    assert!(is_power_of_two(4096));
    assert!(!is_power_of_two(6));
    assert!(!is_power_of_two(usize::MAX));
    assert_eq!(next_power_of_two(0), Some(1));
    assert_eq!(next_power_of_two(5), Some(8));
    assert_eq!(next_power_of_two(4096), Some(4096));
    assert_eq!(next_power_of_two(usize::MAX), None);
}

#[test]
fn frame_cache_from_another_provider() {
    let mut source = cache();
    let mut copy: Cache = FrameCache::from_alloc(&mut source);
    assert_eq!(source.allocate_frame(), Err(AllocErr::Exhausted));
    assert_eq!(copy.allocate_frame(), Ok(Frame { base: 0x10000 }));
    assert_eq!(copy.allocate_frame(), Ok(Frame { base: 0x20000 }));
    assert_eq!(copy.allocate_frame(), Ok(Frame { base: 0x30000 }));
    assert_eq!(copy.allocate_frame(), Err(AllocErr::Exhausted));
    let mut empty: Cache = FrameCache::from_alloc(&mut source);
    assert_eq!(empty.allocate_frame(), Err(AllocErr::Exhausted));
}
