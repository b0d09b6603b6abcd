use shmipc::buffer::manager::{BufferManager, BUFFER_CAP_OFFSET, BUFFER_HEADER_SIZE};
use shmipc::buffer::slice::{BufferHeader, BufferSlice, SliceData, SliceList};
use shmipc::config::SizePercentPair;
use shmipc::error::Error;
use shmipc::mem;

fn noise(seed: u64, n: usize) -> Vec<u8> {
    let mut x = seed.wrapping_mul(0x9E37_79B9_7F4A_7C15).wrapping_add(1);
    let mut v = Vec::with_capacity(n);
    for _ in 0..n {
        x = x.wrapping_mul(6364136223846793005).wrapping_add(1442695040888963407);
        v.push((x >> 56) as u8);
    }
    v
}

fn heap(n: usize) -> BufferSlice {
    BufferSlice::new_heap(vec![0u8; n])
}

fn is_same(a: Option<&BufferSlice>, b: Option<&BufferSlice>) -> bool {
    match (a, b) {
        (Some(a), Some(b)) => std::ptr::eq(a, b),
        (None, None) => true,
        _ => false,
    }
}

#[test]
fn test_buffer_slice_read_write() {
    const SIZE: usize = 8192;

    let mut mem: [u8; 0] = [];
    let mut slice = heap(SIZE);
    for i in 0..SIZE {
        let n = slice.append(&mut mem, &[i as u8]);
        assert_eq!(n, 1);
    }
    let n = slice.append(&mut mem, &[10]);
    assert_eq!(n, 0);

    let data = slice.read(&mem, SIZE * 10);
    assert_eq!(data.len(), SIZE);
    (0..SIZE).for_each(|i| {
        assert_eq!(data[i], i as u8);
    });
}

#[test]
fn test_buffer_slice_skip() {
    const SIZE: usize = 8192;

    let mut mem: [u8; 0] = [];
    let mut slice = heap(SIZE);
    slice.append(&mut mem, &[0u8; SIZE]);
    let mut remain = slice.capacity();

    let n = slice.skip(10);
    remain -= n;
    assert_eq!(remain, slice.size());

    let n = slice.skip(100);
    remain -= n;
    assert_eq!(remain, slice.size());

    _ = slice.skip(10000);
    assert_eq!(0, slice.size());
}

#[test]
fn test_buffer_slice_reserve() {
    const SIZE: usize = 8192;

    let mut mem: [u8; 0] = [];
    let mut slice = heap(SIZE);
    let data1 = slice.reserve(&mut mem, 100).unwrap();
    assert_eq!(100, data1.len());
    (0..data1.len()).for_each(|i| data1[i] = i as u8);
    let data1 = data1.to_vec();

    let data2 = slice.reserve(&mut mem, SIZE);
    assert!(data2.is_err());

    let read_data = slice.read(&mem, 100);
    assert_eq!(100, read_data.len());
    (0..100).for_each(|i| {
        assert_eq!(read_data[i], data1[i]);
    });

    let read_data = slice.read(&mem, 10000);
    assert_eq!(read_data.len(), 0);
}

#[test]
fn reserving_too_much_runs_out_of_buffer() {
    let mut mem: [u8; 0] = [];
    let mut slice = heap(16);
    assert!(matches!(slice.reserve(&mut mem, 17), Err(Error::NoMoreBuffer)));
    assert_eq!(slice.size(), 0);
    assert_eq!(slice.remain(), 16);
}

#[test]
fn test_buffer_slice_update() {
    const SIZE: usize = 8192;

    let mut region = vec![0u8; BUFFER_HEADER_SIZE as usize + SIZE];
    mem::set_u32(&mut region, BUFFER_CAP_OFFSET as usize, 8192u32);
    let mut slice = BufferSlice::new(
        &region,
        Some(BufferHeader(0)),
        SliceData::Shm(BUFFER_HEADER_SIZE as usize),
        SIZE as u32,
        0,
        true,
    );

    let n = slice.append(&mut region, &[0u8; SIZE]);
    assert_eq!(n, SIZE);
    slice.update(&mut region, None);
    assert_eq!(SIZE, slice.buffer_header.as_ref().unwrap().size(&region) as usize);
}

#[test]
fn test_buffer_slice_linked_next() {
    const SIZE: usize = 8192;
    const SLICE_NUM: usize = 100;

    let mut slices = Vec::with_capacity(SLICE_NUM);
    let mut mem = vec![0u8; 10 << 20];
    let bm = BufferManager::create(
        &[SizePercentPair { size: 8192, percent: 100 }],
        "",
        &mut mem,
        0,
    )
    .unwrap();

    let mut write_data_array = Vec::with_capacity(100);

    for k in 0..SLICE_NUM {
        let mut s = bm.alloc_shm_buffer(&mut mem, SIZE as u32).unwrap();
        let data = noise(k as u64, SIZE);
        assert_eq!(s.append(&mut mem, &data), SIZE);
        s.update(&mut mem, None);
        slices.push(s);
        write_data_array.push(data);
    }

    for i in 0..slices.len() - 1 {
        slices[i]
            .buffer_header
            .as_ref()
            .unwrap()
            .link_next(&mut mem, slices[i + 1].offset_in_shm);
    }

    let mut next = slices[0].offset_in_shm;
    (0..SLICE_NUM).for_each(|i| {
        let mut s = bm.read_buffer_slice(&mem, next).unwrap();
        assert_eq!(s.capacity(), SIZE);
        assert_eq!(s.size(), SIZE);
        let read_data = s.read(&mem, SIZE);
        assert_eq!(read_data.len(), SIZE);
        (0..SIZE).for_each(|j| {
            assert_eq!(read_data[j], write_data_array[i][j]);
        });
        let is_last_slice = i == SLICE_NUM - 1;
        assert_eq!(s.buffer_header.as_ref().unwrap().has_next(&mem), !is_last_slice);
        next = s.buffer_header.as_ref().unwrap().next_buffer_offset(&mem);
    });
}

#[test]
fn test_slice_list_push_pop() {
    // 1. twice push, twice pop
    let mut l = SliceList::new();
    l.push_back(heap(1024));
    assert!(is_same(l.front(), l.back()));
    assert_eq!(1, l.size());

    l.push_back(heap(1024));
    assert_eq!(2, l.size());
    assert!(!is_same(l.front(), l.back()));

    l.pop_front();
    assert_eq!(1, l.size());
    assert!(is_same(l.front(), l.back()));

    l.pop_front();
    assert_eq!(0, l.size());
    assert!(l.front().is_none());
    assert!(l.back().is_none());

    // multi push and pop
    for i in 0..100 {
        l.push_back(heap(1024));
        assert_eq!(i + 1, l.size());
    }
    for i in 0..100 {
        l.pop_front();
        assert_eq!(100 - (i + 1), l.size());
    }
    assert_eq!(0, l.size());
    assert!(l.front().is_none());
    assert!(l.back().is_none());
}

#[test]
fn test_slice_list_split_from_write() {
    // 1. sliceList's size == 1
    let mut l = SliceList::new();
    l.push_back(heap(1024));
    l.set_write_slice(Some(0));
    assert!(l.split_from_write().is_none());
    assert_eq!(1, l.size());
    assert!(is_same(l.front(), l.back()));
    assert!(is_same(l.back(), l.write()));

    // 2. sliceList's size == 2, writeSlice's index is 0
    let mut l = SliceList::new();
    l.push_back(heap(1024));
    l.push_back(heap(1024));
    l.set_write_slice(Some(0));
    l.split_from_write();

    assert_eq!(1, l.size());
    assert!(is_same(l.front(), l.back()));
    assert!(is_same(l.back(), l.write()));

    // 2. sliceList's size == 2, writeSlice's index is 1
    let mut l = SliceList::new();
    l.push_back(heap(1024));
    l.push_back(heap(1024));
    l.set_write_slice(Some(1));
    assert!(l.split_from_write().is_none());
    assert_eq!(2, l.size());
    assert!(is_same(l.back(), l.write()));

    // 3. writeSlice's index is 50
    let mut l = SliceList::new();
    for i in 0..100 {
        l.push_back(heap(1024));
        if i == 50 {
            l.set_write_slice(Some(i));
        }
    }
    l.split_from_write();
    assert!(is_same(l.back(), l.write()));

    assert_eq!(51, l.size());
}
