use shmipc::buffer::linked::LinkedBuffer;
use shmipc::buffer::list::{count_buffer_list_mem_size, BufferList, ListError};
use shmipc::buffer::manager::{BufferManager, ManagerError};
use shmipc::buffer::registry::{BufferManagers, UnmapStep};
use shmipc::buffer::slice::{BufferHeader, SliceList};
use shmipc::config::SizePercentPair;
use shmipc::error::Error;

fn noise(seed: u64, n: usize) -> Vec<u8> {
    let mut x = seed.wrapping_mul(0x9E37_79B9_7F4A_7C15).wrapping_add(1);
    let mut v = Vec::with_capacity(n);
    for _ in 0..n {
        x = x.wrapping_mul(6364136223846793005).wrapping_add(1442695040888963407);
        v.push((x >> 56) as u8);
    }
    v
}

fn pair(size: u32, percent: u32) -> SizePercentPair {
    SizePercentPair { size, percent }
}

#[test]
fn test_buffer_list_put_pop() {
    let cap_per_buffer = 4096;
    let buffer_num = 1000;
    let mut mem = vec![0u8; count_buffer_list_mem_size(buffer_num, cap_per_buffer) as usize];

    let l = BufferList::create(buffer_num, cap_per_buffer, &mut mem, 0).unwrap();

    let mut buffers = Vec::with_capacity(1024);
    let origin_size = l.remain(&mem);
    while l.remain(&mem) > 0 {
        let b = l.pop(&mut mem).unwrap();
        assert_eq!(cap_per_buffer, b.capacity() as u32);
        assert_eq!(0, b.size());
        assert!(!b.buffer_header.as_ref().unwrap().has_next(&mem));
        buffers.push(b);
    }

    for buffer in buffers {
        l.push(&mut mem, buffer);
    }

    buffers = Vec::with_capacity(1024);
    assert_eq!(origin_size, l.remain(&mem));
    while l.remain(&mem) > 0 {
        let b = l.pop(&mut mem).unwrap();
        assert_eq!(cap_per_buffer, b.capacity() as u32);
        assert_eq!(0, b.size());
        assert!(!b.buffer_header.as_ref().unwrap().has_next(&mem));
        buffers.push(b);
    }
}

#[test]
fn the_last_buffer_of_a_list_is_never_handed_out() {
    let mut mem = vec![0u8; count_buffer_list_mem_size(3, 64) as usize];
    let l = BufferList::create(3, 64, &mut mem, 0).unwrap();
    assert_eq!(2, l.remain(&mem));
    let a = l.pop(&mut mem).unwrap();
    let b = l.pop(&mut mem).unwrap();
    assert_ne!(a.offset_in_shm, b.offset_in_shm);
    assert!(matches!(l.pop(&mut mem), Err(Error::NoMoreBuffer)));
    l.push(&mut mem, a);
    assert_eq!(1, l.remain(&mem));
}

#[test]
fn test_buffer_list_create_and_mapping_free_buffer_list() {
    let cap_per_buffer = 16;
    let buffer_num = 10;
    let mut mem = vec![0u8; count_buffer_list_mem_size(buffer_num, cap_per_buffer) as usize];
    let l = BufferList::create(0, cap_per_buffer, &mut mem, 0);
    assert!(l.is_err());

    let l = BufferList::create(buffer_num + 1, cap_per_buffer, &mut mem, 0);
    assert!(l.is_err());

    let _ = BufferList::create(buffer_num, cap_per_buffer, &mut mem, 0).unwrap();

    let test_mem = vec![0u8; 10];
    let ml = BufferList::mapping(&test_mem, 0);
    assert!(ml.is_err());

    let ml = BufferList::mapping(&mem, 8);
    assert!(ml.is_err());

    let _ = BufferList::mapping(&mem, 0).unwrap();
}

#[test]
fn test_create_free_buffer_list() {
    let mut mem = vec![0u8; 1];
    assert!(BufferList::create(4294967295, 4294967295, &mut mem, 4294967279).is_err())
}

#[test]
fn test_buffer_manager_create_and_mapping() {
    let mut mem = vec![0u8; 32 << 20];
    // create
    let bm1 = BufferManager::get_with_file(
        "/tmp/shm",
        &mut mem,
        true,
        &mut vec![pair(4096, 70), pair(16 * 1024, 20), pair(64 * 1024, 10)],
    )
    .unwrap();

    let allocate_func = |bm: &BufferManager, mem: &mut Vec<u8>| {
        for _ in 0..10 {
            _ = bm.alloc_shm_buffer(mem, 4096).unwrap();
            _ = bm.alloc_shm_buffer(mem, 16 * 1024).unwrap();
            _ = bm.alloc_shm_buffer(mem, 64 * 1024).unwrap();
        }
    };
    allocate_func(&bm1, &mut mem);

    // mapping
    let bm2 = BufferManager::get_with_file(
        "/tmp/shm",
        &mut mem,
        false,
        &mut vec![pair(4096, 70), pair(16 * 1024, 20), pair(64 * 1024, 10)],
    )
    .unwrap();
    assert_eq!(bm1.lists.len(), bm2.lists.len());
    for i in 0..bm1.lists.len() {
        assert_eq!(bm1.lists[i].cap_per_buffer, bm2.lists[i].cap_per_buffer);
        assert_eq!(bm1.lists[i].remain(&mem), bm2.lists[i].remain(&mem));
        assert_eq!(bm1.lists[i].offset_in_shm, bm2.lists[i].offset_in_shm);
    }

    allocate_func(&bm2, &mut mem);

    for i in 0..bm1.lists.len() {
        assert_eq!(bm1.lists[i].cap_per_buffer, bm2.lists[i].cap_per_buffer);
        assert_eq!(bm1.lists[i].remain(&mem), bm2.lists[i].remain(&mem));
        assert_eq!(bm1.lists[i].offset_in_shm, bm2.lists[i].offset_in_shm);
    }
}

#[test]
fn a_region_can_be_mapped_only_where_it_was_set_up() {
    let mem = vec![0u8; 4096];
    assert!(BufferManager::mapping("", &mem, 0).is_err());
    let mut mem = vec![0u8; 1 << 20];
    assert!(BufferManager::create(&[pair(4096, 100)], "p", &mut mem, 0).is_ok());
    let mapped = BufferManager::mapping("p", &mem, 0).unwrap();
    assert_eq!(mapped.lists.len(), 1);
    assert_eq!(mapped.lists[0].cap_per_buffer, 4096);
}

#[test]
fn lists_that_cannot_be_set_up_are_refused() {
    let create = |pairs: &[SizePercentPair], len: usize, offset: u32| {
        let mut mem = vec![0u8; len];
        BufferManager::create(pairs, "p", &mut mem, offset).err().unwrap()
    };
    assert_eq!(
        create(&[pair(64, 100)], 128, 128),
        ManagerError::TooSmall { at_least: 129, mem_len: 128 }
    );
    assert_eq!(create(&[], 0, 0), ManagerError::TooSmall { at_least: 1, mem_len: 0 });
    assert_eq!(create(&[pair(64, 60), pair(128, 41)], 1 << 16, 0), ManagerError::PercentSum);
    assert_eq!(create(&[pair(64, 60), pair(128, u32::MAX)], 1 << 16, 0), ManagerError::PercentSum);
    assert_eq!(
        create(&[pair(u32::MAX, 100)], 1 << 16, 0),
        ManagerError::List(ListError::Zero { buffer_num: 0, cap_per_buffer: u32::MAX })
    );
}

#[test]
fn test_buffer_manager_read_buffer_slice() {
    let mut mem = vec![0u8; 1 << 20];
    let bm =
        BufferManager::get_with_file("/tmp/shm1", &mut mem, true, &mut vec![pair(4096, 100)])
            .unwrap();

    let mut s = bm.alloc_shm_buffer(&mut mem, 4096).unwrap();
    let data = noise(1, 4096);
    assert_eq!(4096, s.append(&mut mem, &data));
    assert_eq!(4096, s.size());
    s.update(&mut mem, None);

    let mut s2 = bm.read_buffer_slice(&mem, s.offset_in_shm).unwrap();
    assert_eq!(s.capacity(), s2.capacity());
    assert_eq!(s.size(), s2.size());

    let get_data = s2.read(&mem, 4096);
    assert_eq!(data, get_data);

    let s3 = bm.read_buffer_slice(&mem, s.offset_in_shm + (1 << 20));
    assert!(matches!(s3, Err(ManagerError::UnexpectedOffset { .. })));

    let s4 = bm.read_buffer_slice(&mem, s.offset_in_shm + 4096);
    assert!(matches!(s4, Err(ManagerError::UnexpectedEnd { .. })));
}

#[test]
fn test_buffer_manager_alloc_recycle() {
    // alloc buffer
    let mut mem = vec![0u8; 1 << 20];
    let bm = BufferManager::get_with_file(
        "/tmp/shm11",
        &mut mem,
        true,
        &mut vec![pair(4096, 50), pair(8192, 50)],
    )
    .unwrap();
    // use first two buffer to record buffer list info (List header)
    assert_eq!((1 << 20) - 4096 - 8192, bm.remain_size(&mem));

    let num_of_slice = bm.slice_size(&mem);
    let mut buffers = Vec::with_capacity(1024);
    while let Ok(s) = bm.alloc_shm_buffer(&mut mem, 4096) {
        buffers.push(s);
    }
    for buffer in buffers {
        bm.recycle_buffer(&mut mem, buffer);
    }

    // alloc_buffers, recycle_buffers
    let mut slices = SliceList::new();
    let size = bm.alloc_shm_buffers(&mut mem, &mut slices, 256 * 1024);
    assert_eq!(256 * 1024, size);
    let mut linked_buffer_slices = LinkedBuffer::new();
    while slices.size() > 0 {
        linked_buffer_slices.append_buffer_slice(&bm, &mem, slices.pop_front().unwrap());
    }
    linked_buffer_slices.done(&bm, &mut mem, false);
    let first = bm.read_buffer_slice(&mem, linked_buffer_slices.root_buf_offset()).unwrap();
    bm.recycle_buffers(&mut mem, first);
    assert_eq!(num_of_slice, bm.slice_size(&mem));
}

#[test]
fn what_was_allocated_and_recycled_can_be_allocated_again() {
    let mut mem = vec![0u8; 1 << 20];
    let bm = BufferManager::create(&[pair(4096, 100)], "", &mut mem, 0).unwrap();
    assert!(bm.check_buffer_returned(&mem));
    let before = bm.remain_size(&mem);
    let s = bm.alloc_shm_buffer(&mut mem, 1).unwrap();
    assert!(!bm.check_buffer_returned(&mem));
    assert_eq!(bm.remain_size(&mem), before - 4096);
    bm.recycle_buffer(&mut mem, s);
    assert!(bm.check_buffer_returned(&mem));
    assert_eq!(bm.remain_size(&mem), before);
    assert!(matches!(bm.alloc_shm_buffer(&mut mem, 4097), Err(Error::NoMoreBuffer)));
}

#[test]
fn a_manager_lives_as_long_as_somebody_holds_it() {
    let mut mem = vec![0u8; 1 << 20];
    let bm = BufferManager::create(&[pair(4096, 100)], "held", &mut mem, 0).unwrap();
    let mut all = BufferManagers::new();
    assert!(all.get("held").is_none());
    assert!(!all.acquire("held"));
    all.insert(bm);
    assert!(all.get("held").is_some());
    assert!(all.acquire("held"));
    assert!(all.add_global_buffer_manager_ref_count("held", -1).is_none());
    let last = all.add_global_buffer_manager_ref_count("held", -1);
    assert!(last.is_some());
    assert!(all.get("held").is_none());
    assert!(all.add_global_buffer_manager_ref_count("held", -1).is_none());
}

#[test]
fn a_region_is_unmapped_when_every_buffer_is_back() {
    let mut mem = vec![0u8; 1 << 20];
    let bm = BufferManager::create(&[pair(4096, 100)], "", &mut mem, 0).unwrap();
    let s = bm.alloc_shm_buffer(&mut mem, 4096).unwrap();
    assert!(matches!(bm.unmap_step(&mem, 0), UnmapStep::Wait));
    assert!(matches!(bm.unmap_step(&mem, 50), UnmapStep::RemoveFile));
    bm.recycle_buffer(&mut mem, s);
    assert!(matches!(bm.unmap_step(&mem, 0), UnmapStep::RemoveFile));
}

#[test]
fn many_buffers_given_back_leave_no_count_behind() {
    let mut mem = vec![0u8; 1 << 20];
    let bm = BufferManager::create(&[pair(4096, 50), pair(8192, 50)], "/many", &mut mem, 0).unwrap();
    let mut slices = SliceList::new();
    let got = bm.alloc_shm_buffers(&mut mem, &mut slices, 600_000);
    assert!(got >= 600_000);
    assert!(slices.size() > 60);
    let extra = bm.alloc_shm_buffer(&mut mem, 100).unwrap();
    assert!(!bm.check_buffer_returned(&mem));
    while let Some(s) = slices.pop_front() {
        bm.recycle_buffer(&mut mem, s);
    }
    assert!(!bm.check_buffer_returned(&mem));
    bm.recycle_buffers(&mut mem, extra);
    assert!(bm.check_buffer_returned(&mem));
}

#[test]
fn a_new_list_marks_no_buffer_as_in_use() {
    let mut mem = vec![0xffu8; count_buffer_list_mem_size(5, 64) as usize];
    let l = BufferList::create(5, 64, &mut mem, 0).unwrap();
    for k in 0..5usize {
        let header = BufferHeader(36 + k * (64 + 20));
        assert!(!header.is_in_used(&mem));
        assert_eq!(header.has_next(&mem), k < 4);
    }
    let b = l.pop(&mut mem).unwrap();
    assert!(b.buffer_header.unwrap().is_in_used(&mem));
}

#[test]
fn what_is_out_of_order_is_noticed() {
    let mut mem = vec![0u8; 1 << 16];
    let bm = BufferManager::create(&[pair(64, 50), pair(128, 50)], "/two", &mut mem, 0).unwrap();
    assert!(bm.is_in_order(&mem));
    assert!(!bm.is_in_order(&mem[..1 << 15]));

    let list = bm.lists[0];
    let at = list.offset_in_shm as usize;
    let first = at + 36;
    // The size, the head, the capacity of a buffer and the link to the next one.
    for (i, x) in [(at, 0u8), (at + 8, 1), (first, 65), (first + 12, 3)] {
        let mut broken = mem.clone();
        broken[i] = x;
        broken[i + 1] = 0;
        assert!(!bm.is_in_order(&broken));
        assert!(!list.is_in_order(&broken));
    }
    // A buffer that is linked twice.
    let mut looped = mem.clone();
    let next = looped[first + 12..first + 16].to_vec();
    let second = first + u32::from_le_bytes(next.clone().try_into().unwrap()) as usize;
    looped.copy_within(first + 12..first + 16, second + 12);
    assert!(!list.is_in_order(&looped));

    let s = bm.alloc_shm_buffer(&mut mem, 10).unwrap();
    assert!(bm.is_in_order(&mem));
    bm.recycle_buffer(&mut mem, s);
    assert!(bm.is_in_order(&mem));
}

#[test]
fn lists_of_one_size_get_their_own_buffers_back() {
    let mut mem = vec![0u8; 1 << 14];
    let pairs = [pair(64, 30), pair(64, 70)];
    let bm = BufferManager::create(&pairs, "/same", &mut mem, 0).unwrap();
    assert!(bm.is_in_order(&mem));
    let counts = [bm.lists[0].remain(&mem), bm.lists[1].remain(&mem)];
    assert_ne!(counts[0], counts[1]);
    for _ in 0..3 {
        let mut held = SliceList::new();
        let room = 64 * (counts[0] as i64 + counts[1] as i64);
        assert_eq!(bm.alloc_shm_buffers(&mut mem, &mut held, 1 << 14), room);
        assert!(!bm.check_buffer_returned(&mem));
        while let Some(s) = held.pop_front() {
            bm.recycle_buffer(&mut mem, s);
            assert!(bm.is_in_order(&mem));
        }
        assert_eq!([bm.lists[0].remain(&mem), bm.lists[1].remain(&mem)], counts);
        assert!(bm.check_buffer_returned(&mem));
    }
}

#[test]
fn the_first_list_that_cannot_be_mapped_is_named() {
    let too_small = |mem_len: usize| {
        BufferManager::mapping("", &vec![0u8; mem_len], 16).err().unwrap()
    };
    assert_eq!(too_small(0), ManagerError::TooSmall { at_least: 21, mem_len: 0 });
    assert_eq!(too_small(20), ManagerError::TooSmall { at_least: 21, mem_len: 20 });
    assert_eq!(too_small(21), ManagerError::TooSmall { at_least: 24, mem_len: 21 });
    assert_eq!(too_small(23), ManagerError::TooSmall { at_least: 24, mem_len: 23 });
    assert_eq!(
        too_small(24),
        ManagerError::BrokenHeader { list_num: 0, at_least: 8, mem_len: 24 }
    );

    let mut mem = vec![0u8; 1 << 16];
    let pairs = [pair(64, 30), pair(128, 30), pair(256, 40)];
    let bm = BufferManager::create(&pairs, "", &mut mem, 0).unwrap();
    let second = bm.lists[1].offset_in_shm as usize;
    let num = bm.lists[1].cap as u128;

    let mut broken = mem.clone();
    broken[second + 16..second + 20].copy_from_slice(&1_000_000u32.to_le_bytes());
    assert_eq!(
        BufferManager::mapping("", &broken, 0).err().unwrap(),
        ManagerError::List(ListError::NoRoom {
            at_least: 36 + num * (1_000_000 + 20),
            mem_len: 1 << 16
        })
    );

    mem[4..8].copy_from_slice(&[0; 4]);
    assert_eq!(
        BufferManager::mapping("", &mem[..second + 35], 0).err().unwrap(),
        ManagerError::List(ListError::NoRoom {
            at_least: second as u128 + 36,
            mem_len: second + 35
        })
    );
}

#[test]
fn chains_are_found() {
    let mut mem = vec![0u8; 1 << 16];
    let bm = BufferManager::create(&[pair(64, 50), pair(128, 50)], "", &mut mem, 0).unwrap();
    let mut at = Vec::new();
    for size in [64, 128, 64] {
        let mut s = bm.alloc_shm_buffer(&mut mem, size).unwrap();
        s.append(&mut mem, &[7; 10]);
        s.update(&mut mem, None);
        at.push(s.offset_in_shm);
    }
    let free = bm.lists[0].offset_in_shm + 36 + 10 * (64 + 20);
    for o in &at {
        assert!(bm.is_in_use(&mem, *o));
        assert_eq!(bm.find_chain(&mem, *o).unwrap(), vec![*o]);
        assert!(!bm.is_in_use(&mem, *o + 1));
        assert!(bm.find_chain(&mem, *o + 1).is_none());
    }
    assert!(!bm.is_in_use(&mem, free));
    assert!(bm.find_chain(&mem, free).is_none());
    assert!(!bm.is_in_use(&mem, 0));
    assert!(!bm.is_in_use(&mem, u32::MAX));

    let header = |i: usize| BufferHeader(at[i] as usize);
    header(0).link_next(&mut mem, at[1]);
    header(1).link_next(&mut mem, at[2]);
    assert_eq!(bm.find_chain(&mem, at[0]).unwrap(), at);
    assert_eq!(bm.find_chain(&mem, at[1]).unwrap(), at[1..].to_vec());
    // A link to a free buffer, one into a buffer and one back.
    for next in [free, at[2] + 4, at[0], at[1]] {
        let mut broken = mem.clone();
        header(1).link_next(&mut broken, next);
        assert!(bm.find_chain(&broken, at[0]).is_none());
    }
    // A link that leaves the region ends the chain.
    for next in [(1 << 16) - 20, 1 << 16, u32::MAX] {
        let mut broken = mem.clone();
        header(1).link_next(&mut broken, next);
        assert_eq!(bm.find_chain(&broken, at[0]).unwrap(), at[..2].to_vec());
    }
    // More bytes than the buffer has room for.
    let mut broken = mem.clone();
    header(2).set_size(&mut broken, 65);
    assert!(bm.find_chain(&broken, at[0]).is_none());
    header(2).set_size(&mut broken, 64);
    assert_eq!(bm.find_chain(&broken, at[0]).unwrap(), at);
}

#[test]
fn setting_up_leaves_the_rest_of_the_region() {
    let mut mem = vec![0xa5u8; 1 << 16];
    let pairs = [pair(64, 30), pair(128, 30)];
    let bm = BufferManager::create(&pairs, "", &mut mem, 1000).unwrap();
    assert!(mem[..1000].iter().all(|b| *b == 0xa5));
    assert_eq!(&mem[1002..1004], &[0xa5; 2]);
    for l in &bm.lists {
        let at = l.offset_in_shm as usize;
        assert_eq!(&mem[at + 24..at + 36], &[0xa5; 12]);
    }
    let last = bm.lists[1];
    let end = last.offset_in_shm + count_buffer_list_mem_size(last.cap, last.cap_per_buffer);
    assert!(mem[end as usize..].iter().all(|b| *b == 0xa5));

    // The second list has no room for a buffer.
    let mut mem = vec![0xa5u8; 1 << 16];
    let pairs = [pair(64, 30), pair(1 << 17, 30)];
    assert!(BufferManager::create(&pairs, "", &mut mem, 1000).is_err());
    assert!(mem[..1000].iter().all(|b| *b == 0xa5));
    let end = bm.lists[0].offset_in_shm
        + count_buffer_list_mem_size(bm.lists[0].cap, bm.lists[0].cap_per_buffer);
    assert!(mem[end as usize..].iter().all(|b| *b == 0xa5));
}

#[test]
fn the_sides_of_a_region_count_for_themselves() {
    let mut mem = vec![0u8; 1 << 16];
    let pairs = [pair(64, 30), pair(128, 30)];
    let near = BufferManager::create(&pairs, "", &mut mem, 0).unwrap();
    let far = BufferManager::mapping("", &mem, 0).unwrap();
    assert!(far.check_buffer_returned(&mem));
    let head = mem[..8].to_vec();
    let at = near.lists[0].offset_in_shm as usize;
    let s = near.alloc_shm_buffer(&mut mem, 64).unwrap();
    assert_eq!(&mem[at + 20..at + 28], &[1, 0, 0, 0, 0, 0, 0, 0]);
    far.recycle_buffer(&mut mem, s);
    assert_eq!(&mem[at + 20..at + 28], &[1, 0, 0, 0, 255, 255, 255, 255]);
    assert!(!near.check_buffer_returned(&mem));
    // The region can still be mapped.
    assert_eq!(&mem[..8], &head[..]);
    assert_eq!(BufferManager::mapping("", &mem, 0).unwrap().lists.len(), 2);
}
