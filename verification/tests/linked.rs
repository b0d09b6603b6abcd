use shmipc::buffer::access::BufferReader;
use shmipc::buffer::buf::Buf;
use shmipc::buffer::linked::{LinkedBuffer, PinLease};
use shmipc::buffer::manager::BufferManager;
use shmipc::buffer::slice::BufferSlice;
use shmipc::config::SizePercentPair;
use shmipc::consts::DEFAULT_SINGLE_BUFFER_SIZE;
use shmipc::error::Error;
use tokio::io::ReadBuf;

fn pair(size: u32, percent: u32) -> SizePercentPair {
    SizePercentPair { size, percent }
}

fn init_shm() -> (BufferManager, Vec<u8>) {
    let mut mem = vec![0u8; 10 << 20];
    let bm = BufferManager::create(
        &[pair(4096, 70), pair(16 * 1024, 20), pair(64 * 1024, 10)],
        "/tmp/ipc.test",
        &mut mem,
        0,
    )
    .unwrap();
    (bm, mem)
}

fn new_linked_buffer_with_slice(
    bm: &BufferManager,
    mem: &[u8],
    slice: BufferSlice,
) -> LinkedBuffer {
    let mut l = LinkedBuffer::new();
    l.append_buffer_slice(bm, mem, slice);
    l
}

fn new_linked_buffer(bm: &BufferManager, mem: &mut [u8], size: u32) -> LinkedBuffer {
    let mut l = LinkedBuffer::new();
    l.alloc_slices(bm, mem, size);
    l.write_from_front();
    l
}

fn append_fallback(buffer: &mut LinkedBuffer, bm: &BufferManager, mem: &[u8], data: &[u8]) {
    let mut slice = BufferSlice::new_heap(data.to_vec());
    slice.write_index = data.len();
    buffer.append_buffer_slice(bm, mem, slice);
}

fn unpack(buf: Buf<'_>) -> (Vec<u8>, Option<PinLease>) {
    let (bytes, lease) = buf.into_bytes();
    (bytes.to_vec(), lease)
}

fn release(l: &mut LinkedBuffer, bm: &BufferManager, mem: &mut [u8], lease: Option<PinLease>) {
    if let Some(lease) = lease {
        l.release_lease(bm, mem, lease);
    }
}

fn read_exact(
    l: &mut LinkedBuffer,
    bm: &BufferManager,
    mem: &mut [u8],
    size: usize,
) -> Result<Vec<u8>, Error> {
    let (bytes, lease) = unpack(l.read_exact_bytes(bm, mem, size)?);
    release(l, bm, mem, lease);
    Ok(bytes)
}

fn read_chunk(l: &mut LinkedBuffer, bm: &BufferManager, mem: &mut [u8]) -> Result<Vec<u8>, Error> {
    let (bytes, lease) = unpack(l.read_chunk(bm, mem)?);
    release(l, bm, mem, lease);
    Ok(bytes)
}

fn peek(
    l: &mut LinkedBuffer,
    bm: &BufferManager,
    mem: &mut [u8],
    size: usize,
) -> Result<Vec<u8>, Error> {
    let (bytes, lease) = unpack(l.peek(bm, mem, size)?);
    release(l, bm, mem, lease);
    Ok(bytes)
}

struct Noise(u64);

impl Noise {
    fn next(&mut self) -> u64 {
        self.0 = self.0.wrapping_mul(6364136223846793005).wrapping_add(1442695040888963407);
        self.0 >> 33
    }

    fn fill(&mut self, out: &mut [u8]) {
        for b in out.iter_mut() {
            *b = self.next() as u8;
        }
    }
}

#[test]
fn test_linked_buffer_release_previous_read() {
    let (bm, mut mem) = init_shm();
    let slice = bm.alloc_shm_buffer(&mut mem, 1024).unwrap();
    let mut buf = new_linked_buffer_with_slice(&bm, &mem, slice);
    let slice_num = 100;
    for i in 0..slice_num * 4096 {
        assert_eq!(1, buf.write_bytes(&bm, &mut mem, &[i as u8]).unwrap());
    }
    buf.done(&bm, &mut mem, true);

    for _ in 0..slice_num / 2 {
        let r = read_exact(&mut buf, &bm, &mut mem, 4096).unwrap();
        assert_eq!(4096, r.len());
    }
    assert!(buf.pin_registry().has_slot());
    assert!(!buf.pin_registry().is_pinned());
    assert_eq!(0, buf.pin_registry().retired_len());
    let rest = buf.len();
    _ = buf.discard(&bm, &mut mem, rest);

    buf.release_previous_read_and_reserve(&bm, &mut mem);
    assert_eq!(0, buf.len());
    // the last slice shouldn't release
    assert_eq!(1, buf.slice_list().size());
    assert!(buf.slice_list().write_slice().is_some());
    assert!(buf.slice_list().front().unwrap().buffer_header.as_ref().unwrap().is_in_used(&mem));

    buf.release_previous_read(&bm, &mut mem);
    assert_eq!(0, buf.slice_list().size());
    assert!(buf.slice_list().write_slice().is_none());
}

#[test]
fn recycle_waits_for_last_zero_copy_lease() {
    let (manager, mut mem) = init_shm();
    let slice = manager.alloc_shm_buffer(&mut mem, 1024).unwrap();
    let mut buffer = new_linked_buffer_with_slice(&manager, &mem, slice);
    let data = vec![7u8; 1024];
    buffer.write_bytes(&manager, &mut mem, &data).unwrap();
    buffer.done(&manager, &mut mem, false);

    let (leased, lease) =
        buffer.read_exact_bytes(&manager, &mut mem, data.len()).unwrap().into_bytes();
    let leased_clone = leased.clone();
    buffer.recycle(&manager, &mut mem);

    assert!(!manager.check_buffer_returned(&mem));
    assert_eq!(&leased[..], data.as_slice());
    drop(leased);
    assert!(!manager.check_buffer_returned(&mem));
    assert_eq!(&leased_clone[..], data.as_slice());

    drop(leased_clone);
    buffer.release_lease(&manager, &mut mem, lease.unwrap());
    assert!(manager.check_buffer_returned(&mem));
}

#[test]
fn a_reader_gives_up_what_was_read_to_the_end() {
    let (manager, mut mem) = init_shm();
    let mut buffer = new_linked_buffer(&manager, &mut mem, 16);
    buffer.write_bytes(&manager, &mut mem, b"abcd").unwrap();
    assert_eq!(read_exact(&mut buffer, &manager, &mut mem, 2).unwrap(), b"ab");
    BufferReader::release_previous_read(&mut buffer, &manager, &mut mem);
    assert_eq!(buffer.slice_list().size(), 1);
    assert_eq!(read_exact(&mut buffer, &manager, &mut mem, 2).unwrap(), b"cd");
    assert!(!manager.check_buffer_returned(&mem));
    BufferReader::release_previous_read(&mut buffer, &manager, &mut mem);
    assert_eq!(buffer.slice_list().size(), 0);
    assert!(manager.check_buffer_returned(&mem));
}

#[test]
fn a_pinned_slice_can_be_pinned_again() {
    let (manager, mut mem) = init_shm();
    let slice = manager.alloc_shm_buffer(&mut mem, 1024).unwrap();
    let mut buffer = new_linked_buffer_with_slice(&manager, &mem, slice);
    assert!(buffer.has_free_pin(&manager, &mem));
    buffer.write_bytes(&manager, &mut mem, &[1, 2, 3, 4]).unwrap();
    buffer.done(&manager, &mut mem, false);
    let (first, one) = buffer.read_exact_bytes(&manager, &mut mem, 2).unwrap().into_bytes();
    assert!(buffer.has_free_pin(&manager, &mem));
    let (second, two) = buffer.read_exact_bytes(&manager, &mut mem, 2).unwrap().into_bytes();
    assert_eq!((&first[..], &second[..]), (&[1u8, 2][..], &[3u8, 4][..]));
    buffer.release_lease(&manager, &mut mem, one.unwrap());
    buffer.release_lease(&manager, &mut mem, two.unwrap());
}

#[test]
fn active_lease_does_not_delay_unrelated_slices() {
    let (manager, mut mem) = init_shm();
    let first = manager.alloc_shm_buffer(&mut mem, 1024).unwrap();
    let first_capacity = first.capacity();
    let mut buffer = new_linked_buffer_with_slice(&manager, &mem, first);
    buffer.write_bytes(&manager, &mut mem, &vec![9u8; first_capacity + 1024]).unwrap();
    buffer.done(&manager, &mut mem, false);
    let remaining_after_write = manager.remain_size(&mem);

    let (_leased, lease) =
        buffer.read_exact_bytes(&manager, &mut mem, first_capacity).unwrap().into_bytes();
    let rest = buffer.len();
    buffer.discard(&manager, &mut mem, rest).unwrap();
    buffer.release_previous_read(&manager, &mut mem);

    assert!(!buffer.pin_registry().has_slot());
    assert!(manager.remain_size(&mem) > remaining_after_write);
    assert!(!manager.check_buffer_returned(&mem));

    buffer.release_lease(&manager, &mut mem, lease.unwrap());
    assert!(manager.check_buffer_returned(&mem));
}

#[test]
fn test_linked_buffer_fallback_when_write() {
    let mut mem = vec![0u8; 10 * 1024];
    let bm = BufferManager::create(&[pair(1024, 100)], "", &mut mem, 0).unwrap();

    let buf = bm.alloc_shm_buffer(&mut mem, 1024).unwrap();
    let mut writer = new_linked_buffer_with_slice(&bm, &mem, buf);
    let data_size = 1024;
    let mut noise = Noise(11);
    let mut mock_data_array = vec![vec![0u8; data_size]; 100];
    for (i, array) in mock_data_array.iter_mut().enumerate() {
        noise.fill(&mut array[..]);
        let n = writer.write_bytes(&bm, &mut mem, &array[..]).unwrap();
        assert_eq!(data_size, n);
        assert_eq!(data_size * (i + 1), writer.len());
    }
    assert!(!writer.is_from_share_memory());

    writer.done(&bm, &mut mem, false);
    let all = data_size * mock_data_array.len();
    assert_eq!(all, writer.len());

    let expected = mock_data_array.concat();
    let mut actual = Vec::with_capacity(all);
    while !writer.is_empty() {
        let chunk = read_chunk(&mut writer, &bm, &mut mem).unwrap();
        assert!(!chunk.is_empty());
        actual.extend_from_slice(&chunk);
    }
    assert_eq!(actual, expected);
}

#[test]
fn test_linked_buffer_reserve() {
    let (bm, mut mem) = init_shm();

    // alloc 3 buffer slice
    let mut buffer = new_linked_buffer(&bm, &mut mem, (64 + 64 + 64) * 1024);
    assert_eq!(3, buffer.slice_list().size());
    assert!(buffer.is_from_share_memory());
    assert_eq!(Some(0), buffer.slice_list().write_slice());

    // reserve a buf in first slice
    let ret = buffer.reserve(&bm, &mut mem, 60 * 1024).unwrap();
    assert_eq!(60 * 1024, ret.len());
    assert_eq!(3, buffer.slice_list().size());
    assert!(buffer.is_from_share_memory());
    assert_eq!(Some(0), buffer.slice_list().write_slice());

    // reserve a buf in the second slice when the first one is not enough
    let ret = buffer.reserve(&bm, &mut mem, 6 * 1024).unwrap();
    assert_eq!(6 * 1024, ret.len());
    assert_eq!(3, buffer.slice_list().size());
    assert!(buffer.is_from_share_memory());
    assert_eq!(Some(1), buffer.slice_list().write_slice());

    // reserve a buf in a new allocated slice
    let ret = buffer.reserve(&bm, &mut mem, 128 * 1024).unwrap();
    assert_eq!(128 * 1024, ret.len());
    assert_eq!(4, buffer.slice_list().size());
    assert!(!buffer.is_from_share_memory());
    assert_eq!(Some(3), buffer.slice_list().write_slice());
}

#[test]
fn what_is_put_into_reserved_space_is_read() {
    let (bm, mut mem) = init_shm();
    let mut buffer = LinkedBuffer::new();
    buffer.reserve(&bm, &mut mem, 5).unwrap().copy_from_slice(b"hello");
    buffer.write_bytes(&bm, &mut mem, b" world").unwrap();
    assert_eq!(11, buffer.len());
    assert_eq!(read_exact(&mut buffer, &bm, &mut mem, 11).unwrap(), b"hello world");
}

#[test]
fn reserved_space_lies_in_one_slice() {
    let (bm, mut mem) = init_shm();
    let mut buffer = LinkedBuffer::new();
    assert_eq!(buffer.reserve(&bm, &mut mem, 0).unwrap().len(), 0);
    assert_eq!(buffer.slice_list().size(), 1);
    assert!(matches!(
        buffer.reserve(&bm, &mut mem, u32::MAX as usize + 1),
        Err(Error::NoMoreBuffer)
    ));
    assert_eq!(buffer.len(), 0);
    assert_eq!(buffer.slice_list().size(), 1);
}

#[test]
fn the_heap_is_asked_only_where_the_region_has_nothing_to_spare() {
    for (more, shared) in [(0, true), (1, false)] {
        let mut mem = vec![0u8; 4096];
        let bm = BufferManager::create(&[pair(64, 50), pair(256, 50)], "p", &mut mem, 0).unwrap();
        let spare: usize = bm
            .lists
            .iter()
            .map(|l| l.remain(&mem) as usize * l.cap_per_buffer as usize)
            .sum();
        let mut buffer = LinkedBuffer::new();
        let data = vec![5u8; spare + more];
        assert_eq!(buffer.write_bytes(&bm, &mut mem, &data).unwrap(), data.len());
        assert_eq!(buffer.is_from_share_memory(), shared);
        assert_eq!(read_exact(&mut buffer, &bm, &mut mem, data.len()).unwrap(), data);
        buffer.recycle(&bm, &mut mem);
        assert!(bm.check_buffer_returned(&mem));
    }
}

#[test]
fn test_linked_buffer_done() {
    let (bm, mut mem) = init_shm();
    let mock_data_size = 128 * 1024;
    let mut mock_data = vec![0u8; mock_data_size];
    Noise(3).fill(&mut mock_data[..]);
    // alloc 3 buffer slice
    let mut buffer = new_linked_buffer(&bm, &mut mem, (64 + 64 + 64) * 1024);
    assert_eq!(3, buffer.slice_list().size());

    // write data to full 2 slice, remove one
    buffer.write_bytes(&bm, &mut mem, &mock_data[..]).unwrap();
    buffer.done(&bm, &mut mem, true);
    assert_eq!(2, buffer.slice_list().size());
    let get_bytes = read_exact(&mut buffer, &bm, &mut mem, mock_data_size).unwrap();
    assert_eq!(mock_data, get_bytes);
}

#[test]
fn test_linked_buffer_done_clears_recycled_tail_link() {
    let (bm, mut mem) = init_shm();

    let mut buffer = new_linked_buffer(&bm, &mut mem, (64 + 64 + 64) * 1024);
    let mock_data = vec![0u8; 128 * 1024];

    buffer.write_bytes(&bm, &mut mem, &mock_data).unwrap();
    buffer.done(&bm, &mut mem, true);

    assert_eq!(2, buffer.slice_list().size());
    assert_eq!(Some(1), buffer.slice_list().write_slice());
    let last_valid = buffer.slice_list().write().unwrap();
    assert!(!last_valid.buffer_header.as_ref().unwrap().has_next(&mem));
}

#[test]
fn read_chunk_returns_one_non_empty_slice() {
    let (manager, mut mem) = init_shm();
    let first = manager.alloc_shm_buffer(&mut mem, 1024).unwrap();
    let first_capacity = first.capacity();
    let mut buffer = new_linked_buffer_with_slice(&manager, &mem, first);

    let first_data = vec![1u8; first_capacity];
    let second_data = vec![2u8; 128];
    buffer.write_bytes(&manager, &mut mem, &first_data).unwrap();
    buffer.write_bytes(&manager, &mut mem, &second_data).unwrap();
    buffer.done(&manager, &mut mem, false);

    let first_chunk = read_chunk(&mut buffer, &manager, &mut mem).unwrap();
    assert_eq!(&first_chunk[..], first_data);

    // The exhausted first slice remains at the front until the next read. `read_chunk` must
    // retire it and return the next non-empty slice instead of reporting an empty read.
    let second_chunk = read_chunk(&mut buffer, &manager, &mut mem).unwrap();
    assert_eq!(&second_chunk[..], second_data);

    assert!(buffer.is_empty());
    assert!(matches!(buffer.read_chunk(&manager, &mut mem), Err(Error::NotEnoughData)));
    assert_eq!(buffer.slice_list().size(), 0);
    assert!(buffer.slice_list().write_slice().is_none());

    let rewritten = [3u8; 32];
    buffer.write_bytes(&manager, &mut mem, &rewritten).unwrap();
    let chunk = read_chunk(&mut buffer, &manager, &mut mem).unwrap();
    assert_eq!(&chunk[..], rewritten);
}

#[test]
fn read_available_into_copies_across_slices_without_leases() {
    let (manager, mut mem) = init_shm();
    let mut buffer = LinkedBuffer::new();
    append_fallback(&mut buffer, &manager, &mem, b"ab");
    append_fallback(&mut buffer, &manager, &mem, b"cde");
    append_fallback(&mut buffer, &manager, &mem, b"fghi");

    let mut first = [0; 4];
    let mut dst = ReadBuf::new(&mut first);
    assert_eq!(buffer.read_available_into(&manager, &mut mem, &mut dst, 64).unwrap(), 4);
    assert_eq!(dst.filled(), b"abcd");
    assert_eq!(buffer.len(), 5);
    assert_eq!(buffer.slice_list().size(), 2);
    assert!(!buffer.pin_registry().has_slot());

    let mut second = [0; 8];
    let mut dst = ReadBuf::new(&mut second);
    assert_eq!(buffer.read_available_into(&manager, &mut mem, &mut dst, 64).unwrap(), 5);
    assert_eq!(dst.filled(), b"efghi");
    assert!(buffer.is_empty());
    assert_eq!(buffer.slice_list().size(), 1);
    assert_eq!(buffer.slice_list().front().unwrap().size(), 0);
    assert!(!buffer.pin_registry().has_slot());

    buffer.clean(&manager, &mut mem);
}

#[test]
fn read_available_into_limits_slices_per_call() {
    let (manager, mut mem) = init_shm();
    let mut buffer = LinkedBuffer::new();
    for value in 0..65u8 {
        append_fallback(&mut buffer, &manager, &mem, &[value]);
    }

    let mut output = [0; 65];
    let mut dst = ReadBuf::new(&mut output);
    assert_eq!(buffer.read_available_into(&manager, &mut mem, &mut dst, 64).unwrap(), 64);
    assert_eq!(dst.filled(), &(0..64u8).collect::<Vec<_>>());
    assert_eq!(buffer.len(), 1);
    assert_eq!(buffer.slice_list().size(), 1);

    assert_eq!(buffer.read_available_into(&manager, &mut mem, &mut dst, 64).unwrap(), 1);
    assert_eq!(dst.filled(), &(0..65u8).collect::<Vec<_>>());
    assert!(buffer.is_empty());
    assert_eq!(buffer.slice_list().size(), 1);

    buffer.clean(&manager, &mut mem);
}

#[test]
fn read_available_into_handles_empty_destination_and_buffer() {
    let (manager, mut mem) = init_shm();
    let mut buffer = LinkedBuffer::new();

    let mut empty = [];
    let mut empty_dst = ReadBuf::new(&mut empty);
    assert_eq!(buffer.read_available_into(&manager, &mut mem, &mut empty_dst, 64).unwrap(), 0);

    let mut output = [0; 1];
    let mut dst = ReadBuf::new(&mut output);
    assert!(matches!(
        buffer.read_available_into(&manager, &mut mem, &mut dst, 64),
        Err(Error::NotEnoughData)
    ));
}

#[test]
fn more_than_there_is_cannot_be_read() {
    let (manager, mut mem) = init_shm();
    let mut buffer = new_linked_buffer(&manager, &mut mem, 16);
    buffer.write_bytes(&manager, &mut mem, b"abc").unwrap();
    for size in [4, usize::MAX] {
        assert!(matches!(
            buffer.read_exact_bytes(&manager, &mut mem, size),
            Err(Error::NotEnoughData)
        ));
        assert!(matches!(buffer.peek(&manager, &mem, size), Err(Error::NotEnoughData)));
        assert!(matches!(buffer.discard(&manager, &mut mem, size), Err(Error::NotEnoughData)));
    }
    assert_eq!(buffer.len(), 3);
    let mut nothing = [];
    let mut full = ReadBuf::new(&mut nothing);
    assert_eq!(buffer.read_available_into(&manager, &mut mem, &mut full, 0).unwrap(), 0);
    buffer.recycle(&manager, &mut mem);
    assert!(manager.check_buffer_returned(&mem));
}

#[test]
fn read_available_into_preserves_last_shm_slice_for_reuse() {
    let (manager, mut mem) = init_shm();
    let slice = manager.alloc_shm_buffer(&mut mem, 1024).unwrap();
    let mut buffer = new_linked_buffer_with_slice(&manager, &mem, slice);
    let data = vec![7u8; 256];
    buffer.write_bytes(&manager, &mut mem, &data).unwrap();
    buffer.done(&manager, &mut mem, false);

    let mut output = vec![0; data.len()];
    let mut dst = ReadBuf::new(&mut output);
    assert_eq!(
        buffer.read_available_into(&manager, &mut mem, &mut dst, 64).unwrap(),
        data.len()
    );
    assert_eq!(dst.filled(), data);
    assert!(buffer.is_empty());
    assert_eq!(buffer.slice_list().size(), 1);
    assert!(!buffer.pin_registry().has_slot());

    buffer.release_previous_read_and_reserve(&manager, &mut mem);
    assert_eq!(buffer.slice_list().size(), 1);
    assert!(buffer.slice_list().write_slice().is_some());
    assert_eq!(buffer.slice_list().front().unwrap().read_index, 0);
    assert_eq!(buffer.slice_list().front().unwrap().write_index, 0);

    buffer.clean(&manager, &mut mem);
}

#[test]
fn read_exact_bytes_is_atomic_when_data_is_insufficient() {
    let (manager, mut mem) = init_shm();
    let first = manager.alloc_shm_buffer(&mut mem, 1024).unwrap();
    let mut buffer = new_linked_buffer_with_slice(&manager, &mem, first);
    let data = vec![3u8; 256];
    buffer.write_bytes(&manager, &mut mem, &data).unwrap();
    buffer.done(&manager, &mut mem, false);

    assert!(matches!(
        buffer.read_exact_bytes(&manager, &mut mem, data.len() + 1),
        Err(Error::NotEnoughData)
    ));
    assert_eq!(buffer.len(), data.len());

    let exact = read_exact(&mut buffer, &manager, &mut mem, data.len()).unwrap();
    assert_eq!(&exact[..], data);
}

#[test]
fn test_linked_buffer_read_exact_bytes() {
    let (manager, mut mem) = init_shm();
    let mut noise = Noise(5);

    for _ in 0..100 {
        let first = manager.alloc_shm_buffer(&mut mem, 1024).unwrap();
        let mut buf = new_linked_buffer_with_slice(&manager, &mem, first);
        let size = 1 << 21;
        let data = vec![0u8; size];
        while buf.len() < size {
            let mut one_write_size = noise.next() as usize % (size / 10);
            if buf.len() + one_write_size > size {
                one_write_size = size - buf.len();
            }
            let at = buf.len();
            let n = buf.write_bytes(&manager, &mut mem, &data[at..at + one_write_size]).unwrap();
            assert_eq!(one_write_size, n);
        }
        buf.done(&manager, &mut mem, false);
        let mut read = 0;
        while !buf.is_empty() {
            let mut one_read_size = noise.next() as usize % (size / 10000);
            if read + one_read_size > buf.len() {
                one_read_size = buf.len();
            }
            // do nothing
            _ = peek(&mut buf, &manager, &mut mem, one_read_size);

            let read_data = read_exact(&mut buf, &manager, &mut mem, one_read_size).unwrap();
            if read_data.is_empty() {
                assert_eq!(one_read_size, 0);
            } else {
                assert_eq!(&data[read..read + one_read_size], &read_data[..]);
            }
            read += one_read_size;
        }
        assert_eq!(1 << 21, read);
        read_exact(&mut buf, &manager, &mut mem, 0).unwrap();
        buf.release_previous_read(&manager, &mut mem);
    }
}

#[test]
fn test_buffer_discard() {
    let (manager, mut mem) = init_shm();

    let first = manager.alloc_shm_buffer(&mut mem, 1024).unwrap();
    let mut writer = new_linked_buffer_with_slice(&manager, &mem, first);
    let capacity = writer.cap();
    writer.write_bytes(&manager, &mut mem, &vec![0u8; capacity]).unwrap();
    let n = writer.discard(&manager, &mut mem, capacity).unwrap();
    assert_eq!(capacity, n);
    assert_eq!(0, writer.len());

    let first = manager.alloc_shm_buffer(&mut mem, 1024).unwrap();
    let mut writer = new_linked_buffer_with_slice(&manager, &mem, first);
    let origin_cap = writer.cap();
    writer.write_bytes(&manager, &mut mem, &vec![0u8; origin_cap]).unwrap();
    writer.write_bytes(&manager, &mut mem, &vec![0u8; 1024]).unwrap();

    let n = writer.discard(&manager, &mut mem, origin_cap).unwrap();
    assert_eq!(origin_cap, n);

    let n = writer.discard(&manager, &mut mem, 1024).unwrap();
    assert_eq!(1024, n);
}

#[test]
fn test_buffer_read_write() {
    let (manager, mut mem) = init_shm();

    let str = "hello";
    let first = manager.alloc_shm_buffer(&mut mem, 1024).unwrap();
    let mut writer = new_linked_buffer_with_slice(&manager, &mem, first);
    writer.write_bytes(&manager, &mut mem, str.as_bytes()).unwrap();
    writer.write_bytes(&manager, &mut mem, str.as_bytes()).unwrap();

    writer.done(&manager, &mut mem, false);

    let get_str = read_exact(&mut writer, &manager, &mut mem, str.len()).unwrap();
    assert_eq!(str, std::str::from_utf8(&get_str).unwrap());

    let get_bytes = read_exact(&mut writer, &manager, &mut mem, str.len()).unwrap();
    assert_eq!(str.as_bytes(), &get_bytes[..]);

    let first = manager.alloc_shm_buffer(&mut mem, 1024).unwrap();
    let mut writer = new_linked_buffer_with_slice(&manager, &mem, first);

    const ONE_MSG_SIZE: usize = 1024;
    const MSG_NUM: usize = 10;
    let mut noise = Noise(17);
    let mut result = vec![0u8; ONE_MSG_SIZE * MSG_NUM];
    for i in 0..MSG_NUM {
        let mut data = [0u8; ONE_MSG_SIZE];
        noise.fill(&mut data[..]);
        result[i * ONE_MSG_SIZE..(i + 1) * ONE_MSG_SIZE].copy_from_slice(&data[..]);
        let n = writer.write_bytes(&manager, &mut mem, &data[..]).unwrap();
        assert_eq!(ONE_MSG_SIZE, n);
    }
    assert_eq!(ONE_MSG_SIZE * MSG_NUM, writer.len());

    writer.done(&manager, &mut mem, false);
    assert_eq!(ONE_MSG_SIZE * MSG_NUM, writer.len());

    let peek1 = peek(&mut writer, &manager, &mut mem, ONE_MSG_SIZE).unwrap();
    assert_eq!(ONE_MSG_SIZE, peek1.len());
    assert_eq!(&result[..ONE_MSG_SIZE], &peek1[..]);
    assert_eq!(ONE_MSG_SIZE * MSG_NUM, writer.len());

    // cross two underlying slice
    let peek2 = peek(&mut writer, &manager, &mut mem, 5 * ONE_MSG_SIZE).unwrap();
    assert_eq!(5 * ONE_MSG_SIZE, peek2.len());
    assert_eq!(&result[..5 * ONE_MSG_SIZE], &peek2[..]);
    assert_eq!(MSG_NUM * ONE_MSG_SIZE, writer.len());

    let mut remain = writer.len();
    for _ in 0..MSG_NUM {
        remain -= ONE_MSG_SIZE;
        let get_data = read_exact(&mut writer, &manager, &mut mem, 1024).unwrap();
        assert_eq!(ONE_MSG_SIZE, get_data.len());
        assert_eq!(remain, writer.len());
    }

    let first = manager.alloc_shm_buffer(&mut mem, 1024).unwrap();
    let mut writer = new_linked_buffer_with_slice(&manager, &mem, first);
    for i in 0..2 * DEFAULT_SINGLE_BUFFER_SIZE {
        writer.write_bytes(&manager, &mut mem, &[i as u8]).unwrap();
    }

    writer.done(&manager, &mut mem, false);
    let mut count = 0;
    let read_size = 10;
    loop {
        let remain_len = writer.len();
        if remain_len > read_size {
            let r = read_exact(&mut writer, &manager, &mut mem, read_size).unwrap();
            for j in 0..r.len() {
                assert_eq!(count as u8, r[j]);
                count += 1;
            }
        } else if remain_len > 0 {
            let r = read_exact(&mut writer, &manager, &mut mem, remain_len).unwrap();
            for j in 0..r.len() {
                assert_eq!(count as u8, r[j]);
                count += 1;
            }
        } else {
            break;
        }
    }
    assert_eq!(2 * DEFAULT_SINGLE_BUFFER_SIZE, count);
}

#[test]
fn a_peek_leaves_the_bytes_for_the_next_read() {
    let (bm, mut mem) = init_shm();
    let slice = bm.alloc_shm_buffer(&mut mem, 1024).unwrap();
    let cap = slice.capacity();
    let mut buf = new_linked_buffer_with_slice(&bm, &mem, slice);
    let mut data = vec![0u8; cap + 100];
    Noise(5).fill(&mut data);
    buf.write_bytes(&bm, &mut mem, &data).unwrap();
    let before = mem.clone();
    // In place, gathered over two slices, and more than there is.
    assert_eq!(peek(&mut buf, &bm, &mut mem, 10).unwrap(), &data[..10]);
    assert_eq!(peek(&mut buf, &bm, &mut mem, 10).unwrap(), &data[..10]);
    assert_eq!(peek(&mut buf, &bm, &mut mem, cap + 50).unwrap(), &data[..cap + 50]);
    assert!(matches!(peek(&mut buf, &bm, &mut mem, cap + 101), Err(Error::NotEnoughData)));
    assert_eq!(buf.len(), cap + 100);
    assert_eq!(mem, before);
    assert_eq!(read_exact(&mut buf, &bm, &mut mem, cap + 50).unwrap(), &data[..cap + 50]);
    assert_eq!(peek(&mut buf, &bm, &mut mem, 50).unwrap(), &data[cap + 50..]);
}

#[test]
fn a_pinned_slice_keeps_its_buffer_and_its_bytes() {
    let (bm, mut mem) = init_shm();
    let slice = bm.alloc_shm_buffer(&mut mem, 1024).unwrap();
    let (cap, at) = (slice.capacity(), slice.offset_in_shm as usize);
    let mut buf = new_linked_buffer_with_slice(&bm, &mem, slice);
    let mut data = vec![0u8; 3 * cap];
    Noise(6).fill(&mut data);
    buf.write_bytes(&bm, &mut mem, &data).unwrap();
    let (_, one) = unpack(buf.read_exact_bytes(&bm, &mut mem, 8).unwrap());
    let (_, two) = unpack(buf.read_exact_bytes(&bm, &mut mem, 8).unwrap());
    // Past the pinned slice: it waits, and the one behind it does not.
    assert_eq!(buf.pin_registry().retired_len(), 0);
    buf.discard(&bm, &mut mem, 2 * cap).unwrap();
    assert_eq!(buf.pin_registry().retired_len(), 1);
    buf.recycle(&bm, &mut mem);
    assert_eq!(buf.pin_registry().retired_len(), 1);
    assert!(!bm.check_buffer_returned(&mem));
    assert_eq!(&mem[at + 20..at + 20 + cap], &data[..cap]);
    release(&mut buf, &bm, &mut mem, one);
    assert_eq!(buf.pin_registry().retired_len(), 1);
    assert!(!bm.check_buffer_returned(&mem));
    assert_eq!(&mem[at + 20..at + 20 + cap], &data[..cap]);
    release(&mut buf, &bm, &mut mem, two);
    assert_eq!(buf.pin_registry().retired_len(), 0);
    assert!(bm.check_buffer_returned(&mem));
}

#[test]
fn chunks_are_whole_slices_and_the_last_leaves_none() {
    let (bm, mut mem) = init_shm();
    let mut buf = new_linked_buffer(&bm, &mut mem, 4096);
    let data = vec![3u8; 4096 + 1000];
    buf.write_bytes(&bm, &mut mem, &data).unwrap();
    assert_eq!(read_chunk(&mut buf, &bm, &mut mem).unwrap().len(), 4096);
    assert_eq!(buf.slice_list().size(), 2);
    assert_eq!(read_chunk(&mut buf, &bm, &mut mem).unwrap().len(), 1000);
    assert_eq!(buf.slice_list().size(), 1);
    assert!(matches!(read_chunk(&mut buf, &bm, &mut mem), Err(Error::NotEnoughData)));
    assert_eq!(buf.slice_list().size(), 0);
    assert_eq!(buf.slice_list().write_slice(), None);
    assert!(bm.check_buffer_returned(&mem));
}
