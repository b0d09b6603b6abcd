use shmipc::consts::{QUEUE_COUNT, QUEUE_ELEMENT_LEN};
use shmipc::error::Error;
use shmipc::queue::{
    count_queue_mem_size, plan_queue_file, queue_mapping_size, Queue, QueueElement, QueueError,
    QueueLayout, QueueManager, QUEUE_HEADER_LENGTH,
};

fn element(i: u32) -> QueueElement {
    QueueElement { seq_id: i, offset_in_shm_buf: i, status: i }
}

fn create_queue(cap: u32) -> (Queue, Vec<u8>) {
    let mem_size = QUEUE_HEADER_LENGTH as usize + QUEUE_ELEMENT_LEN as usize * cap as usize;
    let mut mem: Vec<u8> = vec![0u8; mem_size];
    let queue = Queue::create_from_bytes(&mut mem, 0, cap, QueueLayout::for_protocol_version(3));
    (queue, mem)
}

#[test]
fn test_queue_manager_create_mapping() {
    let path = "/tmp/ipc1.queue";
    let layout = QueueLayout::for_protocol_version(3);

    let mut mem = vec![0u8; plan_queue_file(false, true, 8192).unwrap()];
    let qm1 = QueueManager::create_with_file(&mut mem, path, 8192, layout);
    let qm2 = QueueManager::mapping_with_file(&mem, path, layout).unwrap();

    assert!(qm1.send_queue.put(&mut mem, element(0)).is_ok());
    assert!(qm2.recv_queue.pop(&mut mem).is_ok());

    assert!(qm2.send_queue.put(&mut mem, element(0)).is_ok());
    assert!(qm1.recv_queue.pop(&mut mem).is_ok());
}

#[test]
fn what_one_side_sends_the_other_receives_in_order() {
    for layout in [QueueLayout::Legacy, QueueLayout::Aligned] {
        let mut mem = vec![0u8; count_queue_mem_size(8) * QUEUE_COUNT];
        let a = QueueManager::create_with_memfd(&mut mem, "q", 8, layout, 7);
        let b = QueueManager::mapping_with_memfd(&mem, "q", 8, layout).unwrap();
        assert_eq!(a.memfd, 7);
        assert_eq!(b.memfd, 8);
        for i in 0..8 {
            a.send_queue.put(&mut mem, element(i)).unwrap();
        }
        assert!(matches!(a.send_queue.put(&mut mem, element(8)), Err(Error::QueueFull)));
        assert!(b.send_queue.is_empty(&mem));
        for i in 0..8 {
            assert_eq!(b.recv_queue.pop(&mut mem).unwrap(), element(i));
        }
        assert!(matches!(b.recv_queue.pop(&mut mem), Err(Error::QueueEmpty)));
    }
}

#[test]
fn the_last_position_is_noticed() {
    let (q, mut mem) = create_queue(4);
    assert!(q.has_next_position(&mem));
    let tail = QueueLayout::for_protocol_version(3).tail_offset();
    let head = QueueLayout::for_protocol_version(3).head_offset();
    for at in [head, tail] {
        mem[at..at + 8].copy_from_slice(&(i64::MAX as u64).to_ne_bytes());
    }
    assert!(!q.has_next_position(&mem));
}

#[test]
fn test_queue_operate() {
    let (q, mut mem) = create_queue(8192);

    assert!(q.is_empty(&mem));
    assert!(!q.is_full(&mem));
    assert_eq!(0, q.size(&mem));

    let mut put_count = 0;
    for i in 0..8192 {
        assert!(q.put(&mut mem, element(i)).is_ok());
        put_count += 1;
    }
    let r = q.put(&mut mem, element(1));
    assert!(r.is_err());
    assert!(q.is_full(&mem));
    assert!(!q.is_empty(&mem));
    assert_eq!(put_count, q.size(&mem));

    for i in 0..8192 {
        let e = q.pop(&mut mem).unwrap();
        assert_eq!(i, e.seq_id);
        assert_eq!(i, e.offset_in_shm_buf);
        assert_eq!(i, e.status);
    }

    let r = q.pop(&mut mem);
    assert!(r.is_err());
    assert!(q.is_empty(&mem));
    assert!(!q.is_full(&mem));
    assert_eq!(0, q.size(&mem));

    assert!(!q.consumer_is_working(&mem));
    q.mark_working(&mut mem);
    assert!(q.consumer_is_working(&mem));
    q.mark_not_working(&mut mem);
    assert!(!q.consumer_is_working(&mem));

    _ = q.put(&mut mem, element(1));
    q.mark_not_working(&mut mem);
    assert!(q.consumer_is_working(&mem));
}

#[test]
fn queue_layout_is_version_aware() {
    assert_eq!(QueueLayout::Aligned, QueueLayout::for_protocol_version(4));

    let legacy = QueueLayout::Legacy;
    assert_eq!(4, legacy.head_offset());
    assert_eq!(12, legacy.tail_offset());
    assert_eq!(20, legacy.working_flag_offset());

    let aligned = QueueLayout::Aligned;
    assert_eq!(4, aligned.working_flag_offset());
    assert_eq!(8, aligned.head_offset());
    assert_eq!(16, aligned.tail_offset());
}

#[test]
fn machines_that_need_it_are_always_aligned() {
    assert_eq!(QueueLayout::for_target(2, false), QueueLayout::Legacy);
    assert_eq!(QueueLayout::for_target(2, true), QueueLayout::Aligned);
    assert_eq!(QueueLayout::for_target(4, false), QueueLayout::Aligned);
}

#[test]
fn only_the_first_to_mark_a_queue_wakes_the_consumer() {
    let (q, mut mem) = create_queue(4);
    assert!(q.mark_working(&mut mem));
    assert!(!q.mark_working(&mut mem));
    assert!(q.mark_not_working(&mut mem));
    assert!(q.mark_working(&mut mem));
}

#[test]
fn a_queue_region_is_planned_and_measured() {
    assert_eq!(plan_queue_file(true, true, 8), Err(QueueError::Existed));
    assert_eq!(plan_queue_file(false, false, 8), Err(QueueError::NoSpace(2 * (24 + 12 * 8))));
    assert_eq!(plan_queue_file(false, true, 8), Ok(2 * (24 + 12 * 8)));
    assert_eq!(queue_mapping_size(-1, QueueLayout::Legacy), Err(QueueError::InvalidSize(-1)));
    assert_eq!(queue_mapping_size(24, QueueLayout::Aligned), Err(QueueError::Unaligned));
    assert_eq!(queue_mapping_size(24, QueueLayout::Legacy), Ok(24));
    let mem = vec![0u8; 2 * 24 + 1];
    assert!(matches!(
        QueueManager::mapping_with_file(&mem, "", QueueLayout::Aligned),
        Err(QueueError::Unaligned)
    ));
}

#[test]
fn a_queue_out_of_order_is_noticed() {
    let (queue, mut mem) = create_queue(4);
    assert!(queue.is_in_order(&mem));
    queue.put(&mut mem, element(1)).unwrap();
    assert!(queue.is_in_order(&mem));
    assert!(!queue.is_in_order(&mem[..24]));
    let tail = QueueLayout::for_protocol_version(3).tail_offset();
    let head = QueueLayout::for_protocol_version(3).head_offset();
    for (at, x) in [(tail, 5u8), (head, 2), (tail + 7, 0x80)] {
        let mut broken = mem.clone();
        broken[at] = x;
        assert!(!queue.is_in_order(&broken));
    }
}
