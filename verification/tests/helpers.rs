use bytes::BytesMut;
use shmipc::buffer::buf::Buf;
use shmipc::compact::{
    ReadAction, ReadState, StreamExt, WriteAction, WriteCall, WriteError, WriteState,
};
use shmipc::config::Platform;
use shmipc::error::Error;
use shmipc::stats::{Stats, StatsSnapshot};
use shmipc::stream::state::Stream;
use shmipc::text;
use shmipc::util::shmbuf_reader::BufReader;
use shmipc::util::{can_create_on_dev_shm, can_create_on_dev_shm_on};

const BUF_LEN: usize = 64;
const READ_SIZE: usize = 16;

fn shm_buf(size: usize) -> Buf<'static> {
    let mut buf = BytesMut::with_capacity(size);
    buf.resize(size, 0);
    Buf::Exm(buf.freeze())
}

#[test]
fn test_nothing() {
    let mut buf = [0u8; 64];
    let mut readbuf = tokio::io::ReadBuf::new(&mut buf);
    let mut reader = BufReader::new(shm_buf(0));
    assert!(reader.read(&mut readbuf));
    assert_eq!(reader.consumed(), 0);
}

#[test]
fn test_read_once() {
    let mut buf = [0u8; BUF_LEN];
    let mut readbuf = tokio::io::ReadBuf::new(&mut buf);
    let mut reader = BufReader::new(shm_buf(READ_SIZE));
    assert!(reader.read(&mut readbuf));
    assert_eq!(reader.consumed(), READ_SIZE);
}

#[test]
fn test_read_twice() {
    const DATA_LEN: usize = BUF_LEN + READ_SIZE;

    let mut buf = [0u8; BUF_LEN];
    let mut readbuf = tokio::io::ReadBuf::new(&mut buf);
    let mut reader = BufReader::new(shm_buf(80));
    assert!(!reader.read(&mut readbuf));
    assert_eq!(reader.consumed(), BUF_LEN);
    readbuf.clear();
    assert!(reader.read(&mut readbuf));
    assert_eq!(reader.consumed(), DATA_LEN);
}

#[test]
fn a_reader_hands_on_every_byte() {
    let mut reader = BufReader::new(Buf::Exm(bytes::Bytes::from_static(b"abcdefg")));
    let mut out = Vec::new();
    loop {
        let mut buf = [0u8; 3];
        let mut readbuf = tokio::io::ReadBuf::new(&mut buf);
        let all = reader.read(&mut readbuf);
        out.extend_from_slice(readbuf.filled());
        if all {
            break;
        }
    }
    assert_eq!(out, b"abcdefg");
}

#[test]
fn test_can_create_on_dev_shm() {
    // just on /dev/shm, other always return true
    assert!(can_create_on_dev_shm(u64::MAX, "sdffafds", None));
    let free = fs2::free_space("/dev/shm").unwrap();
    assert!(can_create_on_dev_shm(free, "/dev/shm/xxx", Some(free)));
    assert!(!can_create_on_dev_shm(free + 1, "/dev/shm/yyy", Some(free)));
}

#[test]
fn space_that_nobody_knows_is_none() {
    assert!(!can_create_on_dev_shm(1, "/dev/shm/xxx", None));
    assert!(!can_create_on_dev_shm(2, "/mnt/dev/shm", Some(1)));
    assert!(can_create_on_dev_shm(2, "/dev/sh", Some(1)));
    let mac = Platform { linux: false, amd64: true, arm64: false, riscv64: false };
    assert!(can_create_on_dev_shm_on(mac, 33333, "sdffafds", None));
    assert!(can_create_on_dev_shm_on(mac, 33333, "/dev/shm/x", None));
}

fn assert_unpin<T: Unpin>() {}

#[test]
fn stream_ext_remains_unpin() {
    assert_unpin::<StreamExt<Stream>>();
}

#[test]
fn states_do_not_inline_a_stream_handle() {
    assert!(size_of::<ReadState>() < size_of::<Stream>());
    assert!(size_of::<WriteState>() < size_of::<Stream>());
}

#[test]
fn a_read_waits_reads_and_ends() {
    let mut s = StreamExt::new(Stream::new(3, 0));
    assert!(matches!(s.poll_read(0), ReadAction::Ready));
    assert_eq!(s.read_state, ReadState::Idle);
    assert!(matches!(s.poll_read(8), ReadAction::StartWait));
    assert!(matches!(s.on_wait(None), ReadAction::Pending));
    assert!(matches!(s.poll_read(8), ReadAction::PollWait));
    assert!(matches!(s.on_wait(Some(Ok(()))), ReadAction::Read));
    // somebody else was faster
    assert!(matches!(s.on_read(Err(Error::NotEnoughData)), ReadAction::StartWait));
    assert!(matches!(s.on_wait(Some(Ok(()))), ReadAction::Read));
    assert!(matches!(s.on_read(Ok(4)), ReadAction::Ready));
    assert_eq!(s.read_state, ReadState::Idle);
    assert!(matches!(s.poll_read(8), ReadAction::StartWait));
    assert!(matches!(
        s.on_wait(Some(Err(Error::StreamClosed))),
        ReadAction::Fail(Error::StreamClosed)
    ));
    assert!(matches!(s.poll_read(8), ReadAction::StartWait));
    assert!(matches!(s.on_wait(Some(Err(Error::EndOfStream))), ReadAction::Ready));
    assert_eq!(s.read_state, ReadState::Eof);
    assert!(matches!(s.poll_read(8), ReadAction::Ready));
    *s.inner_mut() = Stream::new(5, 0);
    assert_eq!(s.read_state, ReadState::Idle);
    assert_eq!(s.inner().stream_id(), 5);
    assert_eq!(s.into_inner().stream_id(), 5);
}

#[test]
fn a_writer_flushes_and_closes_in_turn() {
    let mut s = StreamExt::new(Stream::new(3, 0));
    assert!(matches!(s.poll_write(0), WriteAction::Ready));
    assert!(matches!(s.poll_write(9), WriteAction::Write));
    assert!(matches!(s.poll_flush(), WriteAction::StartFlush));
    assert!(matches!(s.on_flush(WriteCall::Flush, None), WriteAction::Pending));
    assert!(matches!(s.poll_write(9), WriteAction::PollFlush));
    assert!(matches!(s.on_flush(WriteCall::Write, Some(Ok(()))), WriteAction::Write));
    assert!(matches!(s.poll_flush(), WriteAction::StartFlush));
    assert!(matches!(
        s.on_flush(WriteCall::Flush, Some(Err(Error::StreamClosed))),
        WriteAction::Ready
    ));
    assert!(matches!(s.poll_flush(), WriteAction::StartFlush));
    assert!(matches!(
        s.on_flush(WriteCall::Write, Some(Err(Error::StreamClosed))),
        WriteAction::Fail(WriteError::Stream(Error::StreamClosed))
    ));
    assert!(matches!(s.poll_flush(), WriteAction::StartFlush));
    assert!(matches!(s.poll_shutdown(), WriteAction::PollFlush));
    assert!(matches!(s.on_flush(WriteCall::Shutdown, Some(Ok(()))), WriteAction::StartClose));
    assert!(matches!(s.poll_write(1), WriteAction::Fail(WriteError::ClosingDuringWrite)));
    assert!(matches!(s.poll_flush(), WriteAction::Fail(WriteError::ClosingDuringFlush)));
    assert!(matches!(s.poll_shutdown(), WriteAction::PollClose));
    assert!(matches!(s.on_close(None), WriteAction::Pending));
    assert!(matches!(s.on_close(Some(Ok(()))), WriteAction::Ready));
    assert_eq!(s.write_state, WriteState::Idle);
    assert!(matches!(s.poll_shutdown(), WriteAction::StartClose));
    assert!(matches!(
        s.on_close(Some(Err(Error::SessionShutdown))),
        WriteAction::Fail(WriteError::Stream(Error::SessionShutdown))
    ));
}

#[test]
fn counters_are_compared_and_summed() {
    let mut stats = Stats::default();
    stats.out_flow_bytes = 10;
    stats.queue_full_error_count = 1;
    let a = stats.snapshot();
    stats.out_flow_bytes = 25;
    let b = stats.snapshot();
    let diff = b.saturating_sub(a);
    assert_eq!(diff.out_flow_bytes, 15);
    assert_eq!(diff.queue_full_error_count, 0);
    assert_eq!(a.saturating_sub(b).out_flow_bytes, 0);
    let mut sum = StatsSnapshot::default();
    sum.add_assign(a);
    sum.add_assign(diff);
    assert_eq!(sum, b);
}

#[test]
fn numbers_are_written_in_decimal() {
    let mut s = String::from("n=");
    text::push_decimal(&mut s, 0);
    s.push(' ');
    text::push_decimal(&mut s, 18446744073709551615);
    assert_eq!(s, "n=0 18446744073709551615");
}
