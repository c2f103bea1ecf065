use write_to_async_reader::buffer::DestBuf;
use write_to_async_reader::error::StreamError;
use write_to_async_reader::producer::ChunkProducer;
use write_to_async_reader::reader::Phase;
use write_to_async_reader::reader::Reader;

fn producer(chunks: &[&[u8]], result: Result<(), StreamError>) -> ChunkProducer {
    let owned: Vec<Vec<u8>> = chunks.iter().map(|c| c.to_vec()).collect();
    ChunkProducer::new(owned, result)
}

/// One poll with a fresh destination of the given capacity; returns the
/// bytes it delivered and the poll's result.
fn poll(reader: &mut Reader, cap: usize) -> (Vec<u8>, Result<(), StreamError>) {
    let mut dest = DestBuf::new(cap);
    let r = reader.poll_read(&mut dest);
    (dest.take_filled(), r)
}

#[test]
fn no_writes_completes_with_zero_bytes() {
    let mut reader = Reader::new(producer(&[], Ok(())));
    assert!(!reader.is_done());
    let (bytes, r) = poll(&mut reader, 8);
    assert_eq!(bytes, Vec::<u8>::new());
    assert_eq!(r, Ok(()));
    assert!(reader.is_done());
}

#[test]
fn empty_chunks_complete_with_zero_bytes() {
    let mut reader = Reader::new(producer(&[b"", b"", b""], Ok(())));
    let (bytes, r) = poll(&mut reader, 8);
    assert_eq!(bytes, Vec::<u8>::new());
    assert_eq!(r, Ok(()));
    assert!(reader.is_done());
}

#[test]
fn failure_with_no_writes_surfaces_on_first_poll() {
    let mut reader = Reader::new(producer(&[], Err(StreamError { code: 3 })));
    let (bytes, r) = poll(&mut reader, 8);
    assert_eq!(bytes, Vec::<u8>::new());
    assert_eq!(r, Err(StreamError { code: 3 }));
    assert!(reader.is_done());
}

#[test]
fn completed_stream_polls_report_clean_end() {
    let mut reader = Reader::new(producer(&[b"xyz"], Ok(())));
    let (bytes, r) = poll(&mut reader, 8);
    assert_eq!(bytes, b"xyz".to_vec());
    assert_eq!(r, Ok(()));
    assert!(reader.is_done());
    for _ in 0..5 {
        let (bytes, r) = poll(&mut reader, 8);
        assert_eq!(bytes, Vec::<u8>::new());
        assert_eq!(r, Ok(()));
        assert!(reader.is_done());
    }
}

#[test]
fn completed_stream_swallows_no_second_error() {
    let mut reader = Reader::new(producer(&[b"a"], Err(StreamError { code: 11 })));
    let (bytes, r) = poll(&mut reader, 4);
    assert_eq!(bytes, b"a".to_vec());
    assert_eq!(r, Err(StreamError { code: 11 }));
    let (bytes, r) = poll(&mut reader, 4);
    assert_eq!(bytes, Vec::<u8>::new());
    assert_eq!(r, Ok(()));
}

#[test]
fn failure_after_successful_writes_surfaces_at_completion() {
    let mut reader = Reader::new(producer(&[b"abcd"], Err(StreamError { code: 9 })));
    let (bytes, r) = poll(&mut reader, 2);
    assert_eq!(bytes, b"ab".to_vec());
    assert_eq!(r, Ok(()));
    let (bytes, r) = poll(&mut reader, 2);
    assert_eq!(bytes, b"cd".to_vec());
    assert_eq!(r, Err(StreamError { code: 9 }));
    assert!(reader.is_done());
}

#[test]
fn hello_world_in_four_byte_polls() {
    let mut reader = Reader::new(producer(&[b"Hello", b", World!"], Ok(())));
    let (bytes, r) = poll(&mut reader, 4);
    assert_eq!(bytes, b"Hell".to_vec());
    assert_eq!(r, Ok(()));
    assert!(!reader.is_done());
    let (bytes, r) = poll(&mut reader, 4);
    assert_eq!(bytes, b"o".to_vec());
    assert_eq!(r, Ok(()));
    assert!(!reader.is_done());
    let (bytes, r) = poll(&mut reader, 4);
    assert_eq!(bytes, b", Wo".to_vec());
    assert_eq!(r, Ok(()));
    assert!(!reader.is_done());
    let (bytes, r) = poll(&mut reader, 4);
    assert_eq!(bytes, b"rld!".to_vec());
    assert_eq!(r, Ok(()));
    assert!(reader.is_done());
    let (bytes, r) = poll(&mut reader, 4);
    assert_eq!(bytes, Vec::<u8>::new());
    assert_eq!(r, Ok(()));
}

#[test]
fn polls_concatenate_to_the_producer_output() {
    let mut reader = Reader::new(producer(&[b"foo", b"", b"barbaz", b"!"], Ok(())));
    let mut all = Vec::new();
    let mut last = Ok(());
    while !reader.is_done() {
        let (bytes, r) = poll(&mut reader, 4);
        all.extend_from_slice(&bytes);
        last = r;
    }
    assert_eq!(all, b"foobarbaz!".to_vec());
    assert_eq!(last, Ok(()));
}

#[test]
fn read_to_end_collects_everything() {
    let mut reader = Reader::new(producer(&[b"foo", b"", b"barbaz"], Ok(())));
    let (bytes, r) = reader.read_to_end(4);
    assert_eq!(bytes, b"foobarbaz".to_vec());
    assert_eq!(r, Ok(()));
    assert!(reader.is_done());
}

#[test]
fn read_to_end_reports_the_failure_after_all_bytes() {
    let mut reader = Reader::new(producer(&[b"Hello", b", World!"], Err(StreamError { code: 42 })));
    let (bytes, r) = reader.read_to_end(4);
    assert_eq!(bytes, b"Hello, World!".to_vec());
    assert_eq!(r, Err(StreamError { code: 42 }));
}

#[test]
fn read_to_end_of_finished_stream_is_empty_success() {
    let mut reader = Reader::new(producer(&[b"x"], Err(StreamError { code: 5 })));
    let (_, r) = reader.read_to_end(1);
    assert_eq!(r, Err(StreamError { code: 5 }));
    let (bytes, r) = reader.read_to_end(1);
    assert_eq!(bytes, Vec::<u8>::new());
    assert_eq!(r, Ok(()));
}

#[test]
fn zero_capacity_poll_makes_no_progress() {
    let mut reader = Reader::new(producer(&[b"data"], Ok(())));
    let (bytes, r) = poll(&mut reader, 0);
    assert_eq!(bytes, Vec::<u8>::new());
    assert_eq!(r, Ok(()));
    assert!(!reader.is_done());
    let (bytes, _) = poll(&mut reader, 8);
    assert_eq!(bytes, b"data".to_vec());
}

#[test]
fn phase_lifecycle() {
    let mut phase = Phase::new();
    assert!(phase.needs_start());
    assert!(!phase.is_done());
    phase.suspend();
    assert!(!phase.needs_start());
    assert!(!phase.is_done());
    phase.complete();
    assert!(phase.is_done());
}
