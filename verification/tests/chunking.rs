use onebrc::{Chunker, Error};

#[test]
fn aligned_block_is_emitted_whole() {
    let mut c = Chunker::new(1024);
    let block = c.push(b"Ranst;-13.7\nLonghua;-5.3\n").unwrap().unwrap();
    assert_eq!(block, b"Ranst;-13.7\nLonghua;-5.3\n".to_vec());
    assert_eq!(c.finish(), None);
}

#[test]
fn tail_is_retained_until_terminated() {
    let mut c = Chunker::new(1024);
    let block = c.push(b"Ranst;-13.7\nLong").unwrap().unwrap();
    assert_eq!(block, b"Ranst;-13.7\n".to_vec());
    assert_eq!(c.push(b"hua;-5").unwrap(), None);
    let block = c.push(b".3\nRanst;2.7").unwrap().unwrap();
    assert_eq!(block, b"Longhua;-5.3\n".to_vec());
    // End of input: the unterminated final record is one last block.
    assert_eq!(c.finish(), Some(b"Ranst;2.7".to_vec()));
}

#[test]
fn blocks_concatenate_back_to_the_stream() {
    // The same stream split at several arbitrary read boundaries must
    // reassemble exactly, with every block ending on a terminator.
    let stream = b"alpha;1.0\nbeta;-2.5\ngamma;33.3\ndelta;0.0\nepsilon;4.2";
    for cut1 in [0usize, 3, 9, 10, 17, 30] {
        for cut2 in [31usize, 40, 52] {
            let mut c = Chunker::new(64);
            let mut rebuilt: Vec<u8> = Vec::new();
            for part in [&stream[..cut1], &stream[cut1..cut2], &stream[cut2..]] {
                if let Some(block) = c.push(part).unwrap() {
                    assert_eq!(*block.last().unwrap(), b'\n');
                    rebuilt.extend_from_slice(&block);
                }
            }
            if let Some(block) = c.finish() {
                rebuilt.extend_from_slice(&block);
            }
            assert_eq!(rebuilt, stream.to_vec());
        }
    }
}

#[test]
fn oversized_record_is_fatal() {
    let mut c = Chunker::new(8);
    // No terminator and the pending record reaches the capacity.
    assert_eq!(c.push(b"abcdefgh"), Err(Error::RecordTooLong));
    // Below the capacity the bytes are retained instead.
    assert_eq!(c.push(b"abc").unwrap(), None);
    assert_eq!(c.push(b"defgh"), Err(Error::RecordTooLong));
}

#[test]
fn oversized_tail_after_terminator_is_fatal() {
    let mut c = Chunker::new(4);
    assert_eq!(c.push(b"a;1\nmuchtoolong"), Err(Error::RecordTooLong));
}

#[test]
fn empty_input_emits_nothing() {
    let mut c = Chunker::new(16);
    assert_eq!(c.push(b"").unwrap(), None);
    assert_eq!(c.finish(), None);
}
