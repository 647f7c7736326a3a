use bz2zstd::{Bz2Decoder, OutputWriter};

#[test]
fn blocks_in_order_are_written_at_once() {
    let mut writer = OutputWriter::new();
    writer.write_block(0, b"aa".to_vec());
    assert_eq!(writer.take_output(), b"aa");
    writer.write_block(1, b"bbb".to_vec());
    writer.write_block(2, b"c".to_vec());
    assert_eq!(writer.take_output(), b"bbbc");
    assert_eq!(writer.finish(), b"");
}

#[test]
fn early_blocks_are_held_back() {
    let mut writer = OutputWriter::new();
    writer.write_block(2, b"22".to_vec());
    writer.write_block(1, b"1".to_vec());
    assert_eq!(writer.take_output(), b"");
    writer.write_block(0, b"000".to_vec());
    assert_eq!(writer.take_output(), b"000122");
    writer.write_block(4, b"4".to_vec());
    assert_eq!(writer.take_output(), b"");
    writer.write_block(3, b"33".to_vec());
    assert_eq!(writer.finish(), b"334");
}

#[test]
fn every_order_of_arrival_gives_the_same_output() {
    let blocks: Vec<Vec<u8>> = vec![b"zero".to_vec(), b"".to_vec(), b"two".to_vec(), b"3".to_vec()];
    let orders = [
        [0, 1, 2, 3],
        [3, 2, 1, 0],
        [1, 3, 0, 2],
        [2, 0, 3, 1],
        [0, 2, 1, 3],
        [3, 0, 2, 1],
    ];
    for order in orders {
        let mut writer = OutputWriter::new();
        let mut output = Vec::new();
        for index in order {
            writer.write_block(index, blocks[index].clone());
            output.extend(writer.take_output());
        }
        output.extend(writer.finish());
        assert_eq!(output, b"zerotwo3");
    }
}

#[test]
fn blocks_behind_a_gap_are_never_written() {
    let mut writer = OutputWriter::new();
    writer.write_block(0, b"a".to_vec());
    writer.write_block(2, b"c".to_vec());
    writer.write_block(3, b"d".to_vec());
    assert_eq!(writer.finish(), b"a");
}

#[test]
fn output_not_taken_piles_up() {
    let mut writer = OutputWriter::new();
    writer.write_block(1, vec![2, 3]);
    writer.write_block(0, vec![1]);
    writer.write_block(2, vec![4, 5, 6]);
    assert_eq!(writer.finish(), vec![1, 2, 3, 4, 5, 6]);
}

fn read_all(decoder: &mut Bz2Decoder, step: usize) -> Vec<u8> {
    let mut out = Vec::new();
    let mut buf = vec![0u8; step];
    loop {
        let n = decoder.read(&mut buf);
        if n == 0 {
            return out;
        }
        out.extend_from_slice(&buf[..n]);
    }
}

#[test]
fn reader_hands_out_blocks_in_order() {
    let mut decoder = Bz2Decoder::new();
    decoder.push_block(1, b"second".to_vec());
    assert!(decoder.is_starved());
    let mut buf = [0u8; 4];
    assert_eq!(decoder.read(&mut buf), 0);
    decoder.push_block(0, b"first,".to_vec());
    assert!(!decoder.is_starved());
    assert_eq!(decoder.read(&mut buf), 4);
    assert_eq!(&buf, b"firs");
    // A read does not cross from one block into the next.
    assert_eq!(decoder.read(&mut buf), 2);
    assert_eq!(&buf[..2], b"t,");
    assert_eq!(&buf[2..], b"rs");
    assert_eq!(decoder.read(&mut buf), 4);
    assert_eq!(&buf, b"seco");
    assert_eq!(decoder.read(&mut buf), 2);
    assert_eq!(&buf[..2], b"nd");
    assert!(decoder.is_starved());
    assert_eq!(decoder.read(&mut buf), 0);
}

#[test]
fn reader_tells_a_clean_end_from_a_gap() {
    let mut decoder = Bz2Decoder::new();
    assert_eq!(decoder.finish(), Ok(()));
    decoder.push_block(0, b"ab".to_vec());
    decoder.push_block(2, b"ef".to_vec());
    // Block 0 has not been read yet.
    assert_eq!(decoder.finish(), Err(0));
    let mut buf = [0u8; 8];
    assert_eq!(decoder.read(&mut buf), 2);
    assert_eq!(decoder.read(&mut buf), 0);
    // Block 2 waits for block 1, which never came.
    assert!(decoder.is_starved());
    assert_eq!(decoder.finish(), Err(1));
    decoder.push_block(1, b"cd".to_vec());
    assert_eq!(decoder.finish(), Err(1));
    assert_eq!(decoder.read(&mut buf), 2);
    assert_eq!(decoder.read(&mut buf), 2);
    assert_eq!(&buf[..2], b"ef");
    assert_eq!(decoder.read(&mut buf), 0);
    assert_eq!(decoder.finish(), Ok(()));
}

#[test]
fn reader_with_a_half_read_block_is_not_at_its_end() {
    let mut decoder = Bz2Decoder::new();
    decoder.push_block(0, b"abcdef".to_vec());
    let mut buf = [0u8; 4];
    assert_eq!(decoder.read(&mut buf), 4);
    assert_eq!(decoder.finish(), Err(1));
    assert_eq!(decoder.read(&mut buf), 2);
    assert_eq!(decoder.finish(), Ok(()));
}

#[test]
fn reader_skips_empty_blocks() {
    let mut decoder = Bz2Decoder::new();
    decoder.push_block(0, vec![]);
    decoder.push_block(1, vec![]);
    decoder.push_block(2, b"x".to_vec());
    decoder.push_block(3, vec![]);
    let mut buf = [0u8; 8];
    assert_eq!(decoder.read(&mut buf), 1);
    assert_eq!(buf[0], b'x');
    assert_eq!(decoder.read(&mut buf), 0);
    assert!(decoder.is_starved());
}

#[test]
fn reader_gives_nothing_to_an_empty_buffer() {
    let mut decoder = Bz2Decoder::new();
    decoder.push_block(0, b"abc".to_vec());
    let mut none: [u8; 0] = [];
    assert_eq!(decoder.read(&mut none), 0);
    assert!(!decoder.is_starved());
    assert_eq!(read_all(&mut decoder, 2), b"abc");
}

#[test]
fn reader_delivers_the_same_stream_at_every_step_size() {
    let blocks: Vec<Vec<u8>> = vec![b"alpha".to_vec(), b"be".to_vec(), b"gamma!".to_vec()];
    for step in 1..8 {
        for order in [[0, 1, 2], [2, 1, 0], [1, 2, 0]] {
            let mut decoder = Bz2Decoder::new();
            for index in order {
                decoder.push_block(index, blocks[index].clone());
            }
            assert_eq!(read_all(&mut decoder, step), b"alphabegamma!");
        }
    }
}
