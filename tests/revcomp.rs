use revcomp::chunks::{reverse_chunks, reverse_chunks_grouped};
use revcomp::complement::complement;
use revcomp::record::{reverse_complement_left_right, Sequence, BLOCK_ROWS, LINE_LEN};
use revcomp::scanner::{SequenceReader, Step, READ_SIZE};

/// Reverse complement computed the plain way: take out the nucleotides,
/// reverse and complement them, and put them back where the old ones stood.
fn naive(record: &[u8]) -> Vec<u8> {
    let off = record.iter().position(|&b| b == b'\n').unwrap() + 1;
    let end = record.len() - 1;
    let nucs: Vec<u8> = record[off..end]
        .iter()
        .copied()
        .filter(|&b| b != b'\n')
        .rev()
        .map(complement)
        .collect();
    let mut out = record.to_vec();
    let mut k = 0;
    for b in out[off..end].iter_mut() {
        if *b != b'\n' {
            *b = nucs[k];
            k += 1;
        }
    }
    out
}

fn wrapped_record(header: &str, len: usize, seed: u32) -> Vec<u8> {
    let alphabet = b"ACGTBDHKMNRSVWY";
    let mut out = header.as_bytes().to_vec();
    out.push(b'\n');
    let mut x = seed;
    for i in 0..len {
        x = x.wrapping_mul(1103515245).wrapping_add(12345);
        out.push(alphabet[((x >> 16) as usize) % alphabet.len()]);
        if (i + 1) % LINE_LEN == 0 && i + 1 < len {
            out.push(b'\n');
        }
    }
    out.push(b'\n');
    out
}

fn transform(record: &[u8]) -> Vec<u8> {
    let mut seq = Sequence::from_slice(record.to_vec()).unwrap();
    seq.reverse_complement();
    seq.as_slice().to_vec()
}

fn break_offsets(b: &[u8]) -> Vec<usize> {
    b.iter().enumerate().filter(|(_, &c)| c == b'\n').map(|(i, _)| i).collect()
}

fn run_stream(input: &[u8], read_len: usize) -> Vec<u8> {
    let mut reader = SequenceReader::new();
    let mut out = Vec::new();
    let mut at = 0;
    loop {
        match reader.next() {
            Step::Record(mut seq) => {
                seq.reverse_complement();
                out.extend_from_slice(seq.as_slice());
            }
            Step::NeedInput => {
                let take = std::cmp::min(read_len, input.len() - at);
                reader.push_input(&input[at..at + take], take < read_len);
                at += take;
            }
            Step::End => return out,
            Step::Malformed => panic!("malformed record"),
        }
    }
}

#[test]
fn complement_pairs_canonical_bases() {
    assert_eq!(complement(b'A'), b'T');
    assert_eq!(complement(b'T'), b'A');
    assert_eq!(complement(b'C'), b'G');
    assert_eq!(complement(b'G'), b'C');
    assert_eq!(complement(b'U'), b'A');
}

#[test]
fn complement_table_matches_documented_pairs() {
    let pairs: [(u8, u8); 16] = [
        (b'A', b'T'), (b'B', b'V'), (b'C', b'G'), (b'D', b'H'), (b'G', b'C'),
        (b'H', b'D'), (b'K', b'M'), (b'M', b'K'), (b'R', b'Y'), (b'S', b'S'),
        (b'T', b'A'), (b'U', b'A'), (b'V', b'B'), (b'W', b'W'), (b'Y', b'R'),
        (b'N', b'N'),
    ];
    for (b, c) in pairs {
        assert_eq!(complement(b), c);
        assert_eq!(complement(b.to_ascii_lowercase()), c);
    }
}

#[test]
fn complement_leaves_other_bytes() {
    let defined = b"ABCDGHKMRSTUVWYabcdghkmnrstuvwy";
    for b in 0u8..=255 {
        if !defined.contains(&b) {
            assert_eq!(complement(b), b);
        }
    }
    assert_eq!(complement(b'\n'), b'\n');
    assert_eq!(complement(b'N'), b'N');
    assert_eq!(complement(b'n'), b'N');
}

#[test]
fn reverse_chunks_swaps_and_complements() {
    let mut buf = b"AACCxxGGTT".to_vec();
    reverse_chunks(&mut buf, 0, 10, 4);
    assert_eq!(&buf, b"AACCxxGGTT");
    let mut buf = b"ACGxTTT".to_vec();
    reverse_chunks(&mut buf, 0, 7, 3);
    assert_eq!(&buf, b"AAAxCGT");
}

#[test]
fn chunk_paths_agree_on_every_byte_and_length() {
    for n in 0..48usize {
        for start in 0..=255u32 {
            let len = 2 * n + 3;
            let mut a: Vec<u8> = (0..len as u32).map(|i| ((start + i * 37) % 256) as u8).collect();
            let mut b = a.clone();
            reverse_chunks(&mut a, 1, len - 1, n);
            reverse_chunks_grouped(&mut b, 1, len - 1, n);
            assert_eq!(a, b);
        }
    }
}

#[test]
fn short_record_scenario() {
    assert_eq!(transform(b">s1\nACGT\n"), b">s1\nACGT\n".to_vec());
    assert_eq!(transform(b">s1\nAACG\n"), b">s1\nCGTT\n".to_vec());
}

#[test]
fn three_full_lines_and_a_half() {
    let rec = wrapped_record(">three", 3 * LINE_LEN + LINE_LEN / 2, 7);
    let out = transform(&rec);
    assert_eq!(out.len(), rec.len());
    assert_eq!(break_offsets(&out), break_offsets(&rec));
    assert_eq!(out, naive(&rec));
}

#[test]
fn many_lengths_match_plain_reversal() {
    for len in 1..400usize {
        let rec = wrapped_record(">r", len, len as u32);
        let out = transform(&rec);
        assert_eq!(out, naive(&rec), "content length {}", len);
        assert_eq!(break_offsets(&out), break_offsets(&rec));
    }
}

#[test]
fn large_record_uses_blocks() {
    let len = 2 * BLOCK_ROWS * LINE_LEN + 1234;
    let rec = wrapped_record(">big", len, 3);
    let out = transform(&rec);
    assert_eq!(out, naive(&rec));
    assert_eq!(transform(&out), rec);
}

#[test]
fn involution_on_upper_case_records() {
    for len in [1usize, 59, 60, 61, 121, 500] {
        let rec = wrapped_record(">inv", len, 11);
        assert_eq!(transform(&transform(&rec)), rec);
    }
}

#[test]
fn from_slice_rejects_malformed_headers() {
    assert!(Sequence::from_slice(b">no break".to_vec()).is_none());
    assert!(Sequence::from_slice(b">only header\n".to_vec()).is_none());
    assert!(Sequence::from_slice(b">empty content\n\n".to_vec()).is_none());
    let seq = Sequence::from_slice(b">h\nAC\n".to_vec()).unwrap();
    assert_eq!(seq.content_offset, 3);
    assert_eq!(seq.get_content(), b"AC");
}

#[test]
fn left_right_meets_in_the_middle() {
    let mut buf = b"ACGTA".to_vec();
    let (i, j) = reverse_complement_left_right(&mut buf, 0, 5, 0, 5, 5);
    assert_eq!(i, j);
    assert_eq!(&buf, b"TACGT");
}

#[test]
fn stream_read_one_byte_at_a_time() {
    let mut input = wrapped_record(">one", 130, 1);
    input.extend(wrapped_record(">two", 61, 2));
    input.extend(wrapped_record(">three", 7, 3));
    let whole = run_stream(&input, input.len() + 1);
    let bytewise = run_stream(&input, 1);
    assert_eq!(bytewise, whole);
    let mut expected = naive(&wrapped_record(">one", 130, 1));
    expected.extend(naive(&wrapped_record(">two", 61, 2)));
    expected.extend(naive(&wrapped_record(">three", 7, 3)));
    assert_eq!(whole, expected);
    assert_eq!(run_stream(&input, READ_SIZE), whole);
    for read_len in [2usize, 3, 5, 64, 200] {
        assert_eq!(run_stream(&input, read_len), whole);
    }
}

#[test]
fn stream_malformed_header_at_end() {
    let mut reader = SequenceReader::new();
    assert!(matches!(reader.next(), Step::NeedInput));
    reader.push_input(b">s1 no line break", true);
    assert!(matches!(reader.next(), Step::Malformed));
    assert!(matches!(reader.next(), Step::End));
}

#[test]
fn stream_empty_content_is_malformed() {
    let mut reader = SequenceReader::new();
    reader.push_input(b">a\n\n>b\nA\n", true);
    assert!(matches!(reader.next(), Step::Malformed));
    match reader.next() {
        Step::Record(seq) => assert_eq!(seq.as_slice(), b">b\nA\n"),
        _ => panic!("expected a record"),
    }
}

#[test]
fn lower_case_n_complements_to_upper_case() {
    assert_eq!(transform(b">x\nnacg\n"), b">x\nCGTN\n".to_vec());
}

#[test]
fn stream_empty_input_ends() {
    let mut reader = SequenceReader::new();
    reader.push_input(b"", true);
    assert!(matches!(reader.next(), Step::End));
}

#[test]
fn stream_waits_for_the_next_header() {
    let mut reader = SequenceReader::new();
    reader.push_input(b">a\nAC", false);
    assert!(matches!(reader.next(), Step::NeedInput));
    reader.push_input(b"G\n>b\nT\n", true);
    match reader.next() {
        Step::Record(seq) => assert_eq!(seq.as_slice(), b">a\nACG\n"),
        _ => panic!("expected a record"),
    }
    match reader.next() {
        Step::Record(seq) => assert_eq!(seq.as_slice(), b">b\nT\n"),
        _ => panic!("expected a record"),
    }
    assert!(matches!(reader.next(), Step::End));
}
