use markup_escape::chunked_indices;
use markup_escape::contains_escape;
use markup_escape::escape_bytes;
use markup_escape::reference_indices;

fn is_escape_byte(b: u8) -> bool {
    b == b'"' || b == b'&' || b == b'\'' || b == b'<' || b == b'>'
}

/// Straight-line oracle for positions and growth.
fn oracle(bytes: &[u8]) -> (Vec<usize>, usize) {
    let mut idxs = Vec::new();
    let mut d = 0usize;
    for (i, &b) in bytes.iter().enumerate() {
        if b == b'<' || b == b'>' {
            idxs.push(i);
            d += 3;
        } else if is_escape_byte(b) {
            idxs.push(i);
            d += 4;
        }
    }
    (idxs, d)
}

#[test]
fn engines_agree_on_fixture() {
    let bytes = b"abcd&><'\"efgh";
    let chunked = chunked_indices(bytes);
    let reference = reference_indices(bytes);
    assert_eq!(chunked, reference);
    assert_eq!(chunked, oracle(bytes));
    assert_eq!(chunked.0, vec![4, 5, 6, 7, 8]);
    assert_eq!(chunked.1, 3 + 3 + 4 + 4 + 4);
}

#[test]
fn engines_agree_on_fuzz_inputs() {
    // Deterministic pseudo-random inputs of many lengths, crossing the
    // 64-element chunk boundary, with escape characters at varied density.
    let mut state = 0x2545F4914F6CDD1Du64;
    let mut next = move || {
        state ^= state << 13;
        state ^= state >> 7;
        state ^= state << 17;
        state
    };
    let escapes = [b'"', b'&', b'\'', b'<', b'>'];
    for len in 0..260usize {
        let mut bytes = Vec::with_capacity(len);
        for _ in 0..len {
            let r = next();
            if r % 3 == 0 {
                bytes.push(escapes[(r >> 8) as usize % 5]);
            } else {
                bytes.push((r >> 16) as u8);
            }
        }
        let chunked = chunked_indices(bytes.as_slice());
        let reference = reference_indices(bytes.as_slice());
        let expected = oracle(bytes.as_slice());
        assert_eq!(chunked, reference);
        assert_eq!(chunked, expected);
    }
}

#[test]
fn engines_agree_on_wide_units() {
    let narrow: Vec<u16> = "abcd&><'\"efgh✓".encode_utf16().collect();
    let chunked = chunked_indices(narrow.as_slice());
    let reference = reference_indices(narrow.as_slice());
    assert_eq!(chunked, reference);
    assert_eq!(chunked.0, vec![4, 5, 6, 7, 8]);

    let wide: Vec<u32> = "abcd&><'\"efgh✓".chars().map(|c| c as u32).collect();
    let chunked32 = chunked_indices(wide.as_slice());
    let reference32 = reference_indices(wide.as_slice());
    assert_eq!(chunked32, reference32);
    assert_eq!(chunked32.1, 18);
}

#[test]
fn escape_at_every_chunk_offset() {
    // One escape character walked across two full chunks: positions and
    // output must be exact wherever it falls relative to the chunk edges.
    for pos in 0..130usize {
        let mut bytes = vec![b'a'; 130];
        bytes[pos] = b'<';
        let (idxs, d) = chunked_indices(bytes.as_slice());
        assert_eq!(idxs, vec![pos]);
        assert_eq!(d, 3);
        let out = escape_bytes(bytes.as_slice()).unwrap();
        let mut expected = vec![b'a'; 130];
        expected.splice(pos..pos + 1, b"&lt;".iter().copied());
        assert_eq!(out, expected);
    }
}

#[test]
fn presence_scan_matches_oracle() {
    assert!(!contains_escape(b"abcdefgh".as_slice()));
    assert!(!contains_escape("".as_bytes()));
    for pos in 0..130usize {
        let mut bytes = vec![b'x'; 130];
        bytes[pos] = b'"';
        assert!(contains_escape(bytes.as_slice()));
    }
    let clean16: Vec<u16> = vec![0x2713; 40];
    assert!(!contains_escape(clean16.as_slice()));
    let mut dirty16 = clean16.clone();
    dirty16[33] = b'>' as u16;
    assert!(contains_escape(dirty16.as_slice()));
    let clean32: Vec<u32> = vec![0x1F600; 20];
    assert!(!contains_escape(clean32.as_slice()));
    let mut dirty32 = clean32.clone();
    dirty32[17] = b'\'' as u32;
    assert!(contains_escape(dirty32.as_slice()));
}

#[test]
fn escape_bytes_no_change_is_none() {
    assert!(escape_bytes(b"plain text".as_slice()).is_none());
    assert!(escape_bytes(b"".as_slice()).is_none());
}

#[test]
fn escape_bytes_exact_output() {
    assert_eq!(
        escape_bytes(b"a&b".as_slice()).unwrap(),
        b"a&amp;b".to_vec()
    );
    assert_eq!(
        escape_bytes(b"<script>".as_slice()).unwrap(),
        b"&lt;script&gt;".to_vec()
    );
}
