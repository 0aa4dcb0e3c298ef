use nx_object::blz::{compress, worst_case_len, MatchFinder, MATCH_THRESHOLD, MAX_MATCH, MAX_OFFSET};

/// Reference search: scan every offset in ascending order and keep the first
/// strictly longest match.
fn longest_match_brute_force(data: &[u8], pos: usize) -> (usize, usize) {
    let mut best_len = MATCH_THRESHOLD;
    let mut best_offset = 0;
    let max_offset = pos.min(MAX_OFFSET);

    for offset in 3..=max_offset {
        let mut len = 0;
        while len < MAX_MATCH {
            if len == data.len() - pos || len >= offset {
                break;
            }
            if data[pos + len] != data[pos + len - offset] {
                break;
            }
            len += 1;
        }

        if len > best_len {
            best_offset = offset;
            best_len = len;
            if best_len == MAX_MATCH {
                break;
            }
        }
    }

    (best_len, best_offset)
}

/// Deterministic pseudo-random bytes (xorshift64).
fn pseudo_random_bytes(len: usize, seed: u64) -> Vec<u8> {
    let mut state = seed;
    (0..len)
        .map(|_| {
            state ^= state << 13;
            state ^= state >> 7;
            state ^= state << 17;
            (state & 0xFF) as u8
        })
        .collect()
}

fn longest_match_at_every_position(finder: &MatchFinder<'_>, len: usize) -> Vec<(usize, usize)> {
    (0..len).map(|pos| finder.longest_match(pos)).collect()
}

fn assert_matches_brute_force(data: &[u8], matches: &[(usize, usize)]) {
    assert_eq!(matches.len(), data.len(), "should hold one match per input position");
    for (pos, actual) in matches.iter().enumerate() {
        let expected = longest_match_brute_force(data, pos);
        assert_eq!(*actual, expected, "finder diverged from brute force at position {pos}");
    }
}

#[test]
fn longest_match_with_empty_input_matches_brute_force() {
    let data: Vec<u8> = Vec::new();
    let finder = MatchFinder::new(&data);
    let matches = longest_match_at_every_position(&finder, data.len());
    assert_matches_brute_force(&data, &matches);
}

#[test]
fn longest_match_with_one_byte_input_matches_brute_force() {
    let data = [0x42u8];
    let finder = MatchFinder::new(&data);
    let matches = longest_match_at_every_position(&finder, data.len());
    assert_matches_brute_force(&data, &matches);
}

#[test]
fn longest_match_with_two_byte_input_matches_brute_force() {
    let data = [0x42u8, 0x43];
    let finder = MatchFinder::new(&data);
    let matches = longest_match_at_every_position(&finder, data.len());
    assert_matches_brute_force(&data, &matches);
}

#[test]
fn longest_match_with_rle_input_matches_brute_force() {
    let data = vec![0xABu8; MAX_OFFSET + 256];
    let finder = MatchFinder::new(&data);
    let matches = longest_match_at_every_position(&finder, data.len());
    assert_matches_brute_force(&data, &matches);
}

#[test]
fn longest_match_with_incompressible_input_matches_brute_force() {
    let data = pseudo_random_bytes(8192, 0x1234_5678_9ABC_DEF0);
    let finder = MatchFinder::new(&data);
    let matches = longest_match_at_every_position(&finder, data.len());
    assert_matches_brute_force(&data, &matches);
}

#[test]
fn longest_match_with_repeated_prefix_input_matches_brute_force() {
    let mut data = Vec::new();
    for i in 0..600u32 {
        data.extend_from_slice(&[0x11, 0x22, 0x33]);
        data.push((i & 0xFF) as u8);
    }
    let finder = MatchFinder::new(&data);
    let matches = longest_match_at_every_position(&finder, data.len());
    assert_matches_brute_force(&data, &matches);
}

#[test]
fn longest_match_at_max_offset_boundary_matches_brute_force() {
    let pattern = [1u8, 2, 3, 4, 5, 6, 7, 8];
    let mut data = pseudo_random_bytes(MAX_OFFSET + pattern.len() + 16, 0xDEAD_BEEF_CAFE_F00D);
    data[..pattern.len()].copy_from_slice(&pattern);
    data[MAX_OFFSET..MAX_OFFSET + pattern.len()].copy_from_slice(&pattern);
    let finder = MatchFinder::new(&data);
    let matches = longest_match_at_every_position(&finder, data.len());
    assert_matches_brute_force(&data, &matches);
}

#[test]
fn longest_match_with_structured_input_matches_brute_force() {
    let data = b"the quick brown fox jumps over the lazy dog. ".repeat(64);
    let finder = MatchFinder::new(&data);
    let matches = longest_match_at_every_position(&finder, data.len());
    assert_matches_brute_force(&data, &matches);
}

#[test]
fn longest_match_finds_an_exact_repeat() {
    let data = b"abcdabcd";
    let finder = MatchFinder::new(data);
    assert_eq!(finder.longest_match(4), (4, 4));
    assert_eq!(finder.longest_match(0), (2, 0));
}

#[test]
fn compress_of_empty_input_is_a_stored_trailer() {
    assert_eq!(compress(&[]), vec![0u8, 0, 0, 0]);
}

#[test]
fn compress_of_short_input_is_stored_and_padded() {
    assert_eq!(compress(&[1, 2, 3]), vec![1u8, 2, 3, 0, 0, 0, 0, 0]);
}

#[test]
fn compress_of_a_run_is_packed_and_smaller() {
    let data = vec![0xABu8; 256];
    let out = compress(&data);
    assert!(out.len() < data.len());
    assert_eq!(out.len() % 4, 0);
    let n = out.len();
    let extra = u32::from_le_bytes([out[n - 4], out[n - 3], out[n - 2], out[n - 1]]);
    assert_ne!(extra, 0, "a packed stream ends with a non-zero extra length");
    let header_size = u32::from_le_bytes([out[n - 8], out[n - 7], out[n - 6], out[n - 5]]);
    assert!((12..=15).contains(&header_size));
    assert!(out.len() <= worst_case_len(data.len()));
}

#[test]
fn packed_trailer_describes_the_input() {
    let mut data = pseudo_random_bytes(64, 7);
    data.extend(std::iter::repeat(0x5Au8).take(400));
    let out = compress(&data);
    let n = out.len();
    let word = |at: usize| u32::from_le_bytes([out[at], out[at + 1], out[at + 2], out[at + 3]]);
    let extra = word(n - 4);
    let header_size = word(n - 8);
    let enc_len = word(n - 12) as usize;
    assert_ne!(extra, 0);
    assert!((12..=15).contains(&header_size));
    assert!(header_size as usize <= enc_len && enc_len <= n);
    let dec_len = n - enc_len;
    assert_eq!(&out[..dec_len], &data[..dec_len]);
    assert!(n < data.len());
    assert_eq!(n + extra as usize, data.len());
}

#[test]
fn compress_never_exceeds_the_worst_case_length() {
    for len in [0usize, 1, 7, 100, 4096] {
        let data = pseudo_random_bytes(len, 0x0123_4567_89AB_CDEF);
        assert!(compress(&data).len() <= worst_case_len(len));
    }
}

#[test]
fn worst_case_len_formula() {
    assert_eq!(worst_case_len(0), 15);
    assert_eq!(worst_case_len(100), 100 + 13 + 15);
}

#[test]
fn compress_stores_when_packing_saves_nothing() {
    // Packed, 24 zero bytes would take exactly 24 bytes and so record a zero
    // extra length; the stream is stored instead.
    assert_eq!(compress(&[0u8; 24]), vec![0u8; 28]);
}

#[test]
fn compress_stores_when_packing_would_not_shrink() {
    let data = [0u8, 0, 0, 1, 0, 1, 0, 0, 1, 1, 0, 1, 0, 0, 1, 1, 0, 1, 0, 0, 1, 0, 1, 1];
    let mut stored = data.to_vec();
    stored.extend([0u8; 4]);
    assert_eq!(compress(&data), stored);
}

#[test]
fn packed_streams_never_end_in_a_zero_extra_length() {
    for len in 1usize..400 {
        for pattern in 0..4u8 {
            let data: Vec<u8> = (0..len)
                .map(|i| match pattern {
                    0 => 0u8,
                    1 => (i % 3) as u8,
                    2 => (i % 7) as u8,
                    _ => ((i / 5) % 2) as u8,
                })
                .collect();
            let out = compress(&data);
            let n = out.len();
            let mut stored = data.clone();
            stored.resize((len + 3) / 4 * 4 + 4, 0);
            if out != stored {
                let extra = u32::from_le_bytes([out[n - 4], out[n - 3], out[n - 2], out[n - 1]]);
                assert_ne!(extra, 0, "input of {} bytes, pattern {}", len, pattern);
                assert_eq!(n + extra as usize, len, "input of {} bytes, pattern {}", len, pattern);
            }
        }
    }
}

/// A decoder as the stream layout describes it: a stored stream keeps its
/// leading `len - 4` bytes; a packed stream keeps its raw prefix and expands
/// the un-reversed packed region, flag bits most significant first, into the
/// input's tail read from its end.
fn blz_decode(s: &[u8]) -> Vec<u8> {
    let n = s.len();
    let word = |at: usize| u32::from_le_bytes([s[at], s[at + 1], s[at + 2], s[at + 3]]) as usize;
    let extra = word(n - 4);
    if extra == 0 {
        return s[..n - 4].to_vec();
    }
    let header_size = word(n - 8);
    let enc_len = word(n - 12);
    let dec_len = n - enc_len;
    let pak_len = enc_len - header_size;
    let out_len = dec_len + enc_len + extra;
    let tail_len = out_len - dec_len;
    let packed: Vec<u8> = s[dec_len..dec_len + pak_len].iter().rev().copied().collect();
    let mut tail: Vec<u8> = Vec::new();
    let mut i = 0;
    while tail.len() < tail_len {
        let flags = packed[i];
        i += 1;
        for bit in (0..8).rev() {
            if tail.len() >= tail_len {
                break;
            }
            if flags & (1 << bit) != 0 {
                let (b0, b1) = (packed[i] as usize, packed[i + 1] as usize);
                i += 2;
                let len = (b0 >> 4) + 3;
                let dist = (((b0 & 0xF) << 8) | b1) + 3;
                for _ in 0..len {
                    let b = tail[tail.len() - dist];
                    tail.push(b);
                }
            } else {
                tail.push(packed[i]);
                i += 1;
            }
        }
    }
    let mut out = s[..dec_len].to_vec();
    out.extend(tail.iter().rev());
    out
}

#[test]
fn compress_then_decode_gives_the_input_back() {
    let mut inputs: Vec<Vec<u8>> = vec![
        Vec::new(),
        vec![7],
        vec![0xABu8; 256],
        vec![0u8; 24],
        b"abcabcabcabcabcabcabcabcabcabcabc hello hello hello hello".to_vec(),
        pseudo_random_bytes(1000, 3),
    ];
    let mut mixed = pseudo_random_bytes(64, 7);
    mixed.extend(std::iter::repeat(0x5Au8).take(400));
    mixed.extend(pseudo_random_bytes(300, 9));
    mixed.extend(mixed.clone());
    inputs.push(mixed);
    for data in inputs {
        let out = compress(&data);
        let back = blz_decode(&out);
        assert_eq!(&back[..data.len()], &data[..]);
        assert!(back[data.len()..].iter().all(|&b| b == 0));
        assert!(back.len() - data.len() < 4);
    }
}
