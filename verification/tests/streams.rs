use pngs::search::PngSearch;

/// A plain restatement of the scanner, kept apart from the library: returns
/// the images in the order in which they are completed.
fn expected_images(stream: &[u8]) -> Vec<Vec<u8>> {
    let header = [0x89u8, 0x50, 0x4E, 0x47, 0x0D, 0x0A, 0x1A, 0x0A];
    let footer = [0u8, 0, 0, 0, 0x49, 0x45, 0x4E, 0x44];
    let mut images = Vec::new();
    let mut buffer: Vec<u8> = Vec::new();
    let mut in_header = 0usize;
    let mut in_footer = 0usize;
    for byte in stream.iter().copied() {
        if in_header < 8 {
            if byte == header[in_header] {
                buffer.push(byte);
                in_header += 1;
            } else {
                buffer.clear();
                in_header = 0;
            }
            continue;
        }
        buffer.push(byte);
        if in_footer < 8 {
            in_footer = if byte == footer[in_footer] { in_footer + 1 } else { 0 };
        } else {
            in_footer += 1;
        }
        if in_footer == 12 {
            images.push(buffer.clone());
            buffer.clear();
            in_header = 0;
            in_footer = 0;
        }
    }
    images
}

/// Bytes drawn from the two patterns and a few others, so that partial and
/// complete matches are frequent.
fn mixed_stream(seed: u64, len: usize) -> Vec<u8> {
    let header = [0x89u8, 0x50, 0x4E, 0x47, 0x0D, 0x0A, 0x1A, 0x0A];
    let footer = [0u8, 0, 0, 0, 0x49, 0x45, 0x4E, 0x44];
    let mut state = seed;
    let mut stream = Vec::new();
    while stream.len() < len {
        state = state.wrapping_mul(6364136223846793005).wrapping_add(1442695040888963407);
        let pick = (state >> 33) % 16;
        let take = 1 + ((state >> 40) % 8) as usize;
        match pick {
            0..=4 => stream.extend_from_slice(&header[..take]),
            5..=9 => stream.extend_from_slice(&footer[..take]),
            10 | 11 => stream.extend_from_slice(&header),
            12 | 13 => stream.extend_from_slice(&footer),
            14 => stream.push(0),
            _ => stream.push((state >> 48) as u8),
        }
    }
    stream.truncate(len);
    stream
}

#[test]
fn mixed_streams_give_the_expected_images() {
    let mut total = 0;
    for seed in 0..200u64 {
        let stream = mixed_stream(seed, 600);
        let expected = expected_images(&stream);
        let mut search = PngSearch::new(String::from("out"));
        let found = search.add_bytes(&stream);
        assert_eq!(found.len(), expected.len());
        for (at, artifact) in found.iter().enumerate() {
            assert_eq!(artifact.bytes, expected[at]);
            assert_eq!(artifact.ordinal as usize, at + 1);
            assert_eq!(artifact.name, format!("{:04}.png", at + 1));
        }
        assert_eq!(search.png_count() as usize, expected.len());
        total += found.len();
    }
    assert!(total > 100);
}

#[test]
fn feeding_byte_by_byte_agrees_with_feeding_at_once() {
    for seed in 1000..1050u64 {
        let stream = mixed_stream(seed, 400);
        let mut whole = PngSearch::new(String::from("out"));
        let at_once = whole.add_bytes(&stream);
        let mut single = PngSearch::new(String::from("out"));
        let mut one_by_one = Vec::new();
        for byte in stream.iter() {
            if let Some(artifact) = single.add_byte(*byte) {
                one_by_one.push(artifact);
            }
        }
        assert_eq!(at_once, one_by_one);
        assert_eq!(whole.png_count(), single.png_count());
        assert_eq!(whole.header_idx(), single.header_idx());
        assert_eq!(whole.footer_idx(), single.footer_idx());
        assert_eq!(whole.file_buffer(), single.file_buffer());
    }
}

#[test]
fn feeding_in_two_parts_agrees_with_feeding_at_once() {
    let stream = mixed_stream(77, 500);
    let mut whole = PngSearch::new(String::from("out"));
    let at_once = whole.add_bytes(&stream);
    for cut in [0usize, 1, 7, 8, 9, 100, 250, 499, 500] {
        let mut parts = PngSearch::new(String::from("out"));
        let mut found = parts.add_bytes(&stream[..cut]);
        found.extend(parts.add_bytes(&stream[cut..]));
        assert_eq!(found, at_once);
        assert_eq!(parts.file_buffer(), whole.file_buffer());
    }
}
