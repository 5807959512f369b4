use pngs::search::{Artifact, PngSearch};
use pngs::signature::{PNG_FOOTER, PNG_HEADER};
use typed_path::Utf8NativePath;

const HEADER: [u8; 8] = [0x89, 0x50, 0x4E, 0x47, 0x0D, 0x0A, 0x1A, 0x0A];
const FOOTER: [u8; 8] = [0, 0, 0, 0, 0x49, 0x45, 0x4E, 0x44];

/// Header, two content bytes, footer pattern and four checksum bytes.
fn sample() -> Vec<u8> {
    vec![
        0x89, 0x50, 0x4E, 0x47, 0x0D, 0x0A, 0x1A, 0x0A, 0x01, 0x02, 0, 0, 0, 0, 0x49, 0x45, 0x4E,
        0x44, 0xAA, 0xBB, 0xCC, 0xDD,
    ]
}

fn image(content: &[u8], checksum: [u8; 4]) -> Vec<u8> {
    let mut bytes = HEADER.to_vec();
    bytes.extend_from_slice(content);
    bytes.extend_from_slice(&FOOTER);
    bytes.extend_from_slice(&checksum);
    bytes
}

fn scan(bytes: &[u8]) -> (PngSearch, Vec<Artifact>) {
    let mut search = PngSearch::new(String::from("out"));
    let found = search.add_bytes(bytes);
    (search, found)
}

fn under_out(name: &str) -> String {
    Utf8NativePath::new("out").join(name).into_string()
}

#[test]
fn patterns_are_the_png_signature_and_end_marker() {
    assert_eq!(PNG_HEADER, [0x89, b'P', b'N', b'G', 0x0D, 0x0A, 0x1A, 0x0A]);
    assert_eq!(PNG_FOOTER, [0, 0, 0, 0, b'I', b'E', b'N', b'D']);
}

#[test]
fn new_search_has_seen_nothing() {
    let search = PngSearch::new(String::from("somewhere"));
    assert_eq!(search.png_count(), 0);
    assert_eq!(search.header_idx(), 0);
    assert_eq!(search.footer_idx(), 0);
    assert!(search.file_buffer().is_empty());
    assert_eq!(search.out_dir(), "somewhere");
}

#[test]
fn single_span_yields_one_artifact() {
    let input = sample();
    assert_eq!(input.len(), 22);
    let (search, found) = scan(&input);
    assert_eq!(found.len(), 1);
    assert_eq!(found[0].ordinal, 1);
    assert_eq!(found[0].name, "0001.png");
    assert_eq!(found[0].bytes, input);
    assert_eq!(search.png_count(), 1);
}

#[test]
fn two_spans_back_to_back_yield_two_artifacts() {
    let mut input = sample();
    input.extend_from_slice(&sample());
    let (search, found) = scan(&input);
    assert_eq!(found.len(), 2);
    assert_eq!(found[0].name, "0001.png");
    assert_eq!(found[1].name, "0002.png");
    assert_eq!(found[0].bytes, sample());
    assert_eq!(found[1].bytes, sample());
    assert_eq!(found[0].bytes.len(), 22);
    assert_eq!(found[1].bytes.len(), 22);
    assert_eq!(search.png_count(), 2);
}

#[test]
fn artifact_is_placed_under_the_output_directory() {
    let (search, found) = scan(&sample());
    assert_eq!(search.out_dir(), "out");
    assert_eq!(found.len(), 1);
    assert_eq!(found[0].dest, under_out("0001.png"));
    assert_ne!(found[0].dest, "out");
    assert_ne!(found[0].dest, found[0].name);
    assert!(found[0].dest.starts_with("out"));
    assert!(found[0].dest.ends_with("0001.png"));
    assert_eq!(found[0].dest.len(), "out".len() + 1 + "0001.png".len());
    if std::path::MAIN_SEPARATOR == '/' {
        assert_eq!(found[0].dest, "out/0001.png");
    }
}

#[test]
fn embedded_span_is_extracted_whole() {
    let picture = image(&[7, 7, 7, 0x49, 0x45, 9], [1, 2, 3, 4]);
    let mut input = vec![0x00, 0x10, 0x20, 0x44, 0x4E];
    input.extend_from_slice(&picture);
    input.extend_from_slice(&[0xFF, 0xFE, 0x00, 0x00]);
    let (search, found) = scan(&input);
    assert_eq!(found.len(), 1);
    assert_eq!(found[0].bytes, picture);
    assert_eq!(found[0].name, "0001.png");
    assert_eq!(search.png_count(), 1);
}

#[test]
fn separated_spans_are_named_in_encounter_order() {
    let first = image(&[1], [0xA0, 0xA1, 0xA2, 0xA3]);
    let second = image(&[], [0xB0, 0xB1, 0xB2, 0xB3]);
    let third = image(&[3, 3, 3, 3, 3], [0xC0, 0xC1, 0xC2, 0xC3]);
    let mut input = vec![0x55, 0x66];
    input.extend_from_slice(&first);
    input.extend_from_slice(&[0x00, 0x00, 0x00]);
    input.extend_from_slice(&second);
    input.extend_from_slice(&third);
    input.extend_from_slice(&[0x12, 0x34, 0x56]);
    let (search, found) = scan(&input);
    assert_eq!(found.len(), 3);
    assert_eq!(found[0].name, "0001.png");
    assert_eq!(found[1].name, "0002.png");
    assert_eq!(found[2].name, "0003.png");
    assert_eq!(found[0].ordinal, 1);
    assert_eq!(found[1].ordinal, 2);
    assert_eq!(found[2].ordinal, 3);
    assert_eq!(found[0].bytes, first);
    assert_eq!(found[1].bytes, second);
    assert_eq!(found[2].bytes, third);
    assert_eq!(found[1].dest, under_out("0002.png"));
    assert_eq!(search.png_count(), 3);
}

#[test]
fn header_without_footer_yields_nothing() {
    let mut input = vec![0x01, 0x02];
    input.extend_from_slice(&HEADER);
    input.extend_from_slice(&[0x10, 0x20, 0x30, 0x00, 0x00, 0x49, 0x45, 0x4E, 0x44, 0x01]);
    let (search, found) = scan(&input);
    assert!(found.is_empty());
    assert_eq!(search.png_count(), 0);
    assert_eq!(search.header_idx(), 8);
    assert_eq!(search.file_buffer(), &input[2..]);
}

#[test]
fn stream_ending_inside_the_checksum_yields_nothing() {
    let whole = sample();
    for cut in 0..whole.len() {
        let (search, found) = scan(&whole[..cut]);
        assert!(found.is_empty());
        assert_eq!(search.png_count(), 0);
        assert_eq!(search.file_buffer(), &whole[..cut]);
    }
    let (search, found) = scan(&whole[..21]);
    assert!(found.is_empty());
    assert_eq!(search.header_idx(), 8);
    assert_eq!(search.footer_idx(), 11);
}

#[test]
fn footer_before_any_header_changes_nothing() {
    let mut search = PngSearch::new(String::from("out"));
    let mut lead = FOOTER.to_vec();
    lead.extend_from_slice(&[0xAA, 0xBB, 0xCC, 0xDD]);
    for byte in lead.iter() {
        assert!(search.add_byte(*byte).is_none());
        assert_eq!(search.header_idx(), 0);
        assert_eq!(search.footer_idx(), 0);
        assert_eq!(search.png_count(), 0);
        assert!(search.file_buffer().is_empty());
    }
    let found = search.add_bytes(&sample());
    assert_eq!(found.len(), 1);
    assert_eq!(found[0].name, "0001.png");
    assert_eq!(found[0].bytes, sample());
}

#[test]
fn stream_without_first_header_byte_leaves_buffer_empty() {
    let mut search = PngSearch::new(String::from("out"));
    for value in 0..=255u8 {
        if value == 0x89 {
            continue;
        }
        for _ in 0..3 {
            assert!(search.add_byte(value).is_none());
            assert!(search.file_buffer().is_empty());
            assert_eq!(search.header_idx(), 0);
        }
    }
    assert_eq!(search.png_count(), 0);
}

#[test]
fn mismatch_discards_the_matched_header_bytes() {
    let mut search = PngSearch::new(String::from("out"));
    assert!(search.add_bytes(&[0x89, 0x50, 0x4E]).is_empty());
    assert_eq!(search.header_idx(), 3);
    assert_eq!(search.file_buffer(), &[0x89, 0x50, 0x4E]);
    assert!(search.add_byte(0x00).is_none());
    assert_eq!(search.header_idx(), 0);
    assert!(search.file_buffer().is_empty());
}

#[test]
fn mismatching_byte_does_not_start_a_new_header() {
    let mut input = vec![0x89];
    input.extend_from_slice(&sample());
    let (search, found) = scan(&input);
    assert!(found.is_empty());
    assert_eq!(search.png_count(), 0);
    assert_eq!(search.header_idx(), 0);

    let mut search = PngSearch::new(String::from("out"));
    assert!(search.add_bytes(&[0x89, 0x89]).is_empty());
    assert_eq!(search.header_idx(), 0);
    assert!(search.add_byte(0x89).is_none());
    assert_eq!(search.header_idx(), 1);
}

#[test]
fn header_inside_a_candidate_is_payload() {
    let mut content = vec![0x42];
    content.extend_from_slice(&HEADER);
    content.push(0x43);
    let picture = image(&content, [9, 8, 7, 6]);
    let (search, found) = scan(&picture);
    assert_eq!(found.len(), 1);
    assert_eq!(found[0].bytes, picture);
    assert_eq!(found[0].bytes.len(), 8 + 10 + 8 + 4);
    assert_eq!(search.png_count(), 1);
}

#[test]
fn broken_footer_is_payload() {
    let picture = image(&[0, 0, 0, 0, 0x49, 0x45, 0x4E, 0x45], [1, 1, 1, 1]);
    let (_, found) = scan(&picture);
    assert_eq!(found.len(), 1);
    assert_eq!(found[0].bytes, picture);
}

#[test]
fn footer_search_does_not_back_up() {
    let picture = image(&[0x07, 0x00], [1, 2, 3, 4]);
    let (search, found) = scan(&picture);
    assert!(found.is_empty());
    assert_eq!(search.header_idx(), 8);
    assert_eq!(search.footer_idx(), 0);
    assert_eq!(search.file_buffer(), &picture[..]);
}

#[test]
fn first_completed_footer_ends_the_image() {
    let mut content = FOOTER.to_vec();
    content.extend_from_slice(&[0x11, 0x22, 0x33, 0x44, 0x55]);
    let picture = image(&content, [1, 2, 3, 4]);
    let (search, found) = scan(&picture);
    assert_eq!(found.len(), 1);
    assert_eq!(found[0].bytes, &picture[..20]);
    assert_eq!(search.png_count(), 1);
    assert_eq!(search.header_idx(), 0);
}

#[test]
fn checksum_bytes_are_taken_whatever_they_are() {
    for checksum in [[0, 0, 0, 0], [0x89, 0x50, 0x4E, 0x47], [0x49, 0x45, 0x4E, 0x44]] {
        let picture = image(&[5, 6], checksum);
        let (search, found) = scan(&picture);
        assert_eq!(found.len(), 1);
        assert_eq!(found[0].bytes, picture);
        assert_eq!(search.header_idx(), 0);
        assert_eq!(search.footer_idx(), 0);
        assert!(search.file_buffer().is_empty());
    }
}

#[test]
fn add_byte_reports_the_image_on_its_last_byte() {
    let input = sample();
    let mut search = PngSearch::new(String::from("out"));
    for (at, byte) in input.iter().enumerate() {
        let event = search.add_byte(*byte);
        let seen = at + 1;
        if seen < 22 {
            assert!(event.is_none());
            assert_eq!(search.file_buffer(), &input[..seen]);
            assert_eq!(search.png_count(), 0);
        }
        if seen <= 8 {
            assert_eq!(search.header_idx(), seen);
            assert_eq!(search.footer_idx(), 0);
        } else if seen <= 10 {
            assert_eq!(search.header_idx(), 8);
            assert_eq!(search.footer_idx(), 0);
        } else if seen < 22 {
            assert_eq!(search.header_idx(), 8);
            assert_eq!(search.footer_idx(), seen - 10);
        } else {
            let artifact = event.unwrap();
            assert_eq!(artifact.ordinal, 1);
            assert_eq!(artifact.name, "0001.png");
            assert_eq!(artifact.dest, under_out("0001.png"));
            assert_eq!(artifact.bytes, input);
            assert_eq!(search.png_count(), 1);
            assert_eq!(search.header_idx(), 0);
            assert_eq!(search.footer_idx(), 0);
            assert!(search.file_buffer().is_empty());
        }
    }
}

#[test]
fn count_is_kept_across_calls() {
    let mut search = PngSearch::new(String::from("out"));
    let first = search.add_bytes(&sample());
    let none = search.add_bytes(&[1, 2, 3]);
    let second = search.add_bytes(&sample());
    assert_eq!(first.len(), 1);
    assert!(none.is_empty());
    assert_eq!(second.len(), 1);
    assert_eq!(second[0].ordinal, 2);
    assert_eq!(second[0].name, "0002.png");
    assert_eq!(search.png_count(), 2);
    assert_eq!(search.out_dir(), "out");
}

#[test]
fn image_split_over_two_calls_is_found() {
    let input = sample();
    let mut search = PngSearch::new(String::from("out"));
    assert!(search.add_bytes(&input[..13]).is_empty());
    let found = search.add_bytes(&input[13..]);
    assert_eq!(found.len(), 1);
    assert_eq!(found[0].bytes, input);
}

#[test]
fn every_image_is_delimited() {
    let mut input = Vec::new();
    for round in 0..40u8 {
        input.extend_from_slice(&[round, 0x89, 0x50, round]);
        input.extend_from_slice(&image(&[round | 1, 0x00, round | 1], [round, 0, 0, round]));
    }
    let (_, found) = scan(&input);
    assert_eq!(found.len(), 40);
    assert!(20 * found.len() <= input.len());
    for artifact in found.iter() {
        let n = artifact.bytes.len();
        assert!(n >= 20);
        assert_eq!(&artifact.bytes[..8], &HEADER);
        assert_eq!(&artifact.bytes[n - 12..n - 4], &FOOTER);
    }
}
