use agent_knowledge::uuid::{format_uuid, is_uuid_v4};
use agent_knowledge::ProjectId;

#[test]
fn random_bytes_become_a_version_4_id() {
    let id = ProjectId::from_random_bytes([0xff; 16]);
    assert_eq!(id.as_str(), "ffffffff-ffff-4fff-bfff-ffffffffffff");
    assert!(is_uuid_v4(id.as_str()));
    let id = ProjectId::from_random_bytes([0; 16]);
    assert_eq!(id.as_str(), "00000000-0000-4000-8000-000000000000");
    let bytes = [
        0x55, 0x0e, 0x84, 0x00, 0xe2, 0x9b, 0x01, 0xd4, 0x27, 0x16, 0x44, 0x66, 0x55, 0x44, 0x00,
        0x00,
    ];
    assert_eq!(
        ProjectId::from_random_bytes(bytes).as_str(),
        "550e8400-e29b-41d4-a716-446655440000"
    );
}

#[test]
fn bytes_are_written_as_lowercase_hex_groups() {
    let bytes: [u8; 16] = [0, 1, 2, 3, 4, 5, 6, 7, 8, 9, 10, 11, 12, 13, 14, 15];
    assert_eq!(format_uuid(&bytes), "00010203-0405-0607-0809-0a0b0c0d0e0f");
}

#[test]
fn only_canonical_version_4_text_is_an_id() {
    assert!(is_uuid_v4("550e8400-e29b-41d4-a716-446655440000"));
    assert!(is_uuid_v4("550e8400-e29b-41d4-b716-446655440000"));
    assert!(!is_uuid_v4("550e8400-e29b-31d4-a716-446655440000"));
    assert!(!is_uuid_v4("550e8400-e29b-41d4-c716-446655440000"));
    assert!(!is_uuid_v4("550E8400-e29b-41d4-a716-446655440000"));
    assert!(!is_uuid_v4("550e8400e29b-41d4-a716-4466554400000"));
    assert!(!is_uuid_v4("550e8400-e29b-41d4-a716-44665544000"));
    assert!(!is_uuid_v4("550e8400-e29b-41d4-a716-4466554400g0"));
    assert!(!is_uuid_v4("550e8400-e29b-41d4-a716-44665544000é"));
    assert!(ProjectId::parse("550e8400-e29b-41d4-a716-446655440000").is_ok());
    assert!(ProjectId::parse("not an id").is_err());
}

#[test]
fn an_id_clones_to_an_equal_id() {
    let id = ProjectId::parse("550e8400-e29b-41d4-a716-446655440000").unwrap();
    let copy = id.clone();
    assert_eq!(copy, id);
    assert_ne!(ProjectId::from_random_bytes([1; 16]), id);
}

fn read_back(text: &str) -> Vec<u8> {
    let digits: Vec<u8> = text
        .chars()
        .filter(|c| *c != '-')
        .map(|c| c.to_digit(16).unwrap() as u8)
        .collect();
    digits.chunks(2).map(|pair| pair[0] * 16 + pair[1]).collect()
}

#[test]
fn uuid_text_reads_back_to_its_bytes() {
    let samples: [[u8; 16]; 3] = [
        [0, 1, 2, 3, 4, 5, 6, 7, 8, 9, 10, 11, 12, 13, 14, 15],
        [0xff, 0x80, 0x7f, 0x10, 0x0f, 0xa5, 0x5a, 0xc3, 0x3c, 0x01, 0xfe, 0x99, 0x66, 0x42, 0x24, 0xee],
        [0xab; 16],
    ];
    for bytes in samples.iter() {
        let text = format_uuid(bytes);
        assert_eq!(text.len(), 36);
        for (i, c) in text.chars().enumerate() {
            if i == 8 || i == 13 || i == 18 || i == 23 {
                assert_eq!(c, '-');
            } else {
                assert!(c.is_ascii_digit() || ('a'..='f').contains(&c));
            }
        }
        assert_eq!(read_back(&text), bytes.to_vec());
    }
    assert_ne!(format_uuid(&samples[0]), format_uuid(&samples[1]));
}

#[test]
fn already_stamped_bytes_format_as_a_version_4_id() {
    let bytes: [u8; 16] = [
        0x12, 0x34, 0x56, 0x78, 0x9a, 0xbc, 0x4d, 0xef, 0x9f, 0xed, 0xcb, 0xa9, 0x87, 0x65, 0x43,
        0x21,
    ];
    let text = format_uuid(&bytes);
    assert_eq!(text, "12345678-9abc-4def-9fed-cba987654321");
    assert!(is_uuid_v4(&text));
}
