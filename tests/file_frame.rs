//! The saved-file frame on given fields and bytes.

use aabb::frame::{decode_frame, encode_frame, FrameError, SavedParts};

fn parts() -> SavedParts {
    SavedParts {
        node_size: 16,
        num_items: 3,
        total_nodes: 4,
        level_bounds: vec![3, 4],
        bounds: (0u8..32).collect(),
        data: vec![9, 8, 7, 6, 5],
    }
}

#[test]
fn frame_round_trip() {
    let bytes = encode_frame(0x01, &parts());
    assert_eq!(bytes.len(), 22 + 4 * 2 + 32 + 5);
    assert_eq!(&bytes[0..6], &[0xFB, 0x01, 16, 0, 0, 0]);
    assert_eq!(&bytes[18..26], &[3, 0, 0, 0, 4, 0, 0, 0]);
    let back = decode_frame(&bytes, 0x01, 32).unwrap();
    assert_eq!(back.node_size, 16);
    assert_eq!(back.num_items, 3);
    assert_eq!(back.total_nodes, 4);
    assert_eq!(back.level_bounds, vec![3, 4]);
    assert_eq!(back.bounds, (0u8..32).collect::<Vec<u8>>());
    assert_eq!(back.data, vec![9, 8, 7, 6, 5]);
}

#[test]
fn frame_ignores_trailing_bytes() {
    let mut bytes = encode_frame(0x01, &parts());
    bytes.extend_from_slice(&[1, 2, 3]);
    let back = decode_frame(&bytes, 0x01, 32).unwrap();
    assert_eq!(back.data, vec![9, 8, 7, 6, 5]);
}

#[test]
fn frame_rejects_wrong_magic_or_version() {
    let bytes = encode_frame(0x01, &parts());
    assert_eq!(decode_frame(&bytes, 0x02, 32).err(), Some(FrameError::InvalidData));
    let mut bad = bytes.clone();
    bad[0] = 0x00;
    assert_eq!(decode_frame(&bad, 0x01, 32).err(), Some(FrameError::InvalidData));
    assert_eq!(decode_frame(&vec![0x00], 0x01, 32).err(), Some(FrameError::InvalidData));
}

#[test]
fn frame_reports_short_input() {
    let bytes = encode_frame(0x01, &parts());
    assert_eq!(decode_frame(&vec![], 0x01, 32).err(), Some(FrameError::Truncated));
    assert_eq!(decode_frame(&bytes[..17].to_vec(), 0x01, 32).err(), Some(FrameError::Truncated));
    assert_eq!(decode_frame(&bytes[..bytes.len() - 1].to_vec(), 0x01, 32).err(), Some(FrameError::Truncated));
    let mut huge_count = bytes.clone();
    huge_count[17] = 0x7F;
    assert_eq!(decode_frame(&huge_count, 0x01, 32).err(), Some(FrameError::Truncated));
}
