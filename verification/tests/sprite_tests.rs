use sbrx::sprite::{Frame, Spritesheet, FRAME_BYTE_COUNT};

fn filled_frame(value: u8) -> Frame {
    let mut frame = Frame::new();
    for section in frame.sections.iter_mut() {
        for byte in section.bytes.iter_mut() {
            *byte = value;
        }
    }
    frame
}

fn patterned_frame() -> Frame {
    let mut frame = Frame::new();
    for (s, section) in frame.sections.iter_mut().enumerate() {
        for (p, byte) in section.bytes.iter_mut().enumerate() {
            *byte = ((s * 7 + p * 3) % 16) as u8;
        }
    }
    frame
}

fn frames_equal(a: &Frame, b: &Frame) -> bool {
    for s in 0..36 {
        for p in 0..64 {
            if a.sections[s].bytes[p] != b.sections[s].bytes[p] {
                return false;
            }
        }
    }
    true
}

#[test]
fn all_threes_frame_encodes_to_all_0x33() {
    let frame = filled_frame(3);
    let bytes = frame.encode();
    assert_eq!(bytes.len(), 1152);
    assert!(bytes.iter().all(|&b| b == 0x33));
    let decoded = Frame::decode(&bytes);
    assert!(frames_equal(&frame, &decoded));
}

#[test]
fn encode_then_decode_is_identity() {
    let frame = patterned_frame();
    let bytes = frame.encode();
    let decoded = Frame::decode(&bytes);
    assert!(frames_equal(&frame, &decoded));
}

#[test]
fn nibbles_are_packed_low_first() {
    let mut frame = Frame::new();
    // stream position 0 is grid section 0; its first two pixels share byte 0
    frame.sections[0].set(0, 0, 0xA);
    frame.sections[0].set(0, 1, 0x5);
    assert_eq!(frame.sections[0].get(0, 0), 0xA);
    assert_eq!(frame.sections[0].get(0, 1), 0x5);
    let bytes = frame.encode();
    assert_eq!(bytes[0], 0x5A);
}

#[test]
fn decode_applies_the_section_permutation() {
    // the fixed stream-order -> grid-index table of the sprite format
    let mapping: [usize; 36] = [
        0, 1, 2, 3, 6, 7, 8, 9, 12, 13, 14, 15, 18, 19, 20, 21, 24, 25, 26, 27, 30, 31, 32, 33,
        4, 5, 10, 11, 16, 17, 22, 23, 28, 29, 34, 35,
    ];
    let mut bytes = vec![0u8; FRAME_BYTE_COUNT];
    for (j, byte) in bytes.iter_mut().enumerate() {
        let v = ((j / 32) % 16) as u8;
        *byte = v | (v << 4);
    }
    let frame = Frame::decode(&bytes);
    for (k, &dest) in mapping.iter().enumerate() {
        let expected = (k % 16) as u8;
        for p in 0..64 {
            assert_eq!(frame.sections[dest].bytes[p], expected);
        }
    }
}

#[test]
fn sheet_to_bytes_concatenates_frames_in_order() {
    let mut sheet = Spritesheet::new();
    let mut first = sbrx::sprite::Animation::new();
    first.frames.push(filled_frame(1));
    let mut second = sbrx::sprite::Animation::new();
    second.frames.push(filled_frame(2));
    second.frames.push(filled_frame(3));
    sheet.animations.push(first);
    sheet.animations.push(second);
    let bytes = sheet.to_bytes();
    assert_eq!(bytes.len(), 3 * 1152);
    assert!(bytes[..1152].iter().all(|&b| b == 0x11));
    assert!(bytes[1152..2304].iter().all(|&b| b == 0x22));
    assert!(bytes[2304..].iter().all(|&b| b == 0x33));
}

#[test]
fn from_frame_buffers_groups_by_frame_counts() {
    let buffers = vec![
        filled_frame(4).encode(),
        filled_frame(5).encode(),
        filled_frame(6).encode(),
    ];
    let counts = vec![2i32, 1i32];
    let sheet = Spritesheet::from_frame_buffers(&buffers, &counts);
    assert_eq!(sheet.animations.len(), 2);
    assert_eq!(sheet.animations[0].frames.len(), 2);
    assert_eq!(sheet.animations[1].frames.len(), 1);
    assert!(frames_equal(&sheet.animations[0].frames[0], &filled_frame(4)));
    assert!(frames_equal(&sheet.animations[0].frames[1], &filled_frame(5)));
    assert!(frames_equal(&sheet.animations[1].frames[0], &filled_frame(6)));
}

#[test]
fn empty_sheet_encodes_to_no_bytes() {
    let sheet = Spritesheet::new();
    assert_eq!(sheet.to_bytes().len(), 0);
    let rebuilt = Spritesheet::from_frame_buffers(&vec![], &vec![]);
    assert_eq!(rebuilt.animations.len(), 0);
}
