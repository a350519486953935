use sbrx::data::{compute_sprite_offsets, Character};
use sbrx::error::CodecError;
use sbrx::manager::SpriteManager;
use sbrx::sprite::{Animation, Frame, Spritesheet};

fn character(name: &str, sprite_offset: i32, frames: Vec<i32>) -> Character {
    Character {
        name: String::from(name),
        palette_offset: 0x47AFB8,
        text_offsets: (0x1DB3FC, 0x1E1467),
        sprite_offset,
        sprite_frames: frames,
    }
}

#[test]
fn sprite_offsets_advance_by_0x480_per_frame() {
    let c = character("Sonic", 0x47AFD8, vec![8, 4, 8]);
    let offsets = compute_sprite_offsets(&c);
    assert_eq!(
        offsets,
        vec![
            (0x47AFD8, 8),
            (0x47AFD8 + 0x480 * 8, 4),
            (0x47AFD8 + 0x480 * 12, 8),
        ]
    );
}

#[test]
fn sprite_offsets_of_empty_character_are_empty() {
    let c = character("Eggman", 0x7822F8, vec![]);
    assert_eq!(compute_sprite_offsets(&c), vec![]);
}

#[test]
fn sprite_manager_stores_and_loads_by_name() {
    let mut manager = SpriteManager::new();
    let mut sheet = Spritesheet::new();
    let mut animation = Animation::new();
    let mut frame = Frame::new();
    frame.sections[0].bytes[0] = 9;
    animation.frames.push(frame);
    sheet.animations.push(animation);
    manager.store_spritesheet(String::from("Sonic"), sheet);
    let loaded = manager.load_spritesheet(&character("Sonic", 0, vec![1])).unwrap();
    assert_eq!(loaded.animations.len(), 1);
    assert_eq!(loaded.animations[0].frames[0].sections[0].bytes[0], 9);
}

#[test]
fn loading_a_missing_spritesheet_reports_not_found() {
    let manager = SpriteManager::new();
    let result = manager.load_spritesheet(&character("Chaos", 0, vec![1]));
    assert!(matches!(result, Err(CodecError::SpritesheetNotFound)));
}

#[test]
fn zero_frame_animations_share_their_offset() {
    let c = character("Chaos", 0x2000, vec![0, 0, 4]);
    assert_eq!(
        compute_sprite_offsets(&c),
        vec![(0x2000, 0), (0x2000, 0), (0x2000, 4)]
    );
}
