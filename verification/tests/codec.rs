use font_gen::id::Id;
use font_gen::font::Font;
use font_gen::util::{char_map, CodecError, DekuRW};

#[test]
fn id_is_eight_big_endian_bytes() {
    let id: Id<Font> = Id::new(0x0102_0304_0506_0708);
    assert_eq!(id.to_bytes(), vec![1u8, 2, 3, 4, 5, 6, 7, 8]);
    let back: Id<Font> = Id::read(&[1, 2, 3, 4, 5, 6, 7, 8]).unwrap();
    assert_eq!(back.get_inner(), 0x0102_0304_0506_0708);
}

#[test]
fn char_map_rejects_surrogates() {
    assert_eq!(char_map(0xD7FF), Ok('\u{D7FF}'));
    assert_eq!(char_map(0xD800), Err(CodecError::InvalidCharacter));
    assert_eq!(char_map(0xDFFF), Err(CodecError::InvalidCharacter));
    assert_eq!(char_map(0xE000), Ok('\u{E000}'));
    assert_eq!(char_map(0x10FFFF), Ok('\u{10FFFF}'));
    assert_eq!(char_map(0x110000), Err(CodecError::InvalidCharacter));
    assert_eq!(char_map(0), Ok('\u{0}'));
}
