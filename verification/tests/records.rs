use font_gen::active_test::ActiveTest;
use font_gen::font::{is_slower, Font, Score, Version, VersionGlyph, VersionGlyphKey};
use font_gen::glyph::Glyph;
use font_gen::id::Id;
use font_gen::test_session::TestSession;
use font_gen::user::User;
use font_gen::util::{char_write, is_null, CodecError, DekuRW};

#[test]
fn a_font_is_two_versions_then_its_candidates() {
    let font = Font {
        first_version: Id::new(1),
        current_version: Id::new(0x0102),
        candidates: vec![Id::new(7), Id::new(u64::MAX)],
    };
    let bytes = font.to_bytes();
    assert_eq!(
        bytes,
        vec![
            0, 0, 0, 0, 0, 0, 0, 1, 0, 0, 0, 0, 0, 0, 1, 2, 0, 0, 0, 0, 0, 0, 0, 7, 255, 255, 255,
            255, 255, 255, 255, 255
        ]
    );
    let back = Font::read(&bytes).unwrap();
    assert_eq!(back.first_version.get_inner(), 1);
    assert_eq!(back.current_version.get_inner(), 0x0102);
    let candidates: Vec<u64> = back.candidates.iter().map(|id| id.get_inner()).collect();
    assert_eq!(candidates, vec![7, u64::MAX]);
}

#[test]
fn a_font_without_candidates_is_sixteen_bytes() {
    let font = Font { first_version: Id::new(3), current_version: Id::new(4), candidates: vec![] };
    let bytes = font.to_bytes();
    assert_eq!(bytes.len(), 16);
    let back = Font::read(&bytes).unwrap();
    assert!(back.candidates.is_empty());
    assert_eq!(back.current_version.get_inner(), 4);
}

#[test]
fn a_font_with_half_a_candidate_is_rejected() {
    assert_eq!(Font::read(&[0; 15]).err(), Some(CodecError::Incomplete));
    assert_eq!(Font::read(&[0; 17]).err(), Some(CodecError::Incomplete));
    assert_eq!(Font::read(&[0; 23]).err(), Some(CodecError::Incomplete));
    assert!(Font::read(&[0; 24]).is_ok());
}

#[test]
fn a_version_is_the_next_identifier() {
    let version = Version::new(Id::new(0x0A0B_0C0D_0E0F_1011));
    assert_eq!(version.to_bytes(), vec![0x0A, 0x0B, 0x0C, 0x0D, 0x0E, 0x0F, 0x10, 0x11]);
    let back = Version::read(&version.to_bytes()).unwrap();
    assert_eq!(back.next_version().get_inner(), 0x0A0B_0C0D_0E0F_1011);
    assert_eq!(Version::read(&[0; 7]).err(), Some(CodecError::Incomplete));
    assert_eq!(Version::read(&[0, 0, 0, 0, 0, 0, 0, 9, 1, 2]).unwrap().next_version().get_inner(), 9);
}

#[test]
fn a_key_is_the_version_then_the_code_point() {
    let key = VersionGlyphKey { font_version: Id::new(2), char: '\u{1F600}' };
    assert_eq!(key.to_bytes(), vec![0, 0, 0, 0, 0, 0, 0, 2, 0, 1, 0xF6, 0]);
    let back = VersionGlyphKey::read(&key.to_bytes()).unwrap();
    assert_eq!(back.font_version.get_inner(), 2);
    assert_eq!(back.char, '\u{1F600}');
    assert_eq!(VersionGlyphKey::read(&[0; 11]).err(), Some(CodecError::Incomplete));
    assert_eq!(
        VersionGlyphKey::read(&[0, 0, 0, 0, 0, 0, 0, 2, 0, 0, 0xDF, 0xFF]).err(),
        Some(CodecError::InvalidCharacter)
    );
    assert_eq!(
        VersionGlyphKey::read(&[0, 0, 0, 0, 0, 0, 0, 2, 0, 0, 0xD7, 0xFF]).unwrap().char,
        '\u{D7FF}'
    );
}

#[test]
fn keys_of_a_version_sort_by_character() {
    let mut keys: Vec<Vec<u8>> = Vec::new();
    for (version, c) in [(2u64, 'a'), (1, '\u{10FFFF}'), (1, 'b'), (1, 'A'), (1, '\u{0}'), (256, 'a')] {
        keys.push(VersionGlyphKey { font_version: Id::new(version), char: c }.to_bytes());
    }
    keys.sort();
    let read: Vec<(u64, char)> = keys
        .iter()
        .map(|bytes| VersionGlyphKey::read(bytes).unwrap())
        .map(|key| (key.font_version.get_inner(), key.char))
        .collect();
    assert_eq!(
        read,
        vec![(1, '\u{0}'), (1, 'A'), (1, 'b'), (1, '\u{10FFFF}'), (2, 'a'), (256, 'a')]
    );
    let prefix: Id<Version> = Id::new(1);
    let prefix = prefix.to_bytes();
    let with_prefix = keys.iter().filter(|key| key.starts_with(&prefix)).count();
    assert_eq!(with_prefix, 4);
}

#[test]
fn a_version_glyph_ends_after_the_glyph_without_a_score() {
    let entry = VersionGlyph { glyph: Id::new(5), score: None };
    assert_eq!(entry.to_bytes(), vec![0, 0, 0, 0, 0, 0, 0, 5]);
    let back = VersionGlyph::read(&entry.to_bytes()).unwrap();
    assert_eq!(back.glyph.get_inner(), 5);
    assert!(back.score.is_none());
}

#[test]
fn a_version_glyph_carries_its_score() {
    let user: Id<User> = Id::new(9);
    let entry = VersionGlyph { glyph: Id::new(5), score: Some(Score { time: 1.5f64.to_bits(), user }) };
    let bytes = entry.to_bytes();
    assert_eq!(
        bytes,
        vec![0, 0, 0, 0, 0, 0, 0, 5, 0x3F, 0xF8, 0, 0, 0, 0, 0, 0, 0, 0, 0, 0, 0, 0, 0, 9]
    );
    let back = VersionGlyph::read(&bytes).unwrap();
    let score = back.score.unwrap();
    assert_eq!(f64::from_bits(score.time), 1.5);
    assert_eq!(score.user.get_inner(), 9);
    assert_eq!(VersionGlyph::read(&bytes[..23]).err(), Some(CodecError::Incomplete));
    assert_eq!(VersionGlyph::read(&bytes[..9]).err(), Some(CodecError::Incomplete));
    assert_eq!(VersionGlyph::read(&bytes[..7]).err(), Some(CodecError::Incomplete));
}

#[test]
fn an_active_test_is_the_font_then_the_glyph() {
    let test = ActiveTest { font: Id::new(1), glyph: Id::new(2) };
    assert_eq!(test.to_bytes(), vec![0, 0, 0, 0, 0, 0, 0, 1, 0, 0, 0, 0, 0, 0, 0, 2]);
    let back = ActiveTest::read(&test.to_bytes()).unwrap();
    assert_eq!(back.font.get_inner(), 1);
    assert_eq!(back.glyph.get_inner(), 2);
    assert_eq!(ActiveTest::read(&[0; 15]).err(), Some(CodecError::Incomplete));
    let session = TestSession { font: Id::new(1), glyph: Id::new(2) };
    assert_eq!(session.to_bytes(), test.to_bytes());
    let session = TestSession::read(&test.to_bytes()).unwrap();
    assert_eq!(session.font.get_inner(), 1);
    assert_eq!(session.glyph.get_inner(), 2);
    assert_eq!(TestSession::read(&[0; 15]).err(), Some(CodecError::Incomplete));
}

#[test]
fn a_user_is_the_hash_then_the_name() {
    let hash: Vec<u8> = (1..=16).collect();
    let user = User::new(hash.clone(), b"Anna".to_vec()).unwrap();
    let bytes = user.to_bytes();
    assert_eq!(bytes.len(), 20);
    assert_eq!(&bytes[..16], &hash[..]);
    assert_eq!(&bytes[16..], b"Anna");
    let back = User::read(&bytes).unwrap();
    assert_eq!(back.password_hash(), &hash);
    assert_eq!(back.name(), &b"Anna".to_vec());
    assert!(User::new(vec![0; 15], vec![]).is_none());
    assert!(User::new(vec![0; 17], vec![]).is_none());
    assert_eq!(User::read(&[0; 15]).err(), Some(CodecError::Incomplete));
    assert!(User::read(&[0; 16]).unwrap().name().is_empty());
}

#[test]
fn identifiers_compare_by_their_numbers() {
    let a: Id<Glyph> = Id::new(1);
    let b: Id<Glyph> = Id::new(2);
    assert!(a == a.clone());
    assert!(a != b);
    assert!(a < b);
    assert!(b > a);
    assert!(a <= a);
    assert_eq!(a.partial_cmp(&b), Some(std::cmp::Ordering::Less));
    assert_eq!(b.partial_cmp(&b), Some(std::cmp::Ordering::Equal));
}

#[test]
fn glyphs_compare_by_what_they_hold() {
    let a = Glyph::new('a');
    let mut other = Glyph::new('a');
    assert_eq!(a, other);
    assert_eq!(a, a.clone());
    assert_ne!(a, Glyph::new('b'));
    other.add_point(0);
    assert_ne!(a, other);
    let back = Glyph::read(&other.to_bytes()).unwrap();
    assert_eq!(back, other);
}

#[test]
fn characters_are_written_as_code_points() {
    let mut out = vec![9u8];
    char_write(&mut out, &'a');
    char_write(&mut out, &'\u{10FFFF}');
    assert_eq!(out, vec![9, 0, 0, 0, 0x61, 0, 0x10, 0xFF, 0xFF]);
    assert!(is_null(&0));
    assert!(!is_null(&1));
}

#[test]
fn times_compare_as_numbers_do() {
    let times = [
        0.0f64,
        -0.0,
        1.0,
        -1.0,
        5.0,
        7.0,
        3.0,
        1.2,
        f64::MIN_POSITIVE,
        -f64::MIN_POSITIVE,
        f64::MAX,
        f64::MIN,
        f64::INFINITY,
        f64::NEG_INFINITY,
        f64::NAN,
        -f64::NAN,
        f64::from_bits(0x7FF0_0000_0000_0001),
        f64::from_bits(1),
        f64::from_bits(0x8000_0000_0000_0001),
    ];
    for a in times {
        for b in times {
            assert_eq!(is_slower(a.to_bits(), b.to_bits()), a > b, "{} > {}", a, b);
        }
    }
}
