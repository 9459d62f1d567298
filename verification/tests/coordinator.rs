use font_gen::database::Database;
use font_gen::font::{Font, Version, VersionGlyph, VersionGlyphKey};
use font_gen::glyph::Glyph;
use font_gen::id::Id;
use font_gen::state::State;
use font_gen::user::User;

fn turn(angle: u32) -> u32 {
    (f32::from_bits(angle) + 0.001).to_bits()
}

fn fixture() -> State {
    State::with_database(Database::temporary().unwrap()).unwrap()
}

fn seconds(entry: &VersionGlyph) -> Option<f64> {
    entry.score.map(|score| f64::from_bits(score.time))
}

#[test]
fn add_font_stores_a_version_and_candidates() {
    let mut f = fixture();
    let font_id = f.add_font(vec![Glyph::new('a'), Glyph::new('b')], &turn).unwrap();
    let font = f.fonts.get(font_id).unwrap().unwrap();
    assert_eq!(font.candidates.len(), 2);
    assert_eq!(font.first_version.get_inner(), font.current_version.get_inner());
    let entries = f.font_version_glyphs.scan_prefix(font.current_version).unwrap();
    assert_eq!(entries.len(), 2);
    assert_eq!(entries[0].0.char, 'a');
    assert_eq!(entries[1].0.char, 'b');
    assert!(entries[0].1.score.is_none());
    assert!(entries[1].1.score.is_none());
    let mut chars: Vec<char> =
        font.candidates.iter().map(|id| f.glyphs.get(*id).unwrap().unwrap().char).collect();
    chars.sort();
    assert_eq!(chars, vec!['a', 'b']);
    for id in font.candidates.iter() {
        assert_ne!(id.get_inner(), entries[0].1.glyph.get_inner());
        assert_ne!(id.get_inner(), entries[1].1.glyph.get_inner());
    }
    assert!(f.font_versions.get(font.current_version).unwrap().is_some());
}

#[test]
fn add_next_test_shows_the_first_candidate_again() {
    let mut f = fixture();
    let font_id = f.add_font(vec![Glyph::new('a'), Glyph::new('b')], &turn).unwrap();
    let font = f.fonts.get(font_id).unwrap().unwrap();
    let user: Id<User> = Id::new(1);
    assert!(f.get_test_glyph(user).unwrap().is_none());
    f.add_next_test(font_id, user, &turn).unwrap();
    let first = f.glyphs.get(font.candidates[0]).unwrap().unwrap();
    let shown = f.get_test_glyph(user).unwrap().unwrap();
    assert_eq!(shown.char, first.char);
    f.add_next_test(font_id, user, &turn).unwrap();
    let again = f.get_test_glyph(user).unwrap().unwrap();
    assert_eq!(again.char, first.char);
    let after = f.fonts.get(font_id).unwrap().unwrap();
    assert_eq!(after.candidates.len(), 2);
}

#[test]
fn add_next_test_without_the_font_is_not_found() {
    let mut f = fixture();
    let missing: Id<Font> = Id::new(123_456);
    let error = f.add_next_test(missing, Id::new(1), &turn).unwrap_err();
    assert_eq!(error.kind(), font_gen::error::ErrorKind::NotFound);
    assert_eq!(
        error.message(),
        "Could not find a value of type \"font_gen::font::Font\" in the database."
    );
}

#[test]
fn submit_time_without_a_test_changes_nothing() {
    let mut f = fixture();
    let font_id = f.add_font(vec![Glyph::new('a')], &turn).unwrap();
    let font = f.fonts.get(font_id).unwrap().unwrap();
    f.submit_time(Id::new(5), 1.0f64.to_bits()).unwrap();
    let entries = f.font_version_glyphs.scan_prefix(font.current_version).unwrap();
    assert_eq!(entries.len(), 1);
    assert!(entries[0].1.score.is_none());
}

fn stored_time(f: &mut State, font_id: Id<Font>, times: &[f64]) -> Option<f64> {
    let user: Id<User> = Id::new(1);
    for time in times {
        f.add_next_test(font_id, user, &turn).unwrap();
        f.submit_time(user, time.to_bits()).unwrap();
        assert!(f.get_test_glyph(user).unwrap().is_none());
    }
    let font = f.fonts.get(font_id).unwrap().unwrap();
    let shown = f.glyphs.get(font.candidates[0]).unwrap().unwrap().char;
    let key = VersionGlyphKey { font_version: font.current_version, char: shown };
    let entry = f.font_version_glyphs.get(key).unwrap().unwrap();
    seconds(&entry)
}

#[test]
fn a_slower_time_is_discarded() {
    let mut f = fixture();
    let font_id = f.add_font(vec![Glyph::new('a')], &turn).unwrap();
    assert_eq!(stored_time(&mut f, font_id, &[5.0, 7.0]), Some(5.0));
}

#[test]
fn an_equal_time_stays() {
    let mut f = fixture();
    let font_id = f.add_font(vec![Glyph::new('a')], &turn).unwrap();
    assert_eq!(stored_time(&mut f, font_id, &[5.0, 5.0]), Some(5.0));
}

#[test]
fn a_faster_time_replaces() {
    let mut f = fixture();
    let font_id = f.add_font(vec![Glyph::new('a')], &turn).unwrap();
    assert_eq!(stored_time(&mut f, font_id, &[5.0, 3.0]), Some(3.0));
}

#[test]
fn an_equal_time_goes_to_the_new_user() {
    let mut f = fixture();
    let font_id = f.add_font(vec![Glyph::new('a')], &turn).unwrap();
    let first: Id<User> = Id::new(1);
    let second: Id<User> = Id::new(2);
    f.add_next_test(font_id, first, &turn).unwrap();
    f.add_next_test(font_id, second, &turn).unwrap();
    f.submit_time(first, 5.0f64.to_bits()).unwrap();
    f.submit_time(second, 5.0f64.to_bits()).unwrap();
    let font = f.fonts.get(font_id).unwrap().unwrap();
    let key = VersionGlyphKey { font_version: font.current_version, char: 'a' };
    let entry = f.font_version_glyphs.get(key).unwrap().unwrap();
    assert_eq!(entry.score.unwrap().user.get_inner(), 2);
}

#[test]
fn an_exhausted_font_goes_to_its_next_generation() {
    let mut f = fixture();
    let font_id = f.add_font(vec![Glyph::new('a'), Glyph::new('b')], &turn).unwrap();
    let user: Id<User> = Id::new(1);
    let font = f.fonts.get(font_id).unwrap().unwrap();
    let v1 = font.current_version;
    f.add_next_test(font_id, user, &turn).unwrap();
    let shown = f.get_test_glyph(user).unwrap().unwrap().char;
    f.submit_time(user, 1.2f64.to_bits()).unwrap();
    let scored = f.font_version_glyphs.get(VersionGlyphKey { font_version: v1, char: shown }).unwrap().unwrap();
    assert_eq!(seconds(&scored), Some(1.2));
    let other = if shown == 'a' { 'b' } else { 'a' };
    let other_key = VersionGlyphKey { font_version: v1, char: other };
    let other_glyph = f.font_version_glyphs.get(other_key).unwrap().unwrap().glyph;
    f.font_version_glyphs
        .insert_with_key(
            other_key,
            &VersionGlyph {
                glyph: other_glyph,
                score: Some(font_gen::font::Score { time: 2.5f64.to_bits(), user }),
            },
        )
        .unwrap();
    let before = f.font_version_glyphs.scan_prefix(v1).unwrap();
    let exhausted = Font { first_version: font.first_version, current_version: v1, candidates: vec![] };
    f.fonts.insert_with_key(font_id, &exhausted).unwrap();
    let next = f.font_versions.get(v1).unwrap().unwrap().next_version();
    f.add_next_test(font_id, user, &turn).unwrap();
    let advanced = f.fonts.get(font_id).unwrap().unwrap();
    assert_eq!(advanced.first_version.get_inner(), v1.get_inner());
    assert_eq!(advanced.current_version.get_inner(), next.get_inner());
    assert_ne!(next.get_inner(), v1.get_inner());
    assert_eq!(advanced.candidates.len(), 2);
    assert!(f.font_versions.get(next).unwrap().is_some());
    let after = f.font_version_glyphs.scan_prefix(next).unwrap();
    assert_eq!(after.len(), 2);
    for i in 0..2 {
        assert_eq!(after[i].0.char, before[i].0.char);
        assert_eq!(after[i].0.font_version.get_inner(), next.get_inner());
        assert_eq!(after[i].1.glyph.get_inner(), before[i].1.glyph.get_inner());
        assert_eq!(seconds(&after[i].1), seconds(&before[i].1));
        assert!(after[i].1.score.is_some());
    }
    let unchanged = f.font_version_glyphs.scan_prefix(v1).unwrap();
    assert_eq!(unchanged.len(), 2);
    for candidate in advanced.candidates.iter() {
        for entry in after.iter() {
            assert_ne!(candidate.get_inner(), entry.1.glyph.get_inner());
        }
        for old in font.candidates.iter() {
            assert_ne!(candidate.get_inner(), old.get_inner());
        }
    }
    let shown = f.get_test_glyph(user).unwrap().unwrap();
    let first = f.glyphs.get(advanced.candidates[0]).unwrap().unwrap();
    assert_eq!(shown.char, first.char);
}

#[test]
fn a_record_that_is_no_font_is_a_codec_failure() {
    let mut db = Database::temporary().unwrap();
    let mut broken: font_gen::database::Tree<Version, Id<Font>> = db.tree(b"fonts").unwrap();
    let font_id: Id<Font> = Id::new(77);
    broken.insert_with_key(font_id, &Version::new(Id::new(1))).unwrap();
    let mut state = State {
        active_tests: db.tree(b"test_sessions").unwrap(),
        font_version_glyphs: db.tree(b"scores").unwrap(),
        font_versions: db.tree(b"font_versions").unwrap(),
        fonts: broken.retyped(),
        glyphs: db.tree(b"glyphs").unwrap(),
        db,
    };
    let error = state.add_next_test(font_id, Id::new(1), &turn).unwrap_err();
    assert_eq!(error.kind(), font_gen::error::ErrorKind::Codec);
    assert_eq!(error.message(), "Could not deserialize/serialize data: not enough data");
    assert!(state.get_test_glyph(Id::new(1)).unwrap().is_none());
}

#[test]
fn a_time_for_a_test_without_its_font_is_not_found_and_ends_the_test() {
    let mut state = fixture();
    let glyph = state.glyphs.insert(&mut state.db, &Glyph::new('a')).unwrap();
    let user: Id<User> = Id::new(4);
    state
        .active_tests
        .insert_with_key(user, &font_gen::active_test::ActiveTest { font: Id::new(999), glyph })
        .unwrap();
    assert_eq!(state.get_test_glyph(user).unwrap().unwrap().char, 'a');
    let error = state.submit_time(user, 1.0f64.to_bits()).unwrap_err();
    assert_eq!(error.kind(), font_gen::error::ErrorKind::NotFound);
    assert_eq!(
        error.message(),
        "Could not find a value of type \"font_gen::font::Font\" in the database."
    );
    assert!(state.active_tests.get(user).unwrap().is_none());
    assert!(state.get_test_glyph(user).unwrap().is_none());
}

#[test]
fn a_test_whose_glyph_is_gone_is_not_found() {
    let mut state = fixture();
    let user: Id<User> = Id::new(4);
    state
        .active_tests
        .insert_with_key(
            user,
            &font_gen::active_test::ActiveTest { font: Id::new(1), glyph: Id::new(2) },
        )
        .unwrap();
    let error = state.get_test_glyph(user).err().unwrap();
    assert_eq!(error.kind(), font_gen::error::ErrorKind::NotFound);
    assert_eq!(
        error.message(),
        "Could not find a value of type \"font_gen::glyph::Glyph\" in the database."
    );
    assert!(state.get_test_glyph(Id::new(5)).unwrap().is_none());
}

#[test]
fn a_generation_without_its_version_is_not_found() {
    let mut f = fixture();
    let exhausted =
        Font { first_version: Id::new(500), current_version: Id::new(500), candidates: vec![] };
    let font_id = f.fonts.insert(&mut f.db, &exhausted).unwrap();
    let error = f.add_next_test(font_id, Id::new(1), &turn).unwrap_err();
    assert_eq!(error.kind(), font_gen::error::ErrorKind::NotFound);
    assert_eq!(
        error.message(),
        "Could not find a value of type \"font_gen::font::Version\" in the database."
    );
}

#[test]
fn a_generation_with_a_missing_glyph_is_not_found() {
    let mut f = fixture();
    let version: Id<Version> = Id::new(600);
    f.font_versions.insert_with_key(version, &Version::new(Id::new(601))).unwrap();
    f.font_version_glyphs
        .insert_with_key(
            VersionGlyphKey { font_version: version, char: 'a' },
            &VersionGlyph { glyph: Id::new(12_345), score: None },
        )
        .unwrap();
    let exhausted = Font { first_version: version, current_version: version, candidates: vec![] };
    let font_id = f.fonts.insert(&mut f.db, &exhausted).unwrap();
    let error = f.add_next_test(font_id, Id::new(1), &turn).unwrap_err();
    assert_eq!(error.kind(), font_gen::error::ErrorKind::NotFound);
    assert_eq!(
        error.message(),
        "Could not find a value of type \"font_gen::glyph::Glyph\" in the database."
    );
}

#[test]
fn a_font_without_glyphs_has_nothing_to_show() {
    let mut f = fixture();
    let font_id = f.add_font(vec![], &turn).unwrap();
    let font = f.fonts.get(font_id).unwrap().unwrap();
    assert!(font.candidates.is_empty());
    let user: Id<User> = Id::new(1);
    f.add_next_test(font_id, user, &turn).unwrap();
    assert!(f.get_test_glyph(user).unwrap().is_none());
    let advanced = f.fonts.get(font_id).unwrap().unwrap();
    assert_ne!(advanced.current_version.get_inner(), font.current_version.get_inner());
    assert_eq!(advanced.first_version.get_inner(), font.first_version.get_inner());
    assert!(advanced.candidates.is_empty());
}

#[test]
fn a_generation_takes_nothing_from_another_version() {
    let mut f = fixture();
    let font_id =
        f.add_font(vec![Glyph::new('c'), Glyph::new('a'), Glyph::new('b')], &turn).unwrap();
    let other_id = f.add_font(vec![Glyph::new('a'), Glyph::new('z')], &turn).unwrap();
    let font = f.fonts.get(font_id).unwrap().unwrap();
    let other = f.fonts.get(other_id).unwrap().unwrap();
    let other_before = f.font_version_glyphs.scan_prefix(other.current_version).unwrap();
    let before = f.font_version_glyphs.scan_prefix(font.current_version).unwrap();
    let exhausted = Font {
        first_version: font.first_version,
        current_version: font.current_version,
        candidates: vec![],
    };
    f.fonts.insert_with_key(font_id, &exhausted).unwrap();
    let reserved = f.font_versions.get(font.current_version).unwrap().unwrap().next_version();
    assert!(f.font_versions.get(reserved).unwrap().is_none());
    assert!(f.font_version_glyphs.scan_prefix(reserved).unwrap().is_empty());
    f.add_next_test(font_id, Id::new(1), &turn).unwrap();
    let advanced = f.fonts.get(font_id).unwrap().unwrap();
    assert_eq!(advanced.current_version.get_inner(), reserved.get_inner());
    let after = f.font_version_glyphs.scan_prefix(advanced.current_version).unwrap();
    let chars: Vec<char> = after.iter().map(|(key, _)| key.char).collect();
    assert_eq!(chars, vec!['a', 'b', 'c']);
    for i in 0..3 {
        assert_eq!(after[i].1.glyph.get_inner(), before[i].1.glyph.get_inner());
        assert_eq!(after[i].0.char, before[i].0.char);
        assert!(after[i].1.score.is_none());
    }
    assert_eq!(advanced.candidates.len(), 3);
    let still = f.font_version_glyphs.scan_prefix(font.current_version).unwrap();
    assert_eq!(still.len(), 3);
    let other_after = f.font_version_glyphs.scan_prefix(other.current_version).unwrap();
    assert_eq!(other_after.len(), 2);
    for i in 0..2 {
        assert_eq!(other_after[i].0.char, other_before[i].0.char);
        assert_eq!(other_after[i].1.glyph.get_inner(), other_before[i].1.glyph.get_inner());
    }
    let new_version = f.font_versions.get(reserved).unwrap().unwrap();
    let set_aside = new_version.next_version();
    assert!(set_aside.get_inner() > reserved.get_inner());
    assert_ne!(set_aside.get_inner(), font.current_version.get_inner());
    assert!(f.font_versions.get(set_aside).unwrap().is_none());
    assert_eq!(
        f.font_versions.get(font.current_version).unwrap().unwrap().next_version().get_inner(),
        reserved.get_inner()
    );
    assert_eq!(f.fonts.get(other_id).unwrap().unwrap().candidates.len(), 2);
}
