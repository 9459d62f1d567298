use font_gen::database::{Database, Tree};
use font_gen::font::{Font, Score, Version, VersionGlyph, VersionGlyphKey};
use font_gen::glyph::Glyph;
use font_gen::id::Id;
use font_gen::user::User;
use font_gen::util::DekuRW;

fn key(version: u64, c: char) -> VersionGlyphKey {
    VersionGlyphKey { font_version: Id::new(version), char: c }
}

fn entry(glyph: u64) -> VersionGlyph {
    VersionGlyph { glyph: Id::new(glyph), score: None }
}

#[test]
fn scan_prefix_yields_one_version_in_character_order() {
    let mut db = Database::temporary().unwrap();
    let mut scores: Tree<VersionGlyph, VersionGlyphKey> = db.tree(b"scores").unwrap();
    scores.insert_with_key(key(1, 'c'), &entry(30)).unwrap();
    scores.insert_with_key(key(1, 'a'), &entry(10)).unwrap();
    scores.insert_with_key(key(2, 'a'), &entry(40)).unwrap();
    scores.insert_with_key(key(1, 'b'), &entry(20)).unwrap();
    let v1: Id<Version> = Id::new(1);
    let found = scores.scan_prefix(v1).unwrap();
    assert_eq!(found.len(), 3);
    let chars: Vec<char> = found.iter().map(|(k, _)| k.char).collect();
    assert_eq!(chars, vec!['a', 'b', 'c']);
    let glyphs: Vec<u64> = found.iter().map(|(_, v)| v.glyph.get_inner()).collect();
    assert_eq!(glyphs, vec![10, 20, 30]);
    for (k, _) in found.iter() {
        assert_eq!(k.font_version.get_inner(), 1);
    }
}

#[test]
fn insert_each_returns_distinct_keys_in_order() {
    let mut db = Database::temporary().unwrap();
    let mut glyphs: Tree<Glyph> = db.tree(b"glyphs").unwrap();
    let values = vec![Glyph::read(&[0, 0, 0, 0x61]).unwrap(), Glyph::read(&[0, 0, 0, 0x62]).unwrap()];
    let keys = glyphs.insert_each(&mut db, &values).unwrap();
    assert_eq!(keys.len(), 2);
    assert_ne!(keys[0].get_inner(), keys[1].get_inner());
    assert_eq!(glyphs.get(keys[0]).unwrap().unwrap().char, 'a');
    assert_eq!(glyphs.get(keys[1]).unwrap().unwrap().char, 'b');
}

#[test]
fn remove_returns_the_value_once() {
    let mut db = Database::temporary().unwrap();
    let mut versions: Tree<Version> = db.tree(b"font_versions").unwrap();
    let id = versions.insert(&mut db, &Version::new(Id::new(77))).unwrap();
    assert_eq!(versions.remove(id).unwrap().unwrap().next_version().get_inner(), 77);
    assert!(versions.remove(id).unwrap().is_none());
    assert!(versions.get(id).unwrap().is_none());
}

#[test]
fn insert_with_key_overwrites() {
    let mut db = Database::temporary().unwrap();
    let mut scores: Tree<VersionGlyph, VersionGlyphKey> = db.tree(b"scores").unwrap();
    scores.insert_with_key(key(1, 'a'), &entry(10)).unwrap();
    let user: Id<User> = Id::new(9);
    let scored = VersionGlyph { glyph: Id::new(11), score: Some(Score { time: 5.0f64.to_bits(), user }) };
    scores.insert_with_key(key(1, 'a'), &scored).unwrap();
    let back = scores.get(key(1, 'a')).unwrap().unwrap();
    assert_eq!(back.glyph.get_inner(), 11);
    assert_eq!(f64::from_bits(back.score.unwrap().time), 5.0);
    assert_eq!(back.score.unwrap().user.get_inner(), 9);
    let _unused: Option<Font> = None;
}

#[test]
fn generated_identifiers_are_new_each_time() {
    let mut db = Database::temporary().unwrap();
    let mut versions: Tree<Version> = db.tree(b"font_versions").unwrap();
    let mut seen = std::collections::BTreeSet::new();
    for _ in 0..100 {
        let reserved = Id::generate(&mut db).unwrap();
        assert!(versions.get(reserved).unwrap().is_none());
        assert!(seen.insert(reserved.get_inner()));
        let stored = versions.insert(&mut db, &Version::new(reserved)).unwrap();
        assert!(seen.insert(stored.get_inner()));
    }
    versions.remove(Id::new(*seen.iter().next().unwrap())).unwrap();
    let later: Id<Version> = Id::generate(&mut db).unwrap();
    assert!(!seen.contains(&later.get_inner()));
}

#[test]
fn a_scan_without_a_match_is_empty() {
    let mut db = Database::temporary().unwrap();
    let mut scores: Tree<VersionGlyph, VersionGlyphKey> = db.tree(b"scores").unwrap();
    scores.insert_with_key(key(2, 'a'), &entry(40)).unwrap();
    let v1: Id<Version> = Id::new(1);
    assert!(scores.scan_prefix(v1).unwrap().is_empty());
    let v2: Id<Version> = Id::new(2);
    assert_eq!(scores.scan_prefix(v2).unwrap().len(), 1);
}

#[test]
fn a_value_that_is_no_record_is_a_codec_failure() {
    let mut db = Database::temporary().unwrap();
    let mut short: Tree<Version, Id<Font>> = db.tree(b"fonts").unwrap();
    short.insert_with_key(Id::new(1), &Version::new(Id::new(2))).unwrap();
    let mut fonts: Tree<Font> = short.retyped();
    let error = fonts.get(Id::new(1)).err().unwrap();
    assert_eq!(error.kind(), font_gen::error::ErrorKind::Codec);
    assert_eq!(error.message(), "Could not deserialize/serialize data: not enough data");
    assert!(fonts.get(Id::new(2)).unwrap().is_none());
    let error = fonts.scan_prefix(Id::<Font>::new(1)).err().unwrap();
    assert_eq!(error.kind(), font_gen::error::ErrorKind::Codec);
    let error = fonts.remove(Id::new(1)).err().unwrap();
    assert_eq!(error.kind(), font_gen::error::ErrorKind::Codec);
    assert!(fonts.get(Id::new(1)).unwrap().is_none());
}

#[test]
fn open_makes_the_store_in_its_directory_or_says_why_not() {
    match Database::open() {
        Ok(mut db) => {
            assert!(std::path::Path::new("DullBananasFontGenData").is_dir());
            let mut versions: Tree<Version> = db.tree(b"font_versions").unwrap();
            let id = versions.insert(&mut db, &Version::new(Id::new(5))).unwrap();
            assert_eq!(versions.get(id).unwrap().unwrap().next_version().get_inner(), 5);
            let mut apart = Database::temporary().unwrap();
            let elsewhere: Tree<Version> = apart.tree(b"font_versions").unwrap();
            assert!(elsewhere.get(id).unwrap().is_none());
            versions.remove(id).unwrap();
        }
        Err(error) => {
            assert_eq!(error.kind(), font_gen::error::ErrorKind::Store);
            assert!(!std::path::Path::new("DullBananasFontGenData").join("db").is_file());
            assert!(
                error.message().starts_with("This IO error happened on the server: ")
                    || error.message().starts_with("A problem occured with the server's database: ")
                    || error.message() == "The server took too long to do something."
            );
        }
    }
}

#[test]
fn temporary_stores_are_apart() {
    let mut first = Database::temporary().unwrap();
    let mut second = Database::temporary().unwrap();
    let mut here: Tree<Version> = first.tree(b"font_versions").unwrap();
    let there: Tree<Version> = second.tree(b"font_versions").unwrap();
    here.insert_with_key(Id::new(1), &Version::new(Id::new(2))).unwrap();
    assert!(here.get(Id::new(1)).unwrap().is_some());
    assert!(there.get(Id::new(1)).unwrap().is_none());
}

#[test]
fn a_table_is_opened_once() {
    let mut db = Database::temporary().unwrap();
    let mut versions: Tree<Version> = db.tree(b"font_versions").unwrap();
    let again = db.tree::<Version, Id<Version>>(b"font_versions");
    let error = again.err().unwrap();
    assert_eq!(error.kind(), font_gen::error::ErrorKind::Store);
    assert_eq!(
        error.message(),
        "A problem occured with the server's database: the table is open already"
    );
    let other: Tree<Version> = db.tree(b"fonts").unwrap();
    versions.insert_with_key(Id::new(1), &Version::new(Id::new(2))).unwrap();
    assert!(other.get(Id::new(1)).unwrap().is_none());
}

#[test]
fn identifiers_rise_across_the_tables_of_a_store() {
    let mut db = Database::temporary().unwrap();
    let mut versions: Tree<Version> = db.tree(b"font_versions").unwrap();
    let mut glyphs: Tree<Glyph> = db.tree(b"glyphs").unwrap();
    let mut last: Option<u64> = None;
    for round in 0..20 {
        let id = if round % 3 == 0 {
            versions.insert(&mut db, &Version::new(Id::new(0))).unwrap().get_inner()
        } else if round % 3 == 1 {
            let keys = glyphs.insert_each(&mut db, &vec![Glyph::new('a'), Glyph::new('b')]).unwrap();
            assert!(keys[0].get_inner() < keys[1].get_inner());
            if let Some(before) = last {
                assert!(before < keys[0].get_inner());
            }
            keys[1].get_inner()
        } else {
            Id::<Font>::generate(&mut db).unwrap().get_inner()
        };
        if let Some(before) = last {
            assert!(before < id);
        }
        last = Some(id);
    }
}

#[test]
fn no_values_are_stored_without_a_failure() {
    let mut db = Database::temporary().unwrap();
    let mut glyphs: Tree<Glyph> = db.tree(b"glyphs").unwrap();
    let keys = glyphs.insert_each(&mut db, &vec![]).unwrap();
    assert!(keys.is_empty());
    assert!(glyphs.scan_prefix(Id::<Glyph>::new(0)).unwrap().is_empty());
}
