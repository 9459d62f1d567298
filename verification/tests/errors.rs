use font_gen::error::{Error, ErrorKind};
use font_gen::util::CodecError;

#[test]
fn a_found_item_is_handed_on() {
    assert_eq!(Error::expect_db_item(Some(5), "u8").unwrap(), 5);
}

#[test]
fn a_missing_item_names_its_type() {
    let none: Option<u8> = None;
    let error = Error::expect_db_item(none, "font_gen::glyph::Glyph").unwrap_err();
    assert_eq!(error.kind(), ErrorKind::NotFound);
    assert_eq!(
        error.message(),
        "Could not find a value of type \"font_gen::glyph::Glyph\" in the database."
    );
}

#[test]
fn a_timeout_has_a_message_of_its_own() {
    let late = std::io::Error::new(std::io::ErrorKind::TimedOut, "late");
    let error = Error::from(late);
    assert_eq!(error.kind(), ErrorKind::Store);
    assert_eq!(error.message(), "The server took too long to do something.");
    assert_eq!(Error::io(true, "anything").message(), "The server took too long to do something.");
}

#[test]
fn another_io_error_is_quoted() {
    let full = std::io::Error::new(std::io::ErrorKind::Other, "disk full");
    let error = Error::from(full);
    assert_eq!(error.kind(), ErrorKind::Store);
    assert_eq!(error.message(), "This IO error happened on the server: disk full");
}

#[test]
fn a_store_error_is_an_io_error_where_it_carries_one() {
    let late = std::io::Error::new(std::io::ErrorKind::TimedOut, "late");
    let error = Error::from(sled::Error::Io(late));
    assert_eq!(error.message(), "The server took too long to do something.");
    let full = std::io::Error::new(std::io::ErrorKind::Other, "disk full");
    let error = Error::from(sled::Error::Io(full));
    assert_eq!(error.message(), "This IO error happened on the server: disk full");
}

#[test]
fn another_store_error_is_a_database_problem() {
    let cause = sled::Error::Unsupported(String::from("read-only"));
    let words = format!("{}", cause);
    let error = Error::from(cause);
    assert_eq!(error.kind(), ErrorKind::Store);
    assert_eq!(
        error.message(),
        format!("A problem occured with the server's database: {}", words)
    );
    assert_eq!(
        Error::database("x").message(),
        "A problem occured with the server's database: x"
    );
}

#[test]
fn a_codec_error_says_what_was_wrong() {
    let error = Error::from(CodecError::Incomplete);
    assert_eq!(error.kind(), ErrorKind::Codec);
    assert_eq!(error.message(), "Could not deserialize/serialize data: not enough data");
    let error = Error::codec(CodecError::InvalidCharacter);
    assert_eq!(error.kind(), ErrorKind::Codec);
    assert_eq!(error.message(), "Could not deserialize/serialize data: invalid_char");
}
