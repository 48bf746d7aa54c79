use mav_param::ident::MAX_NAMED_LEN;
use mav_param::{Error, Ident};

#[test]
fn from_str_truncated() {
    // Basic back and forth conversion
    let ident = Ident::from_str_truncated("hello.world");
    assert_eq!("hello.world", ident.as_str());

    // Basic back and forth conversion
    let ident = Ident::from_str_truncated("hello.world.foo.bar");
    assert_eq!("hello.world.foo.", ident.as_str());
}

#[test]
fn try_from() {
    // Basic back and forth conversion
    let ident = Ident::try_from(b"hello.world").unwrap();
    assert_eq!("hello.world", ident.as_str());

    // find null-byte
    let ident = Ident::try_from(b"hello.world\0....").unwrap();
    assert_eq!("hello.world", ident.as_str());

    // find null-byte (with trailing invalid utf8)
    let ident = Ident::try_from(b"hello.world\0\xE0\xA0").unwrap();
    assert_eq!("hello.world", ident.as_str());

    // Reject invalid utf8
    assert_eq!(
        Ident::try_from(b"hello.world\xE0\xA0"),
        Err(Error::SequenceNotUtf8)
    );

    // Reject too long strings
    assert_eq!(
        Ident::try_from(b"hello.world.foo.bar"),
        Err(Error::SequenceTooLong)
    );
}

#[test]
fn push_pop_single() {
    let mut ident = Ident::new();

    ident.push_entry("root");
    assert_eq!(ident.as_str(), "root");

    ident.pop_entry();
    assert_eq!(ident.as_str(), "");
}

#[test]
fn push_with_dot() {
    let mut ident = Ident::new();

    ident.push_entry("root.");
    assert_eq!(ident.as_str(), "root.");

    ident.pop_entry();
    assert_eq!(ident.as_str(), "root");
}

#[test]
fn push_pop_multi() {
    let mut ident = Ident::new();

    ident.push_entry("root");
    assert_eq!(ident.as_str(), "root");

    ident.push_entry("mod");
    assert_eq!(ident.as_str(), "root.mod");

    ident.push_entry("leaf");
    assert_eq!(ident.as_str(), "root.mod.leaf");

    ident.pop_entry();
    assert_eq!(ident.as_str(), "root.mod");

    ident.pop_entry();
    assert_eq!(ident.as_str(), "root");

    ident.pop_entry();
    assert_eq!(ident.as_str(), "");
}

#[test]
fn push_limits() {
    let mut ident = Ident::new();

    // 15 characters
    assert_eq!(ident.push_entry("xxxxxxxxxxxxxxx"), true);
    assert_eq!(ident.as_str().len(), 15);
    ident.pop_entry();

    // 16 characters
    assert_eq!(ident.push_entry("xxxxxxxxxxxxxxxx"), true);
    assert_eq!(ident.as_str().len(), 16);
    ident.pop_entry();

    // 17 characters (fails)
    assert_eq!(ident.push_entry("xxxxxxxxxxxxxxxxx"), false);
    assert_eq!(ident.as_str().len(), 0);
}

#[test]
fn truncation_respects_character_boundaries() {
    // 15 ASCII bytes followed by a two-byte character: cutting at 16 would
    // split the character's encoding, so truncation stops at 15.
    let ident = Ident::from_str_truncated("aaaaaaaaaaaaaaa\u{e9}");
    assert_eq!(ident.as_str(), "aaaaaaaaaaaaaaa");

    // A two-byte character that ends exactly at the capacity is kept.
    let ident = Ident::from_str_truncated("aaaaaaaaaaaaaa\u{e9}x");
    assert_eq!(ident.as_str(), "aaaaaaaaaaaaaa\u{e9}");
}

#[test]
fn as_raw_null_padded() {
    let ident = Ident::from_str_truncated("sys.id");
    let raw = ident.as_raw();
    assert_eq!(raw.len(), MAX_NAMED_LEN);
    assert_eq!(&raw[..6], b"sys.id");
    assert!(raw[6..].iter().all(|b| *b == 0));

    // The raw form parses back to the same identifier.
    let back = Ident::try_from(raw).unwrap();
    assert_eq!(back.as_str(), "sys.id");
}

#[test]
fn fits_matches_push() {
    let mut ident = Ident::new();
    ident.push_entry("root");
    // "root" + "." leaves 11 bytes of room.
    assert!(ident.fits("elevenchars"));
    assert!(!ident.fits("twelve chars"));
    assert_eq!(ident.push_entry("elevenchars"), true);
    assert_eq!(ident.as_str(), "root.elevenchars");
}
