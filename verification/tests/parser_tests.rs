use puzzle_core::commands::{parse_command, Command, ListingLine};
use puzzle_core::commands::parse_listing_line;
use puzzle_core::directory::Directory;

fn strings(parts: &[&str]) -> Vec<String> {
    parts.iter().map(|p| p.to_string()).collect()
}

#[test]
fn listing_line_forms() {
    match parse_listing_line("14848514 b.txt") {
        ListingLine::FileEntry(name, size) => {
            assert_eq!(name, "b.txt");
            assert_eq!(size, 14848514);
        },
        _ => panic!("expected a file entry"),
    }
    assert!(matches!(parse_listing_line("dir a"), ListingLine::Placeholder));
    assert!(matches!(parse_listing_line(""), ListingLine::Malformed));
    // an all-digit line has no name after its run
    assert!(matches!(parse_listing_line("12345"), ListingLine::Malformed));
    // a first token that is not a pure digit run is an ignored placeholder
    assert!(matches!(parse_listing_line("12x4 name"), ListingLine::Placeholder));
    assert!(matches!(parse_listing_line("12ab"), ListingLine::Placeholder));
    // a size beyond u64 cannot be stored
    assert!(matches!(
        parse_listing_line("99999999999999999999999 f"),
        ListingLine::Malformed
    ));
}

#[test]
fn listing_ignores_mixed_token_lines() {
    let d = Directory::parse(&strings(&["12ab x", "7 f"])).expect("valid listing");
    assert_eq!(d.file_count(), 1);
    assert_eq!(d.file_size_of(&"f".to_string()), Some(7));
    assert_eq!(Directory::parse(&strings(&["12ab x"])).map(|d| d.file_count()), Some(0));
}

#[test]
fn listing_collects_files() {
    let d = Directory::parse(&strings(&["dir a", "1 f", "2 g"])).expect("valid listing");
    assert_eq!(d.subdir_count(), 0);
    assert_eq!(d.file_count(), 2);
    assert_eq!(d.file_size_of(&"f".to_string()), Some(1));
    assert_eq!(d.file_size_of(&"g".to_string()), Some(2));
    assert_eq!(d.file_size_of(&"a".to_string()), None);
}

#[test]
fn listing_last_duplicate_wins() {
    let d = Directory::parse(&strings(&["5 f", "9 f"])).expect("valid listing");
    assert_eq!(d.file_count(), 1);
    assert_eq!(d.file_size_of(&"f".to_string()), Some(9));
}

#[test]
fn listing_rejects_malformed() {
    assert!(Directory::parse(&strings(&["1 f", ""])).is_none());
    assert!(Directory::parse(&strings(&["123"])).is_none());
}

#[test]
fn command_forms() {
    match parse_command(&strings(&["cd /"])) {
        Some(Command::ChangeDirectory(t)) => assert_eq!(t, "/"),
        _ => panic!("expected cd"),
    }
    match parse_command(&strings(&["cd .."])) {
        Some(Command::ChangeDirectory(t)) => assert_eq!(t, ".."),
        _ => panic!("expected cd"),
    }
    match parse_command(&strings(&["ls", "dir a", "7 x"])) {
        Some(Command::ListDirectory(d)) => {
            assert_eq!(d.file_size_of(&"x".to_string()), Some(7));
        },
        _ => panic!("expected ls"),
    }
    assert!(parse_command(&strings(&[])).is_none());
    assert!(parse_command(&strings(&["pwd"])).is_none());
    assert!(parse_command(&strings(&["cd"])).is_none());
    assert!(parse_command(&strings(&["ls", "123"])).is_none());
    match parse_command(&strings(&["ls", "bad"])) {
        // a line without a leading digit is an ignored placeholder
        Some(Command::ListDirectory(d)) => assert_eq!(d.file_count(), 0),
        _ => panic!("expected ls with an ignored line"),
    }
}
