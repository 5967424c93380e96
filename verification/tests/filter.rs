use pathsearch::{executable_file_filter, find_executables, is_executable, Entry, Listing};

fn file(name: &[u8], mode: u32) -> Entry {
    Entry { name: name.to_vec(), is_dir: Some(false), mode: Some(mode) }
}

fn dir(name: &[u8], mode: u32) -> Entry {
    Entry { name: name.to_vec(), is_dir: Some(true), mode: Some(mode) }
}

#[test]
fn owner_bit_alone_makes_executable() {
    assert!(is_executable(&file(b"a", 0o100)));
}

#[test]
fn group_bit_alone_makes_executable() {
    assert!(is_executable(&file(b"a", 0o010)));
}

#[test]
fn other_bit_alone_makes_executable() {
    assert!(is_executable(&file(b"a", 0o001)));
}

#[test]
fn usual_program_mode_is_executable() {
    assert!(is_executable(&file(b"a", 0o100755)));
}

#[test]
fn read_write_bits_do_not_make_executable() {
    assert!(!is_executable(&file(b"a", 0o666)));
    assert!(!is_executable(&file(b"a", 0o100644)));
    assert!(!is_executable(&file(b"a", 0)));
}

#[test]
fn special_bits_do_not_make_executable() {
    assert!(!is_executable(&file(b"a", 0o7000)));
    assert!(!is_executable(&file(b"a", 0o4644)));
}

#[test]
fn unread_metadata_is_not_executable() {
    let entry = Entry { name: b"a".to_vec(), is_dir: Some(false), mode: None };
    assert!(!is_executable(&entry));
}

#[test]
fn is_executable_looks_at_the_mode_only() {
    assert!(is_executable(&dir(b"d", 0o755)));
    let untyped = Entry { name: b"u".to_vec(), is_dir: None, mode: Some(0o755) };
    assert!(is_executable(&untyped));
}

#[test]
fn filter_keeps_executable_file() {
    assert_eq!(executable_file_filter(&file(b"foo", 0o755)), Some(b"foo".to_vec()));
    assert_eq!(executable_file_filter(&file(b"foo", 0o001)), Some(b"foo".to_vec()));
}

#[test]
fn filter_drops_file_without_execute_bit() {
    assert_eq!(executable_file_filter(&file(b"bar", 0o644)), None);
}

#[test]
fn filter_drops_directory_whatever_its_bits() {
    assert_eq!(executable_file_filter(&dir(b"bin", 0o755)), None);
    assert_eq!(executable_file_filter(&dir(b"bin", 0o111)), None);
    assert_eq!(executable_file_filter(&dir(b"bin", 0o644)), None);
}

#[test]
fn filter_drops_entry_of_unknown_type() {
    let entry = Entry { name: b"x".to_vec(), is_dir: None, mode: Some(0o755) };
    assert_eq!(executable_file_filter(&entry), None);
}

#[test]
fn filter_drops_entry_with_unread_metadata() {
    let entry = Entry { name: b"x".to_vec(), is_dir: Some(false), mode: None };
    assert_eq!(executable_file_filter(&entry), None);
}

#[test]
fn filter_gives_the_name_and_not_another() {
    let got = executable_file_filter(&file(b"\xffraw\x00name", 0o755));
    assert_eq!(got, Some(vec![0xff, b'r', b'a', b'w', 0, b'n', b'a', b'm', b'e']));
}

#[test]
fn find_executables_keeps_commands_in_entry_order() {
    let listing = Listing::Entries(vec![
        file(b"zsh", 0o755),
        file(b"notes.txt", 0o644),
        dir(b"lib", 0o755),
        file(b"awk", 0o555),
        file(b"zsh", 0o755),
    ]);
    assert_eq!(
        find_executables(&listing),
        vec![b"zsh".to_vec(), b"awk".to_vec(), b"zsh".to_vec()]
    );
}

#[test]
fn find_executables_of_unreadable_directory_is_empty() {
    assert_eq!(find_executables(&Listing::Unreadable), Vec::<Vec<u8>>::new());
}

#[test]
fn find_executables_of_empty_directory_is_empty() {
    assert_eq!(find_executables(&Listing::Entries(vec![])), Vec::<Vec<u8>>::new());
}

#[test]
fn find_executables_without_commands_is_empty() {
    let listing = Listing::Entries(vec![file(b"a", 0o600), dir(b"b", 0o777)]);
    assert_eq!(find_executables(&listing), Vec::<Vec<u8>>::new());
}
