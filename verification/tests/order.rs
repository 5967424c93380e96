use pathsearch::{compare, NameSet, Rank};

#[test]
fn compare_by_first_differing_byte() {
    assert_eq!(compare(b"abc", b"abd"), Rank::Before);
    assert_eq!(compare(b"abd", b"abc"), Rank::After);
    assert_eq!(compare(b"b", b"abc"), Rank::After);
}

#[test]
fn compare_equal_strings() {
    assert_eq!(compare(b"ls", b"ls"), Rank::Same);
    assert_eq!(compare(b"", b""), Rank::Same);
}

#[test]
fn compare_puts_beginning_before_longer_string() {
    assert_eq!(compare(b"ab", b"abc"), Rank::Before);
    assert_eq!(compare(b"abc", b"ab"), Rank::After);
    assert_eq!(compare(b"", b"a"), Rank::Before);
}

#[test]
fn compare_goes_by_byte_value() {
    assert_eq!(compare(b"Z", b"a"), Rank::Before);
    assert_eq!(compare(b"a", b"\xff"), Rank::Before);
    assert_eq!(compare(b"\x80", b"\x7f"), Rank::After);
    assert_eq!(compare(b"a-b", b"a_b"), Rank::Before);
}

#[test]
fn compare_agrees_with_slice_order() {
    let samples: Vec<&[u8]> =
        vec![b"", b"a", b"ab", b"abc", b"b", b"B", b"\xff", b"\x00", b"a\x00", b"ls", b"lsblk"];
    for x in &samples {
        for y in &samples {
            let expected = if x < y {
                Rank::Before
            } else if x == y {
                Rank::Same
            } else {
                Rank::After
            };
            assert_eq!(compare(x, y), expected);
        }
    }
}

#[test]
fn new_set_is_empty() {
    let set = NameSet::new();
    assert_eq!(set.len(), 0);
    assert_eq!(set.names(), &Vec::<Vec<u8>>::new());
    assert!(!set.contains(b"ls"));
}

#[test]
fn insert_tells_whether_the_name_was_new() {
    let mut set = NameSet::new();
    assert!(set.insert(b"ls".to_vec()));
    assert!(!set.insert(b"ls".to_vec()));
    assert!(set.insert(b"cat".to_vec()));
    assert_eq!(set.len(), 2);
}

#[test]
fn insert_keeps_ascending_order() {
    let mut set = NameSet::new();
    for name in [&b"m"[..], b"z", b"a", b"mm", b"b", b"", b"Z"] {
        set.insert(name.to_vec());
    }
    assert_eq!(
        set.names(),
        &vec![
            b"".to_vec(),
            b"Z".to_vec(),
            b"a".to_vec(),
            b"b".to_vec(),
            b"m".to_vec(),
            b"mm".to_vec(),
            b"z".to_vec()
        ]
    );
}

#[test]
fn insert_at_front_middle_and_back() {
    let mut set = NameSet::new();
    set.insert(b"m".to_vec());
    set.insert(b"a".to_vec());
    set.insert(b"z".to_vec());
    set.insert(b"n".to_vec());
    assert_eq!(set.names(), &vec![b"a".to_vec(), b"m".to_vec(), b"n".to_vec(), b"z".to_vec()]);
}

#[test]
fn contains_finds_members_only() {
    let mut set = NameSet::new();
    set.extend(vec![b"sed".to_vec(), b"awk".to_vec(), b"grep".to_vec()]);
    assert!(set.contains(b"awk"));
    assert!(set.contains(b"grep"));
    assert!(set.contains(b"sed"));
    assert!(!set.contains(b"se"));
    assert!(!set.contains(b"sedd"));
    assert!(!set.contains(b""));
}

#[test]
fn extend_adds_all_and_drops_repeats() {
    let mut set = NameSet::new();
    set.insert(b"b".to_vec());
    set.extend(vec![b"c".to_vec(), b"a".to_vec(), b"b".to_vec(), b"c".to_vec()]);
    assert_eq!(set.names(), &vec![b"a".to_vec(), b"b".to_vec(), b"c".to_vec()]);
    assert_eq!(set.len(), 3);
}

#[test]
fn extend_by_nothing_changes_nothing() {
    let mut set = NameSet::new();
    set.insert(b"x".to_vec());
    set.extend(Vec::new());
    assert_eq!(set.names(), &vec![b"x".to_vec()]);
}

#[test]
fn many_names_come_out_sorted_and_unique() {
    let mut set = NameSet::new();
    let mut expected: Vec<Vec<u8>> = Vec::new();
    let mut seed: u32 = 12345;
    for _ in 0..500 {
        seed = seed.wrapping_mul(1103515245).wrapping_add(12345);
        let len = (seed >> 16) % 4;
        let mut name = Vec::new();
        for k in 0..len {
            name.push(((seed >> (8 * k)) % 5) as u8 + b'a');
        }
        expected.push(name.clone());
        set.insert(name);
    }
    expected.sort();
    expected.dedup();
    assert_eq!(set.names(), &expected);
    assert_eq!(set.len(), expected.len());
}
