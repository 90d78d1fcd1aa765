use raid_ii::raid::{FileReadResult, FileType, FileWriteResult, RaidII};

#[test]
fn raid_create_test() {
    let bytes_per_disk = 1024;
    let raid_ii = RaidII::from_data_capacity(bytes_per_disk);
    assert_eq!(raid_ii.disk_size(), bytes_per_disk);
    assert_eq!(raid_ii.file_count(), 0);
    assert_eq!(raid_ii.data_disk_count(), 8);
    assert_eq!(raid_ii.hamming_disk_count(), 4);
    assert_eq!(raid_ii.total_disks(), 13);
    assert_eq!(raid_ii.free_space(), raid_ii.disk_size() * raid_ii.total_disks());
    assert_eq!(
        raid_ii.total_capacity(),
        raid_ii.disk_size() * raid_ii.total_disks()
    );
    assert_eq!(raid_ii.file_count(), 0);
}

#[test]
fn raid_use_test1() {
    let bytes_per_disk = 1024;
    let mut raid_ii = RaidII::from_data_capacity(bytes_per_disk);
    let text_data = "Hello, Rust!";
    let bytes = text_data.as_bytes().to_vec();
    let file_name = "Greeting".to_owned();
    let file_type = FileType::Text;

    match raid_ii.write_file(&bytes, file_type, &file_name) {
        FileWriteResult::Success => match raid_ii.read_file(&file_name) {
            FileReadResult::NotFound => assert!(false),
            FileReadResult::DisksCorrupted => assert!(false),
            FileReadResult::Success(find_file_type, find_bytes) => match find_file_type {
                FileType::Text => assert_eq!(bytes, find_bytes),
            },
        },
        FileWriteResult::NotEnoughSpace => assert!(false),
    }
}

#[test]
fn raid_use_test2() {
    let bytes_per_disk = 1024;
    let mut raid_ii = RaidII::from_data_capacity(bytes_per_disk);
    let text_data = "Rust is ideal for many people for a variety of reasons. 
        Rust is for people who crave speed and stability in a language. 
        By speed, we mean both how quickly Rust code can run and the speed at which Rust lets you write programs. 
        The Rust compilerâ€™s checks ensure stability through feature additions and refactoring.";

    let bytes = text_data.as_bytes().to_vec();
    let file_name = "Introduction to Rust".to_owned();
    let file_type = FileType::Text;

    match raid_ii.write_file(&bytes, file_type, &file_name) {
        FileWriteResult::Success => match raid_ii.read_file(&file_name) {
            FileReadResult::NotFound => assert!(false),
            FileReadResult::DisksCorrupted => assert!(false),
            FileReadResult::Success(find_file_type, find_bytes) => match find_file_type {
                FileType::Text => assert_eq!(bytes, find_bytes),
            },
        },
        FileWriteResult::NotEnoughSpace => assert!(false),
    }
}

#[test]
fn corrupt_disk_test1() {
    let bytes_per_disk = 1024;
    let mut raid_ii = RaidII::from_data_capacity(bytes_per_disk);
    let text_data = "Hello, Rust!";
    let bytes = text_data.as_bytes().to_vec();
    let file_name = "Greeting".to_owned();
    let file_type = FileType::Text;
    raid_ii.write_file(&bytes, file_type, &file_name);
    assert_eq!(raid_ii.file_count(), 1);
    raid_ii.corrupt_disk(1);
    raid_ii.corrupt_disk(2);

    match raid_ii.read_file(&file_name) {
        FileReadResult::NotFound => assert!(false),
        FileReadResult::DisksCorrupted => assert!(true),
        FileReadResult::Success(..) => assert!(false),
    }
}

fn read_bytes(raid: &mut RaidII, name: &str) -> Option<Vec<u8>> {
    match raid.read_file(&name.to_owned()) {
        FileReadResult::Success(FileType::Text, bytes) => Some(bytes),
        _ => None,
    }
}

#[test]
fn write_then_read_hi() {
    let mut raid = RaidII::from_data_capacity(16);
    let data = "Hi".as_bytes().to_vec();
    assert!(matches!(
        raid.write_file(&data, FileType::Text, &"Greeting".to_owned()),
        FileWriteResult::Success
    ));
    assert_eq!(read_bytes(&mut raid, "Greeting"), Some(b"Hi".to_vec()));
    assert_eq!(raid.file_count(), 1);
    assert_eq!(raid.free_space(), 16 * 13 - 2);
}

#[test]
fn capacity_boundary() {
    let mut raid = RaidII::from_data_capacity(1);
    assert_eq!(raid.free_space(), 13);
    let too_big = vec![7u8; 13];
    assert!(matches!(
        raid.write_file(&too_big, FileType::Text, &"big".to_owned()),
        FileWriteResult::NotEnoughSpace
    ));
    assert_eq!(raid.free_space(), 13);
    assert_eq!(raid.file_count(), 0);
    let fits = vec![7u8; 12];
    assert!(matches!(
        raid.write_file(&fits, FileType::Text, &"fits".to_owned()),
        FileWriteResult::Success
    ));
    assert_eq!(raid.free_space(), 1);
    assert!(matches!(
        raid.write_file(&vec![1u8], FileType::Text, &"one".to_owned()),
        FileWriteResult::NotEnoughSpace
    ));
    assert_eq!(read_bytes(&mut raid, "fits"), Some(fits));
}

#[test]
fn empty_file_round_trips() {
    let mut raid = RaidII::from_data_capacity(4);
    assert!(matches!(
        raid.write_file(&vec![], FileType::Text, &"empty".to_owned()),
        FileWriteResult::Success
    ));
    assert_eq!(read_bytes(&mut raid, "empty"), Some(vec![]));
    assert_eq!(raid.free_space(), 52);
}

#[test]
fn single_corrupt_disk_is_healed() {
    for disk in 1..=13usize {
        let mut raid = RaidII::from_data_capacity(64);
        let data = "Hello, Rust!".as_bytes().to_vec();
        raid.write_file(&data, FileType::Text, &"Greeting".to_owned());
        assert!(raid.corrupt_disk(disk));
        assert_eq!(read_bytes(&mut raid, "Greeting"), Some(data.clone()));
        // The repair persisted: a fault on another disk is again a single fault.
        let other = if disk == 13 { 1 } else { disk + 1 };
        assert!(raid.corrupt_disk(other));
        assert_eq!(read_bytes(&mut raid, "Greeting"), Some(data.clone()));
        assert_eq!(read_bytes(&mut raid, "Greeting"), Some(data));
    }
}

#[test]
fn two_corrupt_disks_fail_the_read() {
    for first in 1..=13usize {
        for second in (first + 1)..=13usize {
            let mut raid = RaidII::from_data_capacity(64);
            let data = "Hi there".as_bytes().to_vec();
            raid.write_file(&data, FileType::Text, &"f".to_owned());
            raid.corrupt_disk(first);
            raid.corrupt_disk(second);
            assert!(matches!(
                raid.read_file(&"f".to_owned()),
                FileReadResult::DisksCorrupted
            ));
        }
    }
}

#[test]
fn unknown_name_is_not_found() {
    let mut raid = RaidII::from_data_capacity(8);
    assert!(matches!(
        raid.read_file(&"missing".to_owned()),
        FileReadResult::NotFound
    ));
    raid.write_file(&vec![1, 2, 3], FileType::Text, &"present".to_owned());
    assert!(matches!(
        raid.read_file(&"missing".to_owned()),
        FileReadResult::NotFound
    ));
}

#[test]
fn corrupt_disk_range() {
    let mut raid = RaidII::from_data_capacity(8);
    assert!(!raid.corrupt_disk(0));
    assert!(!raid.corrupt_disk(14));
    assert!(raid.corrupt_disk(1));
    assert!(raid.corrupt_disk(13));
}

#[test]
fn duplicate_name_reads_first_file() {
    let mut raid = RaidII::from_data_capacity(8);
    raid.write_file(&vec![1, 2], FileType::Text, &"same".to_owned());
    raid.write_file(&vec![3, 4, 5], FileType::Text, &"same".to_owned());
    assert_eq!(raid.file_count(), 2);
    assert_eq!(read_bytes(&mut raid, "same"), Some(vec![1, 2]));
}

#[test]
fn files_keep_their_own_ranges() {
    let mut raid = RaidII::from_data_capacity(8);
    raid.write_file(&vec![10, 20], FileType::Text, &"a".to_owned());
    raid.write_file(&vec![30, 40, 50], FileType::Text, &"b".to_owned());
    assert_eq!(read_bytes(&mut raid, "b"), Some(vec![30, 40, 50]));
    assert_eq!(read_bytes(&mut raid, "a"), Some(vec![10, 20]));
    assert_eq!(raid.free_space(), 104 - 5);
}
