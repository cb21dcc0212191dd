use kvwal::filesystem::FileSystem;
use kvwal::log::WALFileManager;
use kvwal::persistent::PersistentLayer;
use kvwal::wal_io::WALio;

#[test]
fn test_wal_io() {
    let mut wal_io = WALio::new(100);
    let data = {
        let mut data = Vec::new();
        for i in 0..225 {
            data.push(i);
        }
        data
    };
    let mut contents = vec![];
    if let Some(flushed) = wal_io.write(data) {
        contents.extend_from_slice(&flushed);
    }
    contents.extend_from_slice(&wal_io.flush());

    let expected: Vec<u8> = (0..225).collect();
    assert_eq!(contents, expected);
}

#[test]
fn wal_io_batches_until_capacity() {
    let mut wal_io = WALio::new(8);
    assert_eq!(wal_io.write(vec![1, 2, 3]), None);
    assert_eq!(wal_io.write(vec![4, 5, 6]), None);
    // one more write would pass the capacity: the batch comes back first
    assert_eq!(wal_io.write(vec![7, 8, 9]), Some(vec![1, 2, 3, 4, 5, 6]));
    assert_eq!(wal_io.flush(), vec![7, 8, 9]);
    assert_eq!(wal_io.flush(), Vec::<u8>::new());
}

#[test]
fn empty_directory_creates_one_segment() {
    let (manager, created) = WALFileManager::new(Vec::new(), 5 * 1024 * 1024, 100);
    assert_eq!(created, Some(b"wal_100".to_vec()));
    assert_eq!(manager.wal_dir_files, vec![b"wal_100".to_vec()]);
    assert_eq!(manager.get_latest_file(), &b"wal_100".to_vec());
}

#[test]
fn latest_segment_is_greatest_name() {
    let files = vec![b"wal_200".to_vec(), b"wal_300".to_vec(), b"wal_100".to_vec()];
    let (manager, created) = WALFileManager::new(files, 5 * 1024 * 1024, 400);
    assert_eq!(created, None);
    assert_eq!(manager.get_latest_file(), &b"wal_300".to_vec());
}

#[test]
fn size_rotation_triggers_at_limit_only() {
    let limit = 5 * 1024 * 1024;
    let (mut manager, _) = WALFileManager::new(Vec::new(), limit, 100);
    assert_eq!(manager.size_rotate(limit - 1, 200), None);
    assert_eq!(manager.wal_dir_files.len(), 1);

    let created = manager.size_rotate(limit, 200);
    assert_eq!(created, Some(b"wal_200".to_vec()));
    assert_eq!(manager.wal_dir_files.len(), 2);
    // the prior segment remains present
    assert_eq!(manager.wal_dir_files[0], b"wal_100".to_vec());
    assert_eq!(manager.get_latest_file(), &b"wal_200".to_vec());
}

#[test]
fn age_cleanup_deletes_old_segments() {
    let files = vec![b"wal_100".to_vec(), b"wal_200".to_vec(), b"wal_300".to_vec()];
    let (mut manager, _) = WALFileManager::new(files, 5 * 1024 * 1024, 300);
    let plan = manager.timed_cleanup(250);
    assert_eq!(plan, vec![b"wal_100".to_vec(), b"wal_200".to_vec()]);
    let (count, created) = manager.commit_cleanup(&plan, 400);
    assert_eq!(count, 2);
    assert_eq!(created, None);
    assert_eq!(manager.wal_dir_files, vec![b"wal_300".to_vec()]);
}

#[test]
fn age_cleanup_of_everything_recreates_a_tail() {
    let files = vec![b"wal_100".to_vec(), b"wal_200".to_vec()];
    let (mut manager, _) = WALFileManager::new(files, 5 * 1024 * 1024, 200);
    let plan = manager.timed_cleanup(i64::MAX);
    assert_eq!(plan.len(), 2);
    let (count, created) = manager.commit_cleanup(&plan, 500);
    assert_eq!(count, 2);
    assert_eq!(created, Some(b"wal_500".to_vec()));
    assert_eq!(manager.wal_dir_files, vec![b"wal_500".to_vec()]);
}

#[test]
fn malformed_names_are_never_deleted() {
    let files = vec![b"wal_100".to_vec(), b"notasegment".to_vec(), b"wal_abc".to_vec()];
    let (mut manager, _) = WALFileManager::new(files, 5 * 1024 * 1024, 100);
    let plan = manager.timed_cleanup(i64::MAX);
    assert_eq!(plan, vec![b"wal_100".to_vec()]);
    let (count, created) = manager.commit_cleanup(&plan, 700);
    assert_eq!(count, 1);
    assert_eq!(created, None);
    assert_eq!(
        manager.wal_dir_files,
        vec![b"notasegment".to_vec(), b"wal_abc".to_vec()]
    );
}

#[test]
fn segment_name_parsing() {
    assert_eq!(WALFileManager::parse_segment_timestamp(b"wal_100"), Some(100));
    assert_eq!(WALFileManager::parse_segment_timestamp(b"wal_-42"), Some(-42));
    assert_eq!(WALFileManager::parse_segment_timestamp(b"wal_"), None);
    assert_eq!(WALFileManager::parse_segment_timestamp(b"wal100"), None);
    assert_eq!(WALFileManager::parse_segment_timestamp(b"wal_12x"), None);
    assert_eq!(
        WALFileManager::parse_segment_timestamp(b"wal_9223372036854775807"),
        Some(i64::MAX)
    );
    assert_eq!(
        WALFileManager::parse_segment_timestamp(b"wal_9223372036854775808"),
        None
    );
    assert_eq!(
        WALFileManager::parse_segment_timestamp(b"wal_-9223372036854775808"),
        Some(i64::MIN)
    );
}

#[test]
fn filesystem_paths() {
    let fs = FileSystem::new("data".to_string());
    assert_eq!(fs.root, "data");
    assert_eq!(fs.wal, "data/wal");
    assert_eq!(fs.snapshot, "data/snapshot");
    assert_eq!(fs.temp, "data/temp");
    assert_eq!(fs.persistent, "data/persistent");
}

#[test]
fn persistent_layer_holds_its_dir() {
    let layer = PersistentLayer::new("data/persistent".to_string());
    assert_eq!(layer.dir, "data/persistent");
}
