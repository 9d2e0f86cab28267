use diskus::walk::{
    children_of, collect_direct_children, default_num_workers, should_count, visit, EntriesTally,
    EntryMessage, EntryMeta, Listing, Message, Probe, RootProbe, Tally, UniqueId,
};
use std::path::PathBuf;

fn path(p: &str) -> PathBuf {
    PathBuf::from(p)
}
use diskus::{CountType, Directories, DiskUsage, Error};

fn file(size: u64) -> Probe {
    Probe::Found(EntryMeta { is_dir: false, unique_id: None, size })
}

fn dir(size: u64) -> Probe {
    Probe::Found(EntryMeta { is_dir: true, unique_id: None, size })
}

fn linked(device: u64, inode: u64, size: u64) -> Probe {
    Probe::Found(EntryMeta {
        is_dir: false,
        unique_id: Some(UniqueId { device, inode }),
        size,
    })
}

/// Folds what `visit` decides for each probe, as a traversal does.
fn tally(probes: Vec<Probe>, count_type: CountType, directories: Directories) -> Tally {
    let mut tally = Tally::new();
    for p in probes {
        if let Some(m) = visit(p, count_type, directories).message {
            assert!(tally.fits(&m));
            tally.record(m);
        }
    }
    tally
}

#[test]
fn apparent_size_of_nested_files_ignores_directories() {
    // A root directory, a 100-byte file, two nested directories and a 200-byte file.
    let probes = vec![dir(4096), file(100), dir(4096), dir(4096), file(200)];
    let result = tally(probes, CountType::ApparentSize, Directories::Auto).finish();
    assert_eq!(result.size_in_bytes().expect("no errors"), 300);
}

#[test]
fn disk_usage_counts_directories_in_auto_mode() {
    let probes = vec![dir(4096), file(4096), dir(4096)];
    let result = tally(probes, CountType::DiskUsage, Directories::Auto).finish();
    assert_eq!(result.size_in_bytes().unwrap(), 3 * 4096);
}

#[test]
fn directories_mode_decides_what_counts() {
    assert!(should_count(Directories::Included, true, CountType::ApparentSize));
    assert!(!should_count(Directories::Excluded, true, CountType::DiskUsage));
    assert!(should_count(Directories::Excluded, false, CountType::DiskUsage));
    assert!(should_count(Directories::Auto, true, CountType::DiskUsage));
    assert!(!should_count(Directories::Auto, true, CountType::ApparentSize));
    assert!(should_count(Directories::Auto, false, CountType::ApparentSize));
}

#[test]
fn visit_descends_into_directories_only() {
    assert!(visit(dir(1), CountType::DiskUsage, Directories::Excluded).descend);
    assert!(!visit(file(1), CountType::DiskUsage, Directories::Included).descend);
    let v = visit(Probe::NoMetadata(path("/gone")), CountType::DiskUsage, Directories::Auto);
    assert!(!v.descend);
    assert!(matches!(
        v.message,
        Some(Message::Error { error: Error::NoMetadataForPath(ref p) }) if p == &path("/gone")
    ));
}

#[test]
fn hard_links_count_once() {
    let probes = vec![linked(1, 7, 100), linked(1, 7, 100), linked(2, 7, 100), file(5)];
    let result = tally(probes, CountType::ApparentSize, Directories::Auto).finish();
    assert_eq!(result.size_in_bytes().unwrap(), 205);
}

#[test]
fn total_does_not_depend_on_arrival_order() {
    let a = tally(
        vec![linked(1, 7, 100), file(3), linked(1, 7, 100), file(4)],
        CountType::ApparentSize,
        Directories::Auto,
    )
    .finish();
    let b = tally(
        vec![file(4), linked(1, 7, 100), linked(1, 7, 100), file(3)],
        CountType::ApparentSize,
        Directories::Auto,
    )
    .finish();
    assert_eq!(a.size_in_bytes().unwrap(), 107);
    assert_eq!(b.size_in_bytes().unwrap(), 107);
}

#[test]
fn errors_taint_the_result_but_keep_the_size() {
    let probes = vec![file(10), Probe::NoMetadata(path("/x")), file(20)];
    let mut t = tally(probes, CountType::ApparentSize, Directories::Auto);
    let m = Message::Error { error: Error::CouldNotReadDir(path("/d")) };
    assert!(t.fits(&m));
    t.record(m);
    let result = t.finish();
    assert!(!result.is_ok());
    let errors = result.size_in_bytes().unwrap_err();
    assert_eq!(errors.len(), 2);
    assert!(matches!(&errors[0], Error::NoMetadataForPath(p) if p == &path("/x")));
    assert!(matches!(&errors[1], Error::CouldNotReadDir(p) if p == &path("/d")));
    assert_eq!(result.ignore_errors().size_in_bytes(), 30);
    assert_eq!(result.errors().len(), 2);
}

#[test]
fn a_total_that_would_overflow_does_not_fit() {
    let mut t = Tally::new();
    let big = Message::SizeEntry(None, u64::MAX);
    assert!(t.fits(&big));
    t.record(big);
    assert!(!t.fits(&Message::SizeEntry(None, 1)));
    assert!(t.fits(&Message::SizeEntry(None, 0)));
}

#[test]
fn direct_children_count_hard_links_independently() {
    let mut t = EntriesTally::new(2);
    let id = Some(UniqueId { device: 3, inode: 9 });
    for m in [
        EntryMessage::SizeEntry { index: 0, unique_id: None, size: 0 },
        EntryMessage::SizeEntry { index: 0, unique_id: id, size: 100 },
        EntryMessage::SizeEntry { index: 1, unique_id: None, size: 0 },
        EntryMessage::SizeEntry { index: 1, unique_id: id, size: 100 },
        EntryMessage::SizeEntry { index: 1, unique_id: id, size: 100 },
    ] {
        assert!(t.fits(&m));
        t.record(m);
    }
    let result = t.finish(vec![path("/t/first"), path("/t/second")], vec![]);
    assert!(result.is_ok());
    let entries = result.entries();
    assert_eq!(entries.len(), 2);
    assert_eq!(entries[0].path(), &path("/t/first"));
    assert_eq!(entries[0].result().size_in_bytes().unwrap(), 100);
    assert_eq!(entries[1].path(), &path("/t/second"));
    assert_eq!(entries[1].result().size_in_bytes().unwrap(), 100);
}

#[test]
fn entry_errors_stay_with_their_entry() {
    let mut t = EntriesTally::new(2);
    for m in [
        EntryMessage::SizeEntry { index: 1, unique_id: None, size: 7 },
        EntryMessage::Error { index: 0, error: Error::CouldNotReadDir(path("/r/a")) },
    ] {
        t.record(m);
    }
    let result = t.finish(vec![path("/r/a"), path("/r/b")], vec![]);
    assert!(!result.is_ok());
    assert!(result.errors().is_empty());
    assert!(result.entries()[0].result().size_in_bytes().is_err());
    assert_eq!(result.entries()[1].result().size_in_bytes().unwrap(), 7);
}

#[test]
fn message_for_entry_keeps_the_index() {
    let m = Message::SizeEntry(None, 4).for_entry(3);
    assert_eq!(m.index(), 3);
    assert!(matches!(m, EntryMessage::SizeEntry { index: 3, unique_id: None, size: 4 }));
}

#[test]
fn direct_children_of_the_roots() {
    let probes = vec![
        RootProbe::Directory(vec![path("/a/x"), path("/a/y")]),
        RootProbe::Missing(path("/gone")),
        RootProbe::NotDirectory(path("/file")),
        RootProbe::Unreadable(path("/locked")),
    ];
    let (paths, errors) = collect_direct_children(probes);
    assert_eq!(paths, vec![path("/a/x"), path("/a/y"), path("/file")]);
    assert_eq!(errors.len(), 2);
    assert!(matches!(&errors[0], Error::NoMetadataForPath(p) if p == &path("/gone")));
    assert!(matches!(&errors[1], Error::CouldNotReadDir(p) if p == &path("/locked")));
}

#[test]
fn root_errors_make_the_entries_result_not_ok() {
    let (paths, errors) = collect_direct_children(vec![
        RootProbe::NotDirectory(path("/f")),
        RootProbe::Missing(path("/gone")),
    ]);
    let result = EntriesTally::new(paths.len()).finish(paths, errors);
    assert!(!result.is_ok());
    assert_eq!(result.errors().len(), 1);
    assert_eq!(result.entries()[0].result().size_in_bytes().unwrap(), 0);
}

#[test]
fn default_workers_are_three_per_core_up_to_64_cores() {
    assert_eq!(default_num_workers(None), 3);
    assert_eq!(default_num_workers(Some(1)), 3);
    assert_eq!(default_num_workers(Some(8)), 24);
    assert_eq!(default_num_workers(Some(64)), 192);
    assert_eq!(default_num_workers(Some(1000)), 192);
}

#[test]
fn builder_sets_each_option() {
    let d = DiskUsage::new(vec![path("/a")]);
    assert_eq!(d.counted_type(), CountType::DiskUsage);
    assert_eq!(d.directories_mode(), Directories::Auto);
    assert_eq!(d.worker_count(Some(2)), 6);
    let d = d.apparent_size().directories(Directories::Included).num_workers(5);
    assert_eq!(d.counted_type(), CountType::ApparentSize);
    assert_eq!(d.directories_mode(), Directories::Included);
    assert_eq!(d.worker_count(Some(2)), 5);
    assert_eq!(d.root_directories(), &[path("/a")]);
    let d = d.count_type(CountType::DiskUsage);
    assert_eq!(d.counted_type(), CountType::DiskUsage);
}

#[test]
fn defaults_of_the_options() {
    assert_eq!(CountType::default(), CountType::DiskUsage);
    assert_eq!(Directories::default(), Directories::Auto);
}

#[test]
fn an_unreadable_directory_has_no_children_and_an_error() {
    let (children, message) = children_of(Listing::Unreadable(path("/locked")));
    assert!(children.is_empty());
    assert!(matches!(
        message,
        Some(Message::Error { error: Error::CouldNotReadDir(ref p) }) if p == &path("/locked")
    ));
    let (children, message) = children_of(Listing::Read(vec![path("/d/a"), path("/d/b")]));
    assert_eq!(children, vec![path("/d/a"), path("/d/b")]);
    assert!(message.is_none());
}

#[test]
fn each_child_total_does_not_depend_on_arrival_order() {
    let id = Some(UniqueId { device: 1, inode: 2 });
    let messages = || {
        vec![
            EntryMessage::SizeEntry { index: 0, unique_id: id, size: 40 },
            EntryMessage::SizeEntry { index: 1, unique_id: None, size: 3 },
            EntryMessage::Error { index: 1, error: Error::CouldNotReadDir(path("/c/x")) },
            EntryMessage::SizeEntry { index: 0, unique_id: id, size: 40 },
            EntryMessage::SizeEntry { index: 0, unique_id: None, size: 2 },
        ]
    };
    let run = |order: &[usize]| {
        let mut all: Vec<Option<EntryMessage>> = messages().into_iter().map(Some).collect();
        let mut t = EntriesTally::new(2);
        for &i in order {
            t.record(all[i].take().unwrap());
        }
        let r = t.finish(vec![path("/c/a"), path("/c/b")], vec![]);
        (
            r.entries()[0].result().ignore_errors().size_in_bytes(),
            r.entries()[1].result().ignore_errors().size_in_bytes(),
            r.entries()[1].result().errors().len(),
        )
    };
    assert_eq!(run(&[0, 1, 2, 3, 4]), (42, 3, 1));
    assert_eq!(run(&[4, 3, 2, 1, 0]), (42, 3, 1));
    assert_eq!(run(&[2, 3, 0, 4, 1]), (42, 3, 1));
}
