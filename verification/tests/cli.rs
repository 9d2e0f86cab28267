use diskus::cli::{
    entries_report, error_message, plan_run, result_report, CliArgs, SizeFormat,
};
use diskus::walk::{EntriesTally, EntryMessage, Tally, Message};
use diskus::{run_diskus, run_ku, CountType, Directories, Error};
use std::path::PathBuf;

fn path(p: &str) -> PathBuf {
    PathBuf::from(p)
}

fn args() -> CliArgs {
    CliArgs {
        paths: None,
        threads: None,
        size_format: Some("decimal".to_string()),
        verbose: false,
        directories: Some("auto".to_string()),
        list: false,
        apparent_size: false,
    }
}

#[test]
fn the_programs() {
    let diskus = run_diskus();
    assert_eq!(diskus.name, "diskus");
    assert_eq!(diskus.about, "Compute disk usage for the given filesystem entries");
    assert!(diskus.include_list && !diskus.force_list);
    let ku = run_ku();
    assert_eq!(ku.name, "ku");
    assert_eq!(
        ku.about,
        "Print a sorted direct-child disk usage chart with a total-size footer"
    );
    assert!(!ku.include_list && ku.force_list);
}

#[test]
fn ku_always_prints_the_chart() {
    assert!(plan_run(&run_ku(), args()).list);
    assert!(!plan_run(&run_diskus(), args()).list);
    let mut a = args();
    a.list = true;
    assert!(plan_run(&run_diskus(), a).list);
}

#[test]
fn plan_defaults() {
    let plan = plan_run(&run_diskus(), args());
    assert_eq!(plan.disk_usage.root_directories(), &[path(".")]);
    assert_eq!(plan.size_format, SizeFormat::Decimal);
    assert_eq!(plan.disk_usage.counted_type(), CountType::DiskUsage);
    assert_eq!(plan.disk_usage.directories_mode(), Directories::Auto);
    assert_eq!(plan.disk_usage.worker_count(Some(4)), 12);
    assert!(!plan.verbose);
}

#[test]
fn plan_reads_the_options() {
    let a = CliArgs {
        paths: Some(vec!["/a".to_string(), "/b".to_string()]),
        threads: Some("7".to_string()),
        size_format: Some("binary".to_string()),
        verbose: true,
        directories: Some("excluded".to_string()),
        list: true,
        apparent_size: true,
    };
    let plan = plan_run(&run_diskus(), a);
    assert_eq!(plan.disk_usage.root_directories(), &[path("/a"), path("/b")]);
    assert_eq!(plan.disk_usage.worker_count(Some(4)), 7);
    assert_eq!(plan.size_format, SizeFormat::Binary);
    assert_eq!(plan.disk_usage.counted_type(), CountType::ApparentSize);
    assert_eq!(plan.disk_usage.directories_mode(), Directories::Excluded);
    assert!(plan.verbose && plan.list);

    let mut a = args();
    a.threads = Some("many".to_string());
    a.directories = Some("included".to_string());
    a.size_format = None;
    let plan = plan_run(&run_diskus(), a);
    assert_eq!(plan.disk_usage.worker_count(Some(1)), 3);
    assert_eq!(plan.disk_usage.directories_mode(), Directories::Included);
    assert_eq!(plan.size_format, SizeFormat::Binary);
}

#[test]
fn error_messages() {
    assert_eq!(
        error_message(&Error::NoMetadataForPath(path("/x"))),
        "diskus: could not retrieve metadata for path '/x'"
    );
    assert_eq!(
        error_message(&Error::CouldNotReadDir(path("/d"))),
        "diskus: could not read contents of directory '/d'"
    );
}

fn result_of(messages: Vec<Message>) -> diskus::DiskUsageResult {
    let mut t = Tally::new();
    for m in messages {
        t.record(m);
    }
    t.finish()
}

#[test]
fn total_on_a_terminal_and_in_a_pipe() {
    let result = result_of(vec![Message::SizeEntry(None, 1_234_567)]);
    let on_terminal = result_report(&result, SizeFormat::Decimal, false, true);
    assert!(on_terminal.stderr.is_empty());
    assert_eq!(on_terminal.stdout, vec!["1.23 MB (1,234,567 bytes)".to_string()]);
    let binary = result_report(&result, SizeFormat::Binary, false, true);
    assert_eq!(binary.stdout, vec!["1.18 MiB (1,234,567 bytes)".to_string()]);
    let piped = result_report(&result, SizeFormat::Decimal, false, false);
    assert_eq!(piped.stdout, vec!["1234567".to_string()]);
}

#[test]
fn errors_are_printed_or_summarized() {
    let result = result_of(vec![
        Message::SizeEntry(None, 300),
        Message::Error { error: Error::NoMetadataForPath(path("/x")) },
    ]);
    let quiet = result_report(&result, SizeFormat::Decimal, false, false);
    assert_eq!(
        quiet.stderr,
        vec!["[diskus warning] the results may be tainted. Re-run with -v/--verbose to print all errors.".to_string()]
    );
    assert_eq!(quiet.stdout, vec!["300".to_string()]);
    let verbose = result_report(&result, SizeFormat::Decimal, true, false);
    assert_eq!(
        verbose.stderr,
        vec!["diskus: could not retrieve metadata for path '/x'".to_string()]
    );
}

fn chart_result(entries: &[(&str, u64)]) -> diskus::DiskUsageEntriesResult {
    let mut t = EntriesTally::new(entries.len());
    for (index, (_, size)) in entries.iter().enumerate() {
        t.record(EntryMessage::SizeEntry { index, unique_id: None, size: *size });
    }
    t.finish(entries.iter().map(|(p, _)| path(p)).collect(), vec![])
}

#[test]
fn chart_of_direct_children() {
    let result = chart_result(&[
        ("/tmp/t/alpha-50-byte", 50),
        ("/tmp/t/beta-70-byte", 70),
        ("/tmp/t/dir", 230),
    ]);
    let roots = vec![path("/tmp/t")];
    let shares = vec!["14.3%".to_string(), "20.0%".to_string(), "65.7%".to_string()];
    let report = entries_report(&result, &roots, SizeFormat::Decimal, false, &shares).unwrap();
    assert!(report.stderr.is_empty());
    let lines = &report.stdout;
    assert_eq!(lines.len(), 6);
    for heading in ["Size", "Share", "Usage", "Path"] {
        assert!(lines[0].contains(heading));
    }
    assert!(lines[1].ends_with("/dir") && lines[1].contains("230 B") && lines[1].contains("65.7%"));
    assert!(lines[2].ends_with("/beta-70-byte") && lines[2].contains("70 B") && lines[2].contains("20.0%"));
    assert!(lines[3].ends_with("/alpha-50-byte") && lines[3].contains("50 B") && lines[3].contains("14.3%"));
    assert_eq!(lines[5], "Total size: 350 B (350 bytes)");
}

#[test]
fn chart_of_two_files() {
    let result = chart_result(&[("/t/small-50-byte", 50), ("/t/large-100-byte", 100)]);
    let roots = vec![path("/t")];
    let shares = vec!["33.3%".to_string(), "66.7%".to_string()];
    let report = entries_report(&result, &roots, SizeFormat::Decimal, false, &shares).unwrap();
    let lines = &report.stdout;
    assert_eq!(lines.len(), 5);
    assert!(lines[1].ends_with("/large-100-byte") && lines[1].contains("100 B") && lines[1].contains("66.7%"));
    assert!(lines[2].ends_with("/small-50-byte") && lines[2].contains("50 B") && lines[2].contains("33.3%"));
    assert_eq!(lines[4], "Total size: 150 B (150 bytes)");
    assert_eq!(lines[3], "─".repeat(5 + 5 + 40 + 15 + 6));
}

#[test]
fn chart_errors_are_listed_in_verbose_mode() {
    let mut t = EntriesTally::new(1);
    t.record(EntryMessage::Error { index: 0, error: Error::CouldNotReadDir(path("/t/d")) });
    let result = t.finish(
        vec![path("/t/d")],
        vec![Error::NoMetadataForPath(path("/gone"))],
    );
    let roots = vec![path("/t")];
    let shares = vec!["0.0%".to_string()];
    let report = entries_report(&result, &roots, SizeFormat::Decimal, true, &shares).unwrap();
    assert_eq!(
        report.stderr,
        vec![
            "diskus: could not retrieve metadata for path '/gone'".to_string(),
            "diskus: could not read contents of directory '/t/d'".to_string(),
        ]
    );
    let quiet = entries_report(&result, &roots, SizeFormat::Decimal, false, &shares).unwrap();
    assert_eq!(quiet.stderr.len(), 1);
    assert_eq!(quiet.stdout[1], format!(" 0 B   0.0%  {}  /d", "░".repeat(40)));
}
