//! The decisions of the command-line programs: what their arguments mean,
//! and the text they print.

use vstd::prelude::*;
use vstd::string::*;
use crate::chart::{
    bar_chars, chart_lines, chart_order, display_of, display_path, format_bar, is_chart_order,
    layout_chart, saturated_sum, saturating_total, table_width, texts, ChartRow, RowText,
};
use crate::outside::{format_size_text, grouped_decimal, human_size, lossy_text, path_from_text, path_text, written_size};
use std::path::PathBuf;
use crate::text::{decimal_digits, decimal_string, grouped_digits, parse_usize, parsed_usize, str_equals};
use crate::walk::{
    CountType, Directories, DiskUsage, DiskUsageEntriesResult, DiskUsageEntry, DiskUsageResult,
    Error,
};

verus! {

/// How sizes are written: with SI units (`MB`) or binary units (`MiB`).
#[derive(Clone, Copy, Debug, PartialEq, Eq, Structural)]
pub enum SizeFormat {
    Decimal,
    Binary,
}

/// What a program prints: lines for standard error, then lines for
/// standard output.
#[derive(Debug)]
pub struct Report {
    pub stderr: Vec<String>,
    pub stdout: Vec<String>,
}

// ---------------------------------------------------------------------------
// Errors.

/// The message printed for an error.
pub open spec fn error_text(e: Error) -> Seq<char> {
    match e {
        Error::NoMetadataForPath(path) => "diskus: could not retrieve metadata for path '"@
            + path_text(path) + "'"@,
        Error::CouldNotReadDir(path) => "diskus: could not read contents of directory '"@
            + path_text(path) + "'"@,
    }
}

/// The message printed for an error.
pub fn error_message(e: &Error) -> (s: String)
    ensures
        s@ == error_text(*e),
{
    let mut s = match e {
        Error::NoMetadataForPath(path) => {
            let mut s = String::from_str("diskus: could not retrieve metadata for path '");
            s.append(lossy_text(path).as_str());
            s
        },
        Error::CouldNotReadDir(path) => {
            let mut s = String::from_str("diskus: could not read contents of directory '");
            s.append(lossy_text(path).as_str());
            s
        },
    };
    s.append("'");
    s
}

/// The messages of errors, in order.
pub open spec fn error_lines(errors: Seq<Error>) -> Seq<Seq<char>> {
    errors.map_values(|e: Error| error_text(e))
}

/// The warning printed, short of the errors themselves, when some occurred.
pub open spec fn tainted_warning() -> Seq<char> {
    "[diskus warning] the results may be tainted. Re-run with -v/--verbose to print all errors."@
}

/// Appends the messages of `errors` to `lines`.
fn push_error_lines(lines: &mut Vec<String>, errors: &[Error])
    ensures
        texts(final(lines)@) == texts(old(lines)@) + error_lines(errors@),
{
    let mut k: usize = 0;
    while k < errors.len()
        invariant
            k <= errors@.len(),
            texts(lines@) == texts(old(lines)@) + error_lines(errors@.take(k as int)),
        decreases errors@.len() - k,
    {
        let ghost before = lines@;
        lines.push(error_message(&errors[k]));
        assert(texts(lines@) =~= texts(before).push(error_text(errors@[k as int])));
        assert(error_lines(errors@.take(k + 1)) =~= error_lines(errors@.take(k as int)).push(
            error_text(errors@[k as int]),
        ));
        assert(texts(lines@) =~= texts(old(lines)@) + error_lines(errors@.take(k + 1)));
        k = k + 1;
    }
    assert(errors@.take(k as int) =~= errors@);
}

/// The warning line.
fn warning_line() -> (s: String)
    ensures
        s@ == tainted_warning(),
{
    String::from_str(
        "[diskus warning] the results may be tainted. Re-run with -v/--verbose to print all errors.",
    )
}

// ---------------------------------------------------------------------------
// The total of a count.

/// The line that shows a total: human-readable with the exact number of
/// bytes on a terminal, the bare number otherwise.
pub open spec fn total_line(size: u64, size_format: SizeFormat, is_terminal: bool) -> Seq<char> {
    if is_terminal {
        human_size(size, size_format) + " ("@ + grouped_digits(size as nat) + " bytes)"@
    } else {
        decimal_digits(size as nat)
    }
}

/// What the total of a count prints: every error if `verbose`, else a
/// warning if any occurred; then the total.
pub fn result_report(result: &DiskUsageResult, size_format: SizeFormat, verbose: bool, is_terminal: bool) -> (r: Report)
    ensures
        texts(r.stderr@) == if verbose {
            error_lines(result.problems())
        } else if result.problems().len() > 0 {
            seq![tainted_warning()]
        } else {
            Seq::empty()
        },
        texts(r.stdout@) == seq![total_line(result.total(), size_format, is_terminal)],
        is_terminal ==> texts(r.stdout@) == seq![
            written_size(result.total(), size_format) + " ("@ + grouped_digits(result.total() as nat)
                + " bytes)"@,
        ],
{
    let mut stderr: Vec<String> = Vec::new();
    if verbose {
        push_error_lines(&mut stderr, result.errors());
    } else if !result.is_ok() {
        stderr.push(warning_line());
    }
    let size = result.ignore_errors().size_in_bytes();
    let line = if is_terminal {
        let mut line = format_size_text(size, size_format);
        line.append(" (");
        line.append(grouped_decimal(size).as_str());
        line.append(" bytes)");
        line
    } else {
        decimal_string(size)
    };
    let mut stdout: Vec<String> = Vec::new();
    stdout.push(line);
    assert(texts(stderr@) =~= if verbose {
        error_lines(result.problems())
    } else if result.problems().len() > 0 {
        seq![tainted_warning()]
    } else {
        Seq::empty()
    });
    assert(texts(stdout@) =~= seq![total_line(result.total(), size_format, is_terminal)]);
    Report { stderr, stdout }
}

// ---------------------------------------------------------------------------
// The direct-child chart.

/// The sizes of the entries, in order.
pub open spec fn entry_sizes(entries: Seq<DiskUsageEntry>) -> Seq<u64> {
    entries.map_values(|e: DiskUsageEntry| e.entry_result().total())
}

/// The messages of the errors of each entry, entry after entry.
pub open spec fn entry_error_lines(entries: Seq<DiskUsageEntry>) -> Seq<Seq<char>>
    decreases entries.len(),
{
    if entries.len() == 0 {
        Seq::empty()
    } else {
        entry_error_lines(entries.drop_last()) + error_lines(entries.last().entry_result().problems())
    }
}

/// What the chart prints on standard error: every error (those of the roots,
/// then those of each entry) if `verbose`, else a warning if any occurred.
pub open spec fn chart_error_lines(result: DiskUsageEntriesResult, verbose: bool) -> Seq<Seq<char>> {
    if verbose {
        error_lines(result.problems()) + entry_error_lines(result.entry_results())
    } else if !(result.problems().len() == 0 && crate::walk::all_entries_ok(result.entry_results())) {
        seq![tainted_warning()]
    } else {
        Seq::empty()
    }
}

/// The texts of the chart's rows, in the order `order`: each entry's size,
/// its share (`shares` are given per entry, in the entries' order), its bar
/// against `total`, and its path shown relative to the roots.
pub open spec fn chart_row_texts(
    entries: Seq<DiskUsageEntry>,
    order: Seq<usize>,
    roots: Seq<PathBuf>,
    size_format: SizeFormat,
    shares: Seq<String>,
    total: u64,
) -> Seq<RowText> {
    Seq::new(
        order.len(),
        |k: int|
            {
                let i = order[k] as int;
                let size = entries[i].entry_result().total();
                (
                    human_size(size, size_format),
                    shares[i]@,
                    bar_chars(size, total),
                    display_of(entries[i].entry_path(), roots),
                )
            },
    )
}

/// Builds the rows of the chart in the order `order`.
fn chart_rows(
    entries: &[DiskUsageEntry],
    sizes: &Vec<u64>,
    order: &Vec<usize>,
    roots: &[PathBuf],
    size_format: SizeFormat,
    shares: &[String],
    total: u64,
) -> (rows: Vec<ChartRow>)
    requires
        sizes@ == entry_sizes(entries@),
        shares@.len() == entries@.len(),
        is_chart_order(sizes@, order@),
    ensures
        crate::chart::row_texts(rows@) == chart_row_texts(entries@, order@, roots@, size_format, shares@, total),
{
    let mut rows: Vec<ChartRow> = Vec::new();
    let mut k: usize = 0;
    let ghost expected = chart_row_texts(entries@, order@, roots@, size_format, shares@, total);
    while k < order.len()
        invariant
            k <= order@.len(),
            sizes@ == entry_sizes(entries@),
            shares@.len() == entries@.len(),
            is_chart_order(sizes@, order@),
            expected == chart_row_texts(entries@, order@, roots@, size_format, shares@, total),
            rows@.len() == k,
            forall|j: int| 0 <= j < k ==> crate::chart::row_text(#[trigger] rows@[j]) == expected[j],
        decreases order@.len() - k,
    {
        let i = order[k];
        let size = sizes[i];
        let row = ChartRow {
            size: format_size_text(size, size_format),
            share: shares[i].clone(),
            bar: format_bar(size, total),
            path: display_path(entries[i].path(), roots),
        };
        rows.push(row);
        k = k + 1;
    }
    assert(crate::chart::row_texts(rows@) =~= expected);
    rows
}

/// The chart of the direct children: on standard output a table with a
/// row per entry (largest first, equal sizes in their listed order), a
/// separator and the total; on standard error the errors (if `verbose`) or a
/// warning. `shares` holds the share text of each entry, in the entries'
/// order. `None` where the table's width does not fit in a `usize`.
pub fn entries_report(
    result: &DiskUsageEntriesResult,
    roots: &[PathBuf],
    size_format: SizeFormat,
    verbose: bool,
    shares: &[String],
) -> (r: Option<Report>)
    requires
        shares@.len() == result.entry_results().len(),
    ensures
        ({
            let entries = result.entry_results();
            let sizes = entry_sizes(entries);
            let total = saturated_sum(sizes) as u64;
            exists|order: Seq<usize>|
                {
                    &&& #[trigger] is_chart_order(sizes, order)
                    &&& match r {
                        Some(report) => {
                            &&& texts(report.stderr@) == chart_error_lines(*result, verbose)
                            &&& texts(report.stdout@) == chart_lines(
                                chart_row_texts(entries, order, roots@, size_format, shares@, total),
                                human_size(total, size_format),
                                grouped_digits(total as nat),
                            )
                        },
                        None => table_width(
                            chart_row_texts(entries, order, roots@, size_format, shares@, total),
                            human_size(total, size_format),
                        ) > usize::MAX,
                    }
                }
        }),
        human_size(saturated_sum(entry_sizes(result.entry_results())) as u64, size_format)
            == written_size(saturated_sum(entry_sizes(result.entry_results())) as u64, size_format),
{
    let entries = result.entries();
    let mut sizes: Vec<u64> = Vec::new();
    let mut k: usize = 0;
    while k < entries.len()
        invariant
            k <= entries@.len(),
            entries@ == result.entry_results(),
            sizes@ == entry_sizes(entries@.take(k as int)),
        decreases entries@.len() - k,
    {
        sizes.push(entries[k].result().ignore_errors().size_in_bytes());
        assert(entry_sizes(entries@.take(k + 1)) =~= entry_sizes(entries@.take(k as int)).push(
            entries@[k as int].entry_result().total(),
        ));
        k = k + 1;
    }
    assert(entries@.take(k as int) =~= entries@);
    let total = saturating_total(sizes.as_slice());
    let order = chart_order(sizes.as_slice());
    let rows = chart_rows(entries, &sizes, &order, roots, size_format, shares, total);
    let total_text = format_size_text(total, size_format);
    let grouped = grouped_decimal(total);
    let lines = layout_chart(rows.as_slice(), total_text.as_str(), grouped.as_str());
    assert(is_chart_order(entry_sizes(result.entry_results()), order@));
    match lines {
        None => None,
        Some(stdout) => {
            let mut stderr: Vec<String> = Vec::new();
            if verbose {
                push_error_lines(&mut stderr, result.errors());
                let mut k: usize = 0;
                while k < entries.len()
                    invariant
                        k <= entries@.len(),
                        entries@ == result.entry_results(),
                        texts(stderr@) == error_lines(result.problems()) + entry_error_lines(
                            entries@.take(k as int),
                        ),
                    decreases entries@.len() - k,
                {
                    let ghost before = stderr@;
                    push_error_lines(&mut stderr, entries[k].result().errors());
                    assert(entries@.take(k + 1).drop_last() =~= entries@.take(k as int));
                    assert(texts(stderr@) =~= error_lines(result.problems()) + entry_error_lines(
                        entries@.take(k + 1),
                    ));
                    k = k + 1;
                }
                assert(entries@.take(k as int) =~= entries@);
            } else if !result.is_ok() {
                stderr.push(warning_line());
            }
            assert(texts(stderr@) =~= chart_error_lines(*result, verbose));
            Some(Report { stderr, stdout })
        },
    }
}

// ---------------------------------------------------------------------------
// The programs and their arguments.

/// A command-line program: its name, what it does, whether it offers the
/// chart as an option (`--list`), and whether it always prints the chart.
#[derive(Debug)]
pub struct CliProgram {
    pub name: String,
    pub about: String,
    pub include_list: bool,
    pub force_list: bool,
}

/// The `diskus` program: prints the total, or the chart with `--list`.
pub fn run_diskus() -> (p: CliProgram)
    ensures
        p.name@ == "diskus"@,
        p.about@ == "Compute disk usage for the given filesystem entries"@,
        p.include_list,
        !p.force_list,
{
    CliProgram {
        name: String::from_str("diskus"),
        about: String::from_str("Compute disk usage for the given filesystem entries"),
        include_list: true,
        force_list: false,
    }
}

/// The `ku` program: always prints the chart.
pub fn run_ku() -> (p: CliProgram)
    ensures
        p.name@ == "ku"@,
        p.about@ == "Print a sorted direct-child disk usage chart with a total-size footer"@,
        !p.include_list,
        p.force_list,
{
    CliProgram {
        name: String::from_str("ku"),
        about: String::from_str(
            "Print a sorted direct-child disk usage chart with a total-size footer",
        ),
        include_list: false,
        force_list: true,
    }
}

/// The arguments of a program, as given on the command line.
#[derive(Debug)]
pub struct CliArgs {
    /// The paths given, if any.
    pub paths: Option<Vec<String>>,
    /// The value of `--threads`, if given.
    pub threads: Option<String>,
    /// The value of `--size-format`, if given.
    pub size_format: Option<String>,
    /// Whether `--verbose` was given.
    pub verbose: bool,
    /// The value of `--directories`, if given.
    pub directories: Option<String>,
    /// Whether `--list` was given.
    pub list: bool,
    /// Whether `--apparent-size` was given.
    pub apparent_size: bool,
}

/// What a program does with its arguments.
#[derive(Debug)]
pub struct RunPlan {
    /// The configured count; its roots are those against which the chart
    /// shows paths.
    pub disk_usage: DiskUsage,
    pub size_format: SizeFormat,
    pub verbose: bool,
    /// Whether the chart is printed rather than the total.
    pub list: bool,
}

/// The paths counted: those given, or the current directory.
pub open spec fn planned_roots(paths: Option<Vec<String>>) -> Seq<Seq<char>> {
    match paths {
        Some(p) => texts(p@),
        None => seq!["."@],
    }
}

/// Whether `value` is given and is `word`.
pub open spec fn given_as(value: Option<String>, word: Seq<char>) -> bool {
    match value {
        Some(v) => v@ == word,
        None => false,
    }
}

/// The number of workers asked for: the value of `--threads` where it reads
/// as a number.
pub open spec fn planned_workers(threads: Option<String>) -> Option<usize> {
    match threads {
        Some(t) => match parsed_usize(t@) {
            Some(n) => Some(n as usize),
            None => None,
        },
        None => None,
    }
}

/// Whether `value` is given and is `word`.
fn is_given_as(value: &Option<String>, word: &str) -> (b: bool)
    ensures
        b == given_as(*value, word@),
{
    match value {
        Some(v) => str_equals(v.as_str(), word),
        None => false,
    }
}

/// Decides what a program does with its arguments: which paths it counts
/// (the current directory when none is given), with how many workers (the
/// value of `--threads` where it reads as a number, else the default), which
/// size (apparent with `--apparent-size`), whether directories count
/// (`included`, `excluded`, else automatic), how sizes are written (decimal
/// only for `decimal`), and whether it prints the chart: always for a
/// program that forces it, with `--list` for one that offers it.
pub fn plan_run(program: &CliProgram, args: CliArgs) -> (plan: RunPlan)
    ensures
        plan.disk_usage.roots().map_values(|p: PathBuf| path_text(p)) == planned_roots(args.paths),
        plan.disk_usage.workers() == planned_workers(args.threads),
        plan.disk_usage.counted() == if args.apparent_size {
            CountType::ApparentSize
        } else {
            CountType::DiskUsage
        },
        plan.disk_usage.directory_mode() == if given_as(args.directories, "included"@) {
            Directories::Included
        } else if given_as(args.directories, "excluded"@) {
            Directories::Excluded
        } else {
            Directories::Auto
        },
        plan.size_format == if given_as(args.size_format, "decimal"@) {
            SizeFormat::Decimal
        } else {
            SizeFormat::Binary
        },
        plan.verbose == args.verbose,
        plan.list == (program.force_list || (program.include_list && args.list)),
{
    let num_workers = match &args.threads {
        Some(t) => parse_usize(t.as_str()),
        None => None,
    };
    let texts_given: Vec<String> = match args.paths {
        Some(p) => p,
        None => {
            let mut v: Vec<String> = Vec::new();
            v.push(String::from_str("."));
            v
        },
    };
    assert(texts(texts_given@) =~= planned_roots(args.paths));
    let mut roots: Vec<PathBuf> = Vec::new();
    let mut k: usize = 0;
    while k < texts_given.len()
        invariant
            k <= texts_given@.len(),
            roots@.len() == k,
            forall|j: int| 0 <= j < k ==> path_text(#[trigger] roots@[j]) == texts_given@[j]@,
        decreases texts_given@.len() - k,
    {
        roots.push(path_from_text(texts_given[k].as_str()));
        k = k + 1;
    }
    assert(roots@.map_values(|p: PathBuf| path_text(p)) =~= texts(texts_given@));
    let count_type = if args.apparent_size {
        CountType::ApparentSize
    } else {
        CountType::DiskUsage
    };
    let size_format = if is_given_as(&args.size_format, "decimal") {
        SizeFormat::Decimal
    } else {
        SizeFormat::Binary
    };
    let directories = if is_given_as(&args.directories, "included") {
        Directories::Included
    } else if is_given_as(&args.directories, "excluded") {
        Directories::Excluded
    } else {
        Directories::Auto
    };
    let mut disk_usage = DiskUsage::new(roots).count_type(count_type).directories(
        directories,
    );
    match num_workers {
        Some(n) => {
            disk_usage = disk_usage.num_workers(n);
        },
        None => {},
    }
    RunPlan {
        disk_usage,
        size_format,
        verbose: args.verbose,
        list: program.force_list || (program.include_list && args.list),
    }
}

} // verus!
