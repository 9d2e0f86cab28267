use diskus::chart::{chart_order, layout_chart, saturating_total, shown_path, ChartRow};
use diskus::{display_path, format_bar, separator, BAR_WIDTH};
use std::path::PathBuf;

#[test]
fn format_bar_uses_eighth_cell_steps() {
    let bar = format_bar(1, 320);

    assert_eq!(bar, format!("{}{}", "▏", "░".repeat(39)));
    assert_eq!(bar.chars().count(), BAR_WIDTH as usize);
}

#[test]
fn format_bar_keeps_full_bar_width() {
    let bar = format_bar(320, 320);

    assert_eq!(bar, "█".repeat(BAR_WIDTH as usize));
    assert_eq!(bar.chars().count(), BAR_WIDTH as usize);
}

#[test]
fn format_bar_is_empty_for_an_empty_total() {
    assert_eq!(format_bar(0, 0), "░".repeat(40));
    assert_eq!(format_bar(5, 0), "░".repeat(40));
}

#[test]
fn format_bar_rounds_to_the_nearest_eighth() {
    // 230 of 350 is 210.3 eighths: 26 full cells and 2 eighths.
    let bar = format_bar(230, 350);
    assert_eq!(bar, format!("{}{}{}", "█".repeat(26), "▎", "░".repeat(13)));
    // Half of the bar exactly.
    assert_eq!(format_bar(1, 2), format!("{}{}", "█".repeat(20), "░".repeat(20)));
}

#[test]
fn format_bar_shows_a_tiny_share() {
    let bar = format_bar(1, 1_000_000);
    assert_eq!(bar, format!("{}{}", "▏", "░".repeat(39)));
    assert_eq!(format_bar(0, 1_000_000), "░".repeat(40));
}

#[test]
fn format_bar_never_exceeds_the_width() {
    assert_eq!(format_bar(1000, 10), "█".repeat(40));
    assert_eq!(format_bar(u64::MAX, u64::MAX).chars().count(), 40);
    assert_eq!(format_bar(u64::MAX, 1).chars().count(), 40);
}

#[test]
fn separator_repeats_the_line_character() {
    assert_eq!(separator(3), "───");
    assert_eq!(separator(0), "");
}

#[test]
fn display_path_is_relative_to_the_first_matching_root() {
    let roots = vec![PathBuf::from("/tmp/a"), PathBuf::from("/srv")];
    let show = |p: &str| display_path(&PathBuf::from(p), &roots);
    assert_eq!(show("/tmp/a/dir"), "/dir");
    assert_eq!(show("/srv/x/y"), "/x/y");
    assert_eq!(show("/tmp/a"), "/tmp/a");
    assert_eq!(show("/elsewhere/f"), "/elsewhere/f");
    assert_eq!(show("/tmp/ab"), "/tmp/ab");
}

#[test]
fn shown_path_prefixes_a_slash() {
    assert_eq!(shown_path("/r/x", "x"), "/x");
    assert_eq!(shown_path("/r", ""), "/r");
}

#[test]
fn chart_order_is_largest_first_and_stable() {
    assert_eq!(chart_order(&[50, 70, 230]), vec![2, 1, 0]);
    assert_eq!(chart_order(&[5, 9, 5, 1, 9]), vec![1, 4, 0, 2, 3]);
    assert_eq!(chart_order(&[]), Vec::<usize>::new());
}

#[test]
fn saturating_total_stops_at_the_maximum() {
    assert_eq!(saturating_total(&[50, 70, 230]), 350);
    assert_eq!(saturating_total(&[u64::MAX, 1, 2]), u64::MAX);
    assert_eq!(saturating_total(&[]), 0);
}

#[test]
fn layout_chart_aligns_columns() {
    let rows = vec![ChartRow {
        size: "70 B".to_string(),
        share: "100.0%".to_string(),
        bar: format_bar(70, 70),
        path: "/beta".to_string(),
    }];
    let lines = layout_chart(&rows, "70 B", "70").unwrap();
    assert_eq!(lines.len(), 4);
    assert_eq!(
        lines[0],
        format!("Size   Share  Usage{}  Path", " ".repeat(35))
    );
    assert_eq!(lines[1], format!("70 B  100.0%  {}  /beta", "█".repeat(40)));
    assert_eq!(lines[2], "─".repeat(4 + 6 + 40 + 5 + 6));
    assert_eq!(lines[3], "Total size: 70 B (70 bytes)");
}

#[test]
fn format_bar_shows_every_non_zero_size() {
    assert!(format_bar(1, u64::MAX).starts_with('▏'));
    assert!(!format_bar(3, 1_000).starts_with('░'));
    assert_eq!(format_bar(0, 7), "░".repeat(40));
    assert_eq!(format_bar(7, 7), "█".repeat(40));
}

fn fill(bar: &str) -> usize {
    let partial = ["", "▏", "▎", "▍", "▌", "▋", "▊", "▉"];
    let full = bar.chars().filter(|&c| c == '█').count();
    let part = bar
        .chars()
        .find(|&c| c != '█' && c != '░')
        .map(|c| partial.iter().position(|p| p.starts_with(c)).unwrap())
        .unwrap_or(0);
    8 * full + part
}

#[test]
fn format_bar_grows_with_the_size() {
    let total = 997;
    let mut previous = 0;
    for size in 0..=total {
        let f = fill(&format_bar(size, total));
        assert!(f >= previous, "size {size}");
        previous = f;
    }
    assert_eq!(previous, 320);
}
