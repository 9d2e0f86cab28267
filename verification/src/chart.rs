//! The direct-child chart: bars, the order of the rows, the paths shown and
//! the table that holds them.

use vstd::prelude::*;
use vstd::string::*;
use crate::outside::{lossy_text, path_text, relative_path, strip_path_prefix};
use std::path::PathBuf;
use crate::text::{byte_len, pad_left, pad_right, push_padded_left, push_padded_right, push_repeated, repeat_char};

verus! {

/// The width of a bar, in character cells.
pub const BAR_WIDTH: u64 = 40;

/// The steps into which a cell of a bar is divided.
pub const BAR_PARTS_PER_CELL: u64 = 8;

/// The eighths of cells that a bar for `size` out of `total` fills: the
/// share rounded to the nearest eighth (half away from zero), taken modulo
/// 2^64, at least one eighth for a non-zero size, and at most the full bar.
pub open spec fn filled_eighths(size: u64, total: u64) -> int {
    let rounded = (size * 320 + total / 2) / (total as int);
    let truncated = rounded % 0x1_0000_0000_0000_0000;
    let visible = if truncated == 0 && size > 0 {
        1
    } else {
        truncated
    };
    if visible < 320 {
        visible
    } else {
        320
    }
}

/// The block character that fills `p` eighths of a cell (none for 0).
pub open spec fn partial_block(p: int) -> Seq<char> {
    if p == 1 {
        seq!['▏']
    } else if p == 2 {
        seq!['▎']
    } else if p == 3 {
        seq!['▍']
    } else if p == 4 {
        seq!['▌']
    } else if p == 5 {
        seq!['▋']
    } else if p == 6 {
        seq!['▊']
    } else if p == 7 {
        seq!['▉']
    } else {
        Seq::empty()
    }
}

/// The bar for `size` out of `total`: full cells, then a partial cell if
/// any, then empty cells up to the bar's width; all empty when `total` is 0.
pub open spec fn bar_chars(size: u64, total: u64) -> Seq<char> {
    if total == 0 {
        repeat_char('░', 40)
    } else {
        let filled = filled_eighths(size, total);
        let full = filled / 8;
        let partial = filled % 8;
        let empty = 40 - full - if partial > 0 {
            1int
        } else {
            0int
        };
        repeat_char('█', full as nat) + partial_block(partial) + repeat_char('░', empty as nat)
    }
}

/// The one-character string that fills `p` eighths of a cell (empty for 0).
fn partial_block_str(p: u64) -> (r: &'static str)
    requires
        p < 8,
    ensures
        r@ == partial_block(p as int),
{
    proof {
        reveal_strlit("");
        reveal_strlit("▏");
        reveal_strlit("▎");
        reveal_strlit("▍");
        reveal_strlit("▌");
        reveal_strlit("▋");
        reveal_strlit("▊");
        reveal_strlit("▉");
    }
    let r = if p == 1 {
        "▏"
    } else if p == 2 {
        "▎"
    } else if p == 3 {
        "▍"
    } else if p == 4 {
        "▌"
    } else if p == 5 {
        "▋"
    } else if p == 6 {
        "▊"
    } else if p == 7 {
        "▉"
    } else {
        ""
    };
    assert(r@ =~= partial_block(p as int));
    r
}

/// The usage bar of an entry of `size` bytes in a chart of `total_size`
/// bytes. It is always `BAR_WIDTH` characters wide.
pub fn format_bar(size: u64, total_size: u64) -> (bar: String)
    ensures
        bar@ == bar_chars(size, total_size),
        bar@.len() == BAR_WIDTH,
{
    let mut bar = String::new();
    proof {
        reveal_strlit("█");
        reveal_strlit("░");
    }
    if total_size == 0 {
        push_repeated(&mut bar, "░", BAR_WIDTH as usize);
        assert(bar@ =~= bar_chars(size, total_size));
        return bar;
    }
    let bar_parts: u64 = BAR_WIDTH * BAR_PARTS_PER_CELL;
    assert(bar_parts == 320);
    assert((size as u128) * (bar_parts as u128) == size * 320);
    let rounded: u128 = ((size as u128) * (bar_parts as u128) + (total_size as u128) / 2)
        / (total_size as u128);
    let mut filled_parts: u64 = (rounded % 0x1_0000_0000_0000_0000u128) as u64;
    if filled_parts == 0 && size > 0 {
        filled_parts = 1;
    }
    if filled_parts > bar_parts {
        filled_parts = bar_parts;
    }
    assert(filled_parts == filled_eighths(size, total_size));
    let full_cells = filled_parts / BAR_PARTS_PER_CELL;
    let partial_cell = filled_parts % BAR_PARTS_PER_CELL;
    let partial_cells: u64 = if partial_cell > 0 { 1 } else { 0 };
    let empty_cells = BAR_WIDTH - full_cells - partial_cells;
    push_repeated(&mut bar, "█", full_cells as usize);
    bar.append(partial_block_str(partial_cell));
    push_repeated(&mut bar, "░", empty_cells as usize);
    assert(bar@ =~= bar_chars(size, total_size));
    bar
}

/// An entry of size zero has an empty bar.
pub proof fn lemma_zero_size_empty_bar(total: u64)
    ensures
        bar_chars(0, total) =~= repeat_char('░', 40),
{
    if total > 0 {
        assert(((total / 2) as int) / (total as int) == 0) by (nonlinear_arith)
            requires
                total > 0,
        ;
        assert(filled_eighths(0, total) == 0);
    }
}

/// An entry that makes up the whole total has a full bar.
pub proof fn lemma_whole_total_full_bar(total: u64)
    requires
        total > 0,
    ensures
        bar_chars(total, total) =~= repeat_char('█', 40),
{
    assert((total * 320 + total / 2) / (total as int) == 320) by (nonlinear_arith)
        requires
            total > 0,
    ;
    assert(filled_eighths(total, total) == 320);
}

/// An entry of non-zero size always shows in its bar: the bar does not start
/// with an empty cell.
pub proof fn lemma_nonzero_size_shows(size: u64, total: u64)
    requires
        size > 0,
        total > 0,
    ensures
        bar_chars(size, total)[0] != '░',
{
    let filled = filled_eighths(size, total);
    assert(1 <= filled <= 320);
    if filled / 8 == 0 {
        assert(1 <= filled % 8 <= 7);
    }
}

/// Within the total, a larger entry never gets a shorter bar: the eighths
/// of cells filled grow with the size, and so do the full cells.
pub proof fn lemma_bar_monotone(s1: u64, s2: u64, total: u64)
    requires
        total > 0,
        s1 <= s2 <= total,
    ensures
        filled_eighths(s1, total) <= filled_eighths(s2, total),
        filled_eighths(s1, total) / 8 <= filled_eighths(s2, total) / 8,
{
    let a = s1 * 320 + total / 2;
    let b = s2 * 320 + total / 2;
    let c = total * 320 + total / 2;
    vstd::arithmetic::div_mod::lemma_div_is_ordered(a, b, total as int);
    vstd::arithmetic::div_mod::lemma_div_is_ordered(b, c, total as int);
    assert(c / (total as int) == 320) by (nonlinear_arith)
        requires
            c == total * 320 + total / 2,
            total > 0,
    ;
    assert(a / (total as int) >= 0) by (nonlinear_arith)
        requires
            a >= 0,
            total > 0,
    ;
    assert(filled_eighths(s1, total) <= filled_eighths(s2, total));
    vstd::arithmetic::div_mod::lemma_div_is_ordered(
        filled_eighths(s1, total),
        filled_eighths(s2, total),
        8,
    );
}

/// The bar is proportional to the entry's share of the total: within the
/// total, the eighths of cells filled are `320 * size / total` rounded to
/// the nearest eighth, except that a non-zero size below half an eighth
/// still fills one eighth.
pub proof fn lemma_bar_proportional(size: u64, total: u64)
    requires
        total > 0,
        size <= total,
    ensures
        0 <= filled_eighths(size, total) <= 320,
        if size > 0 && 640 * size < total {
            filled_eighths(size, total) == 1
        } else {
            &&& filled_eighths(size, total) * total - size * 320 <= total / 2
            &&& size * 320 - filled_eighths(size, total) * total <= total / 2
        },
{
    let t = total as int;
    let n = size * 320 + total / 2;
    let q = n / t;
    vstd::arithmetic::div_mod::lemma_fundamental_div_mod(n, t);
    vstd::arithmetic::div_mod::lemma_mod_bound(n, t);
    lemma_bar_monotone(size, total, total);
    assert(n / t <= 320) by {
        vstd::arithmetic::div_mod::lemma_div_is_ordered(n, total * 320 + total / 2, t);
        assert((total * 320 + total / 2) / t == 320) by (nonlinear_arith)
            requires
                t == total,
                total > 0,
        ;
    }
    assert(n >= 0);
    vstd::arithmetic::div_mod::lemma_div_pos_is_pos(n, t);
    assert(q * t <= n < q * t + t) by (nonlinear_arith)
        requires
            n == t * q + n % t,
            0 <= n % t < t,
    ;
    assert(filled_eighths(size, total) == if q == 0 && size > 0 {
        1
    } else {
        q
    });
    if size > 0 && 640 * size < total {
        assert(q * t <= n < t);
        assert(q < 1) by (nonlinear_arith)
            requires
                q * t < t,
                t > 0,
                q >= 0,
        ;
    } else if size > 0 {
        assert(n >= t);
        assert(q >= 1) by (nonlinear_arith)
            requires
                n < q * t + t,
                n >= t,
                t > 0,
        ;
    }
}

/// The bar's cells, given the eighths filled: full cells first, then the
/// partial cell if any, then empty cells, 40 cells in all.
pub proof fn lemma_bar_cells(size: u64, total: u64)
    requires
        total > 0,
    ensures
        ({
            let f = filled_eighths(size, total);
            let bar = bar_chars(size, total);
            &&& bar.len() == 40
            &&& forall|j: int| 0 <= j < f / 8 ==> #[trigger] bar[j] == '█'
            &&& forall|j: int| f / 8 + (if f % 8 > 0 { 1int } else { 0int }) <= j < 40 ==> #[trigger] bar[j] == '░'
            &&& f % 8 > 0 ==> bar[f / 8] != '█' && bar[f / 8] != '░'
        }),
{
    let f = filled_eighths(size, total);
    assert(0 <= f <= 320);
}

/// A line of `width` box-drawing horizontal bars.
pub fn separator(width: usize) -> (line: String)
    ensures
        line@ == repeat_char('─', width as nat),
{
    let mut line = String::new();
    proof {
        reveal_strlit("─");
    }
    push_repeated(&mut line, "─", width);
    line
}

/// How a path is shown when `relative` is what remains of it after a root:
/// the path itself when nothing remains (it is the root), else the
/// remainder after a `/`.
pub open spec fn shown_relative(path: Seq<char>, relative: Seq<char>) -> Seq<char> {
    if relative.len() == 0 {
        path
    } else {
        seq!['/'] + relative
    }
}

/// How `path` is shown, given the roots: relative to the first root that is
/// a prefix of it, or in full when there is none.
pub open spec fn display_of(path: PathBuf, roots: Seq<PathBuf>) -> Seq<char>
    decreases roots.len(),
{
    if roots.len() == 0 {
        path_text(path)
    } else {
        match relative_path(path, roots[0]) {
            Some(relative) => shown_relative(path_text(path), path_text(relative)),
            None => display_of(path, roots.drop_first()),
        }
    }
}

/// Shows `path` given what remains of it after a root.
pub fn shown_path(path: &str, relative: &str) -> (s: String)
    ensures
        s@ == shown_relative(path@, relative@),
{
    if relative.unicode_len() == 0 {
        path.to_owned()
    } else {
        proof {
            reveal_strlit("/");
        }
        let mut s = String::from_str("/");
        s.append(relative);
        assert(s@ =~= shown_relative(path@, relative@));
        s
    }
}

/// Shows `path` relative to the first of `roots` that is a prefix of it.
pub fn display_path(path: &PathBuf, roots: &[PathBuf]) -> (s: String)
    ensures
        s@ == display_of(*path, roots@),
{
    let mut i: usize = 0;
    assert(roots@.skip(0) =~= roots@);
    while i < roots.len()
        invariant
            i <= roots@.len(),
            display_of(*path, roots@) == display_of(*path, roots@.skip(i as int)),
        decreases roots@.len() - i,
    {
        assert(roots@.skip(i as int).drop_first() =~= roots@.skip(i + 1));
        assert(roots@.skip(i as int)[0] == roots@[i as int]);
        match strip_path_prefix(path, &roots[i]) {
            Some(relative) => {
                let text = lossy_text(path);
                let relative_text = lossy_text(&relative);
                return shown_path(text.as_str(), relative_text.as_str());
            },
            None => {},
        }
        i = i + 1;
    }
    lossy_text(path)
}

// ---------------------------------------------------------------------------
// The order of the rows.

/// Entry `a` comes before entry `b` in the chart: it is larger, or as large
/// and listed earlier.
pub open spec fn ranks_before(sizes: Seq<u64>, a: int, b: int) -> bool {
    sizes[a] > sizes[b] || (sizes[a] == sizes[b] && a < b)
}

/// `order` lists indices of `sizes` from `lo` (inclusive) to `hi`
/// (exclusive), each in chart order before the next.
pub open spec fn ranked_run(sizes: Seq<u64>, order: Seq<usize>, lo: int, hi: int) -> bool {
    &&& forall|k: int| 0 <= k < order.len() ==> lo <= #[trigger] order[k] < hi
    &&& forall|j: int, k: int|
        0 <= j < k < order.len() ==> ranks_before(sizes, #[trigger] order[j] as int, #[trigger] order[k] as int)
}

/// `order` is the order of the chart's rows for entries of sizes `sizes`:
/// every index once, largest first, equal sizes in their listed order (the
/// order that a stable sort by decreasing size gives).
pub open spec fn is_chart_order(sizes: Seq<u64>, order: Seq<usize>) -> bool {
    &&& order.len() == sizes.len()
    &&& ranked_run(sizes, order, 0, sizes.len() as int)
}

/// Merges two runs of disjoint index ranges into one run.
fn merge_runs(sizes: &[u64], left: Vec<usize>, right: Vec<usize>, lo: Ghost<int>, mid: Ghost<int>, hi: Ghost<int>) -> (out: Vec<usize>)
    requires
        ranked_run(sizes@, left@, lo@, mid@),
        ranked_run(sizes@, right@, mid@, hi@),
        lo@ <= mid@ <= hi@ <= sizes@.len(),
    ensures
        ranked_run(sizes@, out@, lo@, hi@),
        out@.len() == left@.len() + right@.len(),
{
    let mut out: Vec<usize> = Vec::new();
    let mut i: usize = 0;
    let mut j: usize = 0;
    while i < left.len() || j < right.len()
        invariant
            ranked_run(sizes@, left@, lo@, mid@),
            ranked_run(sizes@, right@, mid@, hi@),
            lo@ <= mid@ <= hi@ <= sizes@.len(),
            i <= left@.len(),
            j <= right@.len(),
            out@.len() == i + j,
            ranked_run(sizes@, out@, lo@, hi@),
            out@.len() > 0 && i < left@.len() ==> ranks_before(sizes@, out@.last() as int, left@[i as int] as int),
            out@.len() > 0 && j < right@.len() ==> ranks_before(sizes@, out@.last() as int, right@[j as int] as int),
        decreases left@.len() + right@.len() - i - j,
    {
        let take_left = if i < left.len() && j < right.len() {
            let a = left[i];
            let b = right[j];
            sizes[a] > sizes[b] || (sizes[a] == sizes[b] && a < b)
        } else {
            i < left.len()
        };
        let ghost before = out@;
        if take_left {
            out.push(left[i]);
            i = i + 1;
        } else {
            out.push(right[j]);
            j = j + 1;
        }
        assert forall|x: int, y: int| 0 <= x < y < out@.len() implies ranks_before(sizes@, #[trigger] out@[x] as int, #[trigger] out@[y] as int) by {
            if y == out@.len() - 1 && x < y - 1 {
                assert(ranks_before(sizes@, before[x] as int, before.last() as int));
            }
        }
    }
    out
}

/// Sorts the indices from `lo` to `hi` into chart order.
fn sort_run(sizes: &[u64], lo: usize, hi: usize) -> (out: Vec<usize>)
    requires
        lo <= hi <= sizes@.len(),
    ensures
        ranked_run(sizes@, out@, lo as int, hi as int),
        out@.len() == hi - lo,
    decreases hi - lo,
{
    if hi - lo <= 1 {
        let mut out: Vec<usize> = Vec::new();
        if hi > lo {
            out.push(lo);
        }
        return out;
    }
    let mid = lo + (hi - lo) / 2;
    let left = sort_run(sizes, lo, mid);
    let right = sort_run(sizes, mid, hi);
    merge_runs(sizes, left, right, Ghost(lo as int), Ghost(mid as int), Ghost(hi as int))
}

/// The order of the chart's rows: indices of `sizes` by decreasing size,
/// equal sizes in their listed order.
pub fn chart_order(sizes: &[u64]) -> (order: Vec<usize>)
    ensures
        is_chart_order(sizes@, order@),
{
    sort_run(sizes, 0, sizes.len())
}

/// Every entry appears in a chart order, exactly once.
pub proof fn lemma_chart_order_lists_every_entry(sizes: Seq<u64>, order: Seq<usize>, i: int)
    requires
        is_chart_order(sizes, order),
        0 <= i < sizes.len(),
    ensures
        order.contains(i as usize),
        forall|j: int, k: int| 0 <= j < order.len() && 0 <= k < order.len() && order[j] == i && order[k] == i ==> j == k,
{
    let n = sizes.len() as int;
    let ints = order.map_values(|x: usize| x as int);
    assert forall|j: int, k: int| 0 <= j < ints.len() && 0 <= k < ints.len() && j != k implies ints[j] != ints[k] by {
        if j < k {
            assert(ranks_before(sizes, order[j] as int, order[k] as int));
        } else {
            assert(ranks_before(sizes, order[k] as int, order[j] as int));
        }
    }
    ints.unique_seq_to_set();
    vstd::set_lib::lemma_int_range(0, n);
    assert forall|x: int| ints.to_set().contains(x) implies vstd::set_lib::set_int_range(0, n).contains(x) by {
        let k = choose|k: int| 0 <= k < ints.len() && ints[k] == x;
        assert(0 <= order[k] < n);
    }
    vstd::set_lib::lemma_len_subset(ints.to_set(), vstd::set_lib::set_int_range(0, n));
    vstd::set_lib::lemma_subset_equality(ints.to_set(), vstd::set_lib::set_int_range(0, n));
    assert(vstd::set_lib::set_int_range(0, n).contains(i));
    assert(ints.to_set().contains(i));
    let k = choose|k: int| 0 <= k < ints.len() && ints[k] == i;
    assert(order[k] == i as usize);
    assert forall|j: int, k: int| 0 <= j < order.len() && 0 <= k < order.len() && order[j] == i && order[k] == i implies j == k by {
        if j != k {
            assert(ints[j] != ints[k]);
        }
    }
}

/// Two runs of the same indices, each in chart order, are the same.
proof fn lemma_ranked_runs_equal(sizes: Seq<u64>, a: Seq<usize>, b: Seq<usize>)
    requires
        forall|j: int, k: int| 0 <= j < k < a.len() ==> ranks_before(sizes, #[trigger] a[j] as int, #[trigger] a[k] as int),
        forall|j: int, k: int| 0 <= j < k < b.len() ==> ranks_before(sizes, #[trigger] b[j] as int, #[trigger] b[k] as int),
        a.to_set() == b.to_set(),
        forall|k: int| 0 <= k < a.len() ==> #[trigger] a[k] < sizes.len(),
        forall|k: int| 0 <= k < b.len() ==> #[trigger] b[k] < sizes.len(),
    ensures
        a == b,
    decreases a.len(),
{
    if a.len() == 0 {
        if b.len() > 0 {
            assert(b.to_set().contains(b[0]));
        }
        assert(a =~= b);
    } else {
        assert(a.to_set().contains(a[0]));
        assert(b.len() > 0);
        assert(b.to_set().contains(b[0]));
        let ka = choose|k: int| 0 <= k < b.len() && b[k] == a[0];
        let kb = choose|k: int| 0 <= k < a.len() && a[k] == b[0];
        if ka > 0 {
            assert(ranks_before(sizes, b[0] as int, b[ka] as int));
            if kb > 0 {
                assert(ranks_before(sizes, a[0] as int, a[kb] as int));
            }
        }
        assert(a[0] == b[0]);
        let ra = a.drop_first();
        let rb = b.drop_first();
        assert forall|x: usize| ra.to_set().contains(x) <==> rb.to_set().contains(x) by {
            if ra.to_set().contains(x) {
                let k = choose|k: int| 0 <= k < ra.len() && ra[k] == x;
                assert(a[k + 1] == x);
                assert(ranks_before(sizes, a[0] as int, a[k + 1] as int));
                assert(a.to_set().contains(x));
                let m = choose|m: int| 0 <= m < b.len() && b[m] == x;
                assert(m != 0);
                assert(rb[m - 1] == x);
            }
            if rb.to_set().contains(x) {
                let k = choose|k: int| 0 <= k < rb.len() && rb[k] == x;
                assert(b[k + 1] == x);
                assert(ranks_before(sizes, b[0] as int, b[k + 1] as int));
                assert(b.to_set().contains(x));
                let m = choose|m: int| 0 <= m < a.len() && a[m] == x;
                assert(m != 0);
                assert(ra[m - 1] == x);
            }
        }
        assert(ra.to_set() =~= rb.to_set());
        assert forall|j: int, k: int| 0 <= j < k < ra.len() implies ranks_before(sizes, #[trigger] ra[j] as int, #[trigger] ra[k] as int) by {
            assert(ranks_before(sizes, a[j + 1] as int, a[k + 1] as int));
        }
        assert forall|j: int, k: int| 0 <= j < k < rb.len() implies ranks_before(sizes, #[trigger] rb[j] as int, #[trigger] rb[k] as int) by {
            assert(ranks_before(sizes, b[j + 1] as int, b[k + 1] as int));
        }
        lemma_ranked_runs_equal(sizes, ra, rb);
        assert(a =~= seq![a[0]] + ra);
        assert(b =~= seq![b[0]] + rb);
    }
}

/// The chart order of given sizes is unique: the rows of a chart are
/// determined by the entries' sizes and their listed order.
pub proof fn lemma_chart_order_unique(sizes: Seq<u64>, a: Seq<usize>, b: Seq<usize>)
    requires
        is_chart_order(sizes, a),
        is_chart_order(sizes, b),
    ensures
        a == b,
{
    assert forall|x: usize| a.to_set().contains(x) <==> b.to_set().contains(x) by {
        if a.to_set().contains(x) {
            let k = choose|k: int| 0 <= k < a.len() && a[k] == x;
            lemma_chart_order_lists_every_entry(sizes, b, x as int);
        }
        if b.to_set().contains(x) {
            let k = choose|k: int| 0 <= k < b.len() && b[k] == x;
            lemma_chart_order_lists_every_entry(sizes, a, x as int);
        }
    }
    assert(a.to_set() =~= b.to_set());
    lemma_ranked_runs_equal(sizes, a, b);
}

/// The sum of `sizes`.
pub open spec fn sum_of(sizes: Seq<u64>) -> int
    decreases sizes.len(),
{
    if sizes.len() == 0 {
        0
    } else {
        sum_of(sizes.drop_last()) + sizes.last()
    }
}

/// The sum of `sizes`, or `u64::MAX` where it does not fit.
pub open spec fn saturated_sum(sizes: Seq<u64>) -> int {
    if sum_of(sizes) < u64::MAX {
        sum_of(sizes)
    } else {
        u64::MAX as int
    }
}

/// The total of the chart: the sizes added with saturation.
pub fn saturating_total(sizes: &[u64]) -> (total: u64)
    ensures
        total == saturated_sum(sizes@),
{
    let mut total: u64 = 0;
    let mut i: usize = 0;
    while i < sizes.len()
        invariant
            i <= sizes@.len(),
            total == saturated_sum(sizes@.take(i as int)),
            sum_of(sizes@.take(i as int)) >= 0,
        decreases sizes@.len() - i,
    {
        assert(sizes@.take(i + 1).drop_last() =~= sizes@.take(i as int));
        total = total.saturating_add(sizes[i]);
        i = i + 1;
    }
    assert(sizes@.take(i as int) =~= sizes@);
    total
}


// ---------------------------------------------------------------------------
// The table.

/// One row of the chart, as text: size, share, bar and path.
#[derive(Debug)]
pub struct ChartRow {
    pub size: String,
    pub share: String,
    pub bar: String,
    pub path: String,
}

/// The four texts of a row.
pub type RowText = (Seq<char>, Seq<char>, Seq<char>, Seq<char>);

/// The texts of a row.
pub open spec fn row_text(r: ChartRow) -> RowText {
    (r.size@, r.share@, r.bar@, r.path@)
}

/// The texts of rows.
pub open spec fn row_texts(rows: Seq<ChartRow>) -> Seq<RowText> {
    rows.map_values(|r: ChartRow| row_text(r))
}

/// The text of column `c` (0: size, 1: share, 3: path) of each row.
pub open spec fn column(rows: Seq<RowText>, c: int) -> Seq<Seq<char>> {
    rows.map_values(
        |r: RowText|
            if c == 0 {
                r.0
            } else if c == 1 {
                r.1
            } else {
                r.3
            },
    )
}

/// The largest number of UTF-8 bytes among `texts`, and at least `floor`.
pub open spec fn widest(texts: Seq<Seq<char>>, floor: nat) -> nat
    decreases texts.len(),
{
    if texts.len() == 0 {
        floor
    } else {
        let rest = widest(texts.drop_last(), floor);
        if byte_len(texts.last()) > rest {
            byte_len(texts.last())
        } else {
            rest
        }
    }
}

/// A column is as wide as its widest cell, and at least as wide as the
/// floor; its width is that of one of its cells, or the floor.
pub proof fn lemma_widest_bounds(texts: Seq<Seq<char>>, floor: nat)
    ensures
        floor <= widest(texts, floor),
        forall|i: int| 0 <= i < texts.len() ==> byte_len(#[trigger] texts[i]) <= widest(texts, floor),
        widest(texts, floor) == floor || exists|i: int|
            0 <= i < texts.len() && byte_len(#[trigger] texts[i]) == widest(texts, floor),
    decreases texts.len(),
{
    if texts.len() > 0 {
        let rest = texts.drop_last();
        lemma_widest_bounds(rest, floor);
        assert forall|i: int| 0 <= i < texts.len() implies byte_len(#[trigger] texts[i]) <= widest(texts, floor) by {
            if i < rest.len() {
                assert(texts[i] == rest[i]);
            }
        }
        if widest(texts, floor) != floor {
            if byte_len(texts.last()) > widest(rest, floor) {
                assert(byte_len(texts[texts.len() - 1]) == widest(texts, floor));
            } else {
                let i = choose|i: int| 0 <= i < rest.len() && byte_len(#[trigger] rest[i]) == widest(rest, floor);
                assert(texts[i] == rest[i]);
            }
        }
    }
}

/// The columns of the table fit their cells: the size column holds every
/// size, the total and its heading; the share column every share and its
/// heading; the path column every path and its heading.
pub proof fn lemma_columns_fit(rows: Seq<RowText>, total_text: Seq<char>)
    ensures
        forall|i: int| 0 <= i < rows.len() ==> byte_len((#[trigger] rows[i]).0) <= size_column(rows, total_text),
        byte_len(total_text) <= size_column(rows, total_text),
        4 <= size_column(rows, total_text),
        forall|i: int| 0 <= i < rows.len() ==> byte_len((#[trigger] rows[i]).1) <= share_column(rows),
        5 <= share_column(rows),
        forall|i: int| 0 <= i < rows.len() ==> byte_len((#[trigger] rows[i]).3) <= path_column(rows),
        4 <= path_column(rows),
{
    let sizes = column(rows, 0).push(total_text);
    lemma_widest_bounds(sizes, 4);
    lemma_widest_bounds(column(rows, 1), 5);
    lemma_widest_bounds(column(rows, 3), 4);
    assert forall|i: int| 0 <= i < rows.len() implies byte_len((#[trigger] rows[i]).0) <= size_column(rows, total_text) by {
        assert(sizes[i] == rows[i].0);
    }
    assert(sizes[rows.len() as int] == total_text);
    assert forall|i: int| 0 <= i < rows.len() implies byte_len((#[trigger] rows[i]).1) <= share_column(rows) by {
        assert(column(rows, 1)[i] == rows[i].1);
    }
    assert forall|i: int| 0 <= i < rows.len() implies byte_len((#[trigger] rows[i]).3) <= path_column(rows) by {
        assert(column(rows, 3)[i] == rows[i].3);
    }
}

/// The width of the size column: the widest size, total, or heading.
pub open spec fn size_column(rows: Seq<RowText>, total_text: Seq<char>) -> nat {
    widest(column(rows, 0).push(total_text), 4)
}

/// The width of the share column: the widest share, or heading.
pub open spec fn share_column(rows: Seq<RowText>) -> nat {
    widest(column(rows, 1), 5)
}

/// The width of the path column: the widest path, or heading.
pub open spec fn path_column(rows: Seq<RowText>) -> nat {
    widest(column(rows, 3), 4)
}

/// The width of the whole table, which the separator line spans.
pub open spec fn table_width(rows: Seq<RowText>, total_text: Seq<char>) -> int {
    (size_column(rows, total_text) + share_column(rows) + 40 + path_column(rows) + 6) as int
}

/// The heading line.
pub open spec fn header_line(size_width: nat, share_width: nat) -> Seq<char> {
    pad_left("Size"@, size_width) + "  "@ + pad_left("Share"@, share_width) + "  "@
        + pad_right("Usage"@, 40) + "  Path"@
}

/// The line of a row.
pub open spec fn row_line(r: RowText, size_width: nat, share_width: nat) -> Seq<char> {
    pad_left(r.0, size_width) + "  "@ + pad_left(r.1, share_width) + "  "@ + r.2 + "  "@ + r.3
}

/// The closing line with the total.
pub open spec fn footer_line(total_text: Seq<char>, grouped_total: Seq<char>) -> Seq<char> {
    "Total size: "@ + total_text + " ("@ + grouped_total + " bytes)"@
}

/// The lines of the table: heading, rows, separator and total.
pub open spec fn chart_lines(rows: Seq<RowText>, total_text: Seq<char>, grouped_total: Seq<char>) -> Seq<Seq<char>> {
    let sw = size_column(rows, total_text);
    let shw = share_column(rows);
    seq![header_line(sw, shw)] + rows.map_values(|r: RowText| row_line(r, sw, shw)) + seq![
        repeat_char('─', table_width(rows, total_text) as nat),
        footer_line(total_text, grouped_total),
    ]
}

/// The texts of strings.
pub open spec fn texts(v: Seq<String>) -> Seq<Seq<char>> {
    v.map_values(|s: String| s@)
}

/// The widest text of column `c` of `rows`, and at least `floor`.
fn widest_column(rows: &[ChartRow], c: u8, floor: usize) -> (w: usize)
    requires
        c == 0 || c == 1 || c == 3,
    ensures
        w == widest(column(row_texts(rows@), c as int), floor as nat),
{
    let mut w = floor;
    let mut k: usize = 0;
    let ghost all = row_texts(rows@);
    while k < rows.len()
        invariant
            k <= rows@.len(),
            all == row_texts(rows@),
            c == 0 || c == 1 || c == 3,
            w == widest(column(all.take(k as int), c as int), floor as nat),
        decreases rows@.len() - k,
    {
        let text = if c == 0 {
            rows[k].size.as_str()
        } else if c == 1 {
            rows[k].share.as_str()
        } else {
            rows[k].path.as_str()
        };
        assert(column(all.take(k + 1), c as int).drop_last() =~= column(all.take(k as int), c as int));
        assert(column(all.take(k + 1), c as int).last() == text@);
        let n = text.len();
        if n > w {
            w = n;
        }
        k = k + 1;
    }
    assert(all.take(k as int) =~= all);
    w
}

/// Lays out the chart of `rows` with the total written as `total_text` and
/// `grouped_total`; `None` where the table's width does not fit in a `usize`.
pub fn layout_chart(rows: &[ChartRow], total_text: &str, grouped_total: &str) -> (lines: Option<Vec<String>>)
    ensures
        match lines {
            Some(lines) => {
                &&& table_width(row_texts(rows@), total_text@) <= usize::MAX
                &&& texts(lines@) == chart_lines(row_texts(rows@), total_text@, grouped_total@)
            },
            None => table_width(row_texts(rows@), total_text@) > usize::MAX,
        },
{
    let ghost all = row_texts(rows@);
    let sizes_width = widest_column(rows, 0, 4);
    let total_len = total_text.len();
    let size_width = if total_len > sizes_width { total_len } else { sizes_width };
    assert(column(all, 0).push(total_text@).drop_last() =~= column(all, 0));
    assert(size_width == size_column(all, total_text@));
    let share_width = widest_column(rows, 1, 5);
    let path_width = widest_column(rows, 3, 4);
    if size_width > usize::MAX - share_width {
        return None;
    }
    let w1 = size_width + share_width;
    if w1 > usize::MAX - 40 {
        return None;
    }
    let w2 = w1 + 40;
    if w2 > usize::MAX - path_width {
        return None;
    }
    let w3 = w2 + path_width;
    if w3 > usize::MAX - 6 {
        return None;
    }
    let width = w3 + 6;

    let mut lines: Vec<String> = Vec::new();
    let mut header = String::new();
    push_padded_left(&mut header, "Size", size_width);
    header.append("  ");
    push_padded_left(&mut header, "Share", share_width);
    header.append("  ");
    push_padded_right(&mut header, "Usage", 40);
    header.append("  Path");
    assert(header@ =~= header_line(size_width as nat, share_width as nat));
    lines.push(header);

    let mut k: usize = 0;
    while k < rows.len()
        invariant
            k <= rows@.len(),
            all == row_texts(rows@),
            lines@.len() == k + 1,
            lines@[0]@ == header_line(size_width as nat, share_width as nat),
            forall|j: int| 0 <= j < k ==> (#[trigger] lines@[j + 1])@ == row_line(all[j], size_width as nat, share_width as nat),
        decreases rows@.len() - k,
    {
        let row = &rows[k];
        let mut line = String::new();
        push_padded_left(&mut line, row.size.as_str(), size_width);
        line.append("  ");
        push_padded_left(&mut line, row.share.as_str(), share_width);
        line.append("  ");
        line.append(row.bar.as_str());
        line.append("  ");
        line.append(row.path.as_str());
        assert(line@ =~= row_line(all[k as int], size_width as nat, share_width as nat));
        lines.push(line);
        k = k + 1;
    }
    lines.push(separator(width));
    let mut footer = String::from_str("Total size: ");
    footer.append(total_text);
    footer.append(" (");
    footer.append(grouped_total);
    footer.append(" bytes)");
    assert(footer@ =~= footer_line(total_text@, grouped_total@));
    lines.push(footer);
    assert(texts(lines@) =~= chart_lines(all, total_text@, grouped_total@)) by {
        let expected = chart_lines(all, total_text@, grouped_total@);
        assert(expected.len() == rows@.len() + 3);
        assert forall|j: int| 0 <= j < expected.len() implies texts(lines@)[j] == expected[j] by {
            if 1 <= j <= rows@.len() {
                assert(lines@[(j - 1) + 1]@ == row_line(all[j - 1], size_width as nat, share_width as nat));
            }
        }
    }
    Some(lines)
}

} // verus!
