//! The calls that this library makes into other crates and into std's path
//! handling, with what their contracts promise of them.

use vstd::prelude::*;
use crate::cli::SizeFormat;
use crate::text::{decimal_digits, grouped_digits};
use std::path::PathBuf;

verus! {

/// The text that `humansize::format_size` gives for `size` bytes with the
/// decimal (`DECIMAL`) or binary (`BINARY`) option set.
pub uninterp spec fn human_size(size: u64, format: SizeFormat) -> Seq<char>;

/// The factor between units: 1000 for decimal units, 1024 for binary ones.
pub open spec fn kilo(format: SizeFormat) -> nat {
    match format {
        SizeFormat::Decimal => 1000,
        SizeFormat::Binary => 1024,
    }
}

/// The `k`-th unit (bytes, kilo-, mega-, ... bytes) as `humansize` writes
/// it with the `DECIMAL` or `BINARY` option set.
pub open spec fn unit_name(format: SizeFormat, k: nat) -> Seq<char> {
    match format {
        SizeFormat::Decimal => if k == 0 {
            "B"@
        } else if k == 1 {
            "kB"@
        } else if k == 2 {
            "MB"@
        } else if k == 3 {
            "GB"@
        } else if k == 4 {
            "TB"@
        } else if k == 5 {
            "PB"@
        } else if k == 6 {
            "EB"@
        } else if k == 7 {
            "ZB"@
        } else {
            "YB"@
        },
        SizeFormat::Binary => if k == 0 {
            "B"@
        } else if k == 1 {
            "KiB"@
        } else if k == 2 {
            "MiB"@
        } else if k == 3 {
            "GiB"@
        } else if k == 4 {
            "TiB"@
        } else if k == 5 {
            "PiB"@
        } else if k == 6 {
            "EiB"@
        } else if k == 7 {
            "ZiB"@
        } else {
            "YiB"@
        },
    }
}

/// Where `size` is a whole number `m` (below one `kilo`) of the `k`-th unit,
/// `Some((m, k))`; `None` where it is not.
pub open spec fn exact_scale(size: nat, format: SizeFormat) -> Option<(nat, nat)>
    decreases size,
{
    if size < kilo(format) {
        Some((size, 0))
    } else if size % kilo(format) == 0 {
        match exact_scale(size / kilo(format), format) {
            Some((m, k)) => Some((m, k + 1)),
            None => None,
        }
    } else {
        None
    }
}

/// Calls `humansize::format_size` with `DECIMAL` or `BINARY`. Its output is
/// computed with floating point from the size and the options alone, so the
/// contract names it. Where the size is a whole number `m` of a unit, every
/// step of that computation is exact (`m` and the unit's factor fit the
/// floating-point mantissa), the fraction is zero, so no decimals are
/// written: the text is `m`, a space and the unit, which the contract states.
#[verifier::external_body]
pub(crate) fn format_size_text(size: u64, format: SizeFormat) -> (s: String)
    ensures
        s@ == human_size(size, format),
        exact_scale(size as nat, format) matches Some((m, k)) ==> s@ == decimal_digits(m) + seq![' ']
            + unit_name(format, k),
{
    match format {
        SizeFormat::Decimal => humansize::format_size(size, humansize::DECIMAL),
        SizeFormat::Binary => humansize::format_size(size, humansize::BINARY),
    }
}

/// Calls `num_format::ToFormattedString::to_formatted_string` with the
/// English locale, whose separator is `,` and whose grouping is the standard
/// one: the contract claims the decimal digits of `n`, grouped in threes from
/// the right and separated by commas.
#[verifier::external_body]
pub(crate) fn grouped_decimal(n: u64) -> (s: String)
    ensures
        s@ == grouped_digits(n as nat),
{
    num_format::ToFormattedString::to_formatted_string(&n, &num_format::Locale::en)
}

/// A size written as a whole number of a unit is exactly that size: the
/// number, times the unit's factor raised to the unit's rank.
pub proof fn lemma_exact_scale_denotes_size(size: nat, format: SizeFormat)
    ensures
        exact_scale(size, format) matches Some((m, k)) ==> {
            &&& m < kilo(format)
            &&& size == m * vstd::arithmetic::power::pow(kilo(format) as int, k)
        },
    decreases size,
{
    reveal(vstd::arithmetic::power::pow);
    if size >= kilo(format) && size % kilo(format) == 0 {
        let b = kilo(format) as int;
        let rest = size / kilo(format);
        lemma_exact_scale_denotes_size(rest, format);
        match exact_scale(rest, format) {
            Some((m, k)) => {
                let p = vstd::arithmetic::power::pow(b, k);
                assert(vstd::arithmetic::power::pow(b, k + 1) == b * p);
                assert(size == b * rest) by (nonlinear_arith)
                    requires
                        size % kilo(format) == 0,
                        rest == size / kilo(format),
                        b == kilo(format),
                        b > 0,
                ;
                assert(size == m * (b * p)) by (nonlinear_arith)
                    requires
                        size == b * rest,
                        rest == m * p,
                ;
            },
            None => {},
        }
    }
}

/// The size written in full: where it is a whole number of a unit, the
/// number and the unit, else humansize's text.
pub open spec fn written_size(size: u64, format: SizeFormat) -> Seq<char> {
    match exact_scale(size as nat, format) {
        Some((m, k)) => decimal_digits(m) + seq![' '] + unit_name(format, k),
        None => human_size(size, format),
    }
}

/// Paths are carried as std's `PathBuf`, whose bytes the library does not read.
#[verifier::external_type_specification]
#[verifier::external_body]
pub struct ExPathBuf(std::path::PathBuf);

/// The text of a path, as `std::path::Path::to_string_lossy` gives it.
pub uninterp spec fn path_text(path: PathBuf) -> Seq<char>;

/// Calls `std::path::Path::to_string_lossy`: the path as text, with any
/// bytes that are not UTF-8 replaced. Which characters come out is left to
/// the name `path_text`.
#[verifier::external_body]
pub(crate) fn lossy_text(path: &PathBuf) -> (s: String)
    ensures
        s@ == path_text(*path),
{
    path.to_string_lossy().into_owned()
}

/// Calls `std::path::PathBuf::from` on text. The contract claims that the
/// path reads back as the same text, as it does: UTF-8 text is a valid path
/// as it stands.
#[verifier::external_body]
pub(crate) fn path_from_text(text: &str) -> (path: PathBuf)
    ensures
        path_text(path) == text@,
{
    std::path::PathBuf::from(text)
}

/// What `std::path::Path::strip_prefix` leaves of the path `path` after the
/// leading components `root`, or `None` where `root` is not a prefix of
/// `path`.
pub uninterp spec fn relative_path(path: PathBuf, root: PathBuf) -> Option<PathBuf>;

/// Calls `std::path::Path::strip_prefix` on `path` and `root`. Prefixes are
/// matched component by component, which the contract leaves to the name
/// `relative_path`.
#[verifier::external_body]
pub(crate) fn strip_path_prefix(path: &PathBuf, root: &PathBuf) -> (r: Option<PathBuf>)
    ensures
        r == relative_path(*path, *root),
{
    match path.strip_prefix(root) {
        Ok(relative) => Some(relative.to_path_buf()),
        Err(_) => None,
    }
}

} // verus!
