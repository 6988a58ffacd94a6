//! Text for the report: numbers, paths, and the table that holds them.
//!
//! The table is laid out by the crate `comfy_table` and sizes are put into
//! units by the crate `bytesize`. What is stated of them here is taken on
//! trust.

use vstd::prelude::*;
use vstd::string::StringExecFns;

verus! {

/// The table of the crate `comfy_table`, taken as it is.
#[verifier::external_type_specification]
#[verifier::external_body]
pub struct ExTable(comfy_table::Table);

/// A table in the making. It was made plain, and it is changed by nothing
/// but what this module does to it: only this module can make or reach into
/// one.
pub struct Sheet {
    inner: comfy_table::Table,
}

/// The characters of each of the strings.
pub open spec fn cells(row: Seq<String>) -> Seq<Seq<char>> {
    row.map_values(|cell: String| cell@)
}

/// The preset that a table was given after it was made, if any.
pub uninterp spec fn table_preset(table: Sheet) -> Option<Seq<char>>;

/// The cells of a table's header, if it has one.
pub uninterp spec fn table_header(table: Sheet) -> Option<Seq<Seq<char>>>;

/// The cells of a table's rows, in the order in which the rows were added.
pub uninterp spec fn table_rows(table: Sheet) -> Seq<Seq<Seq<char>>>;

/// The text of a table that was made, given a preset and a header, each once
/// at most, and filled with rows, as `comfy_table` lays it out.
pub uninterp spec fn table_text(
    preset: Option<Seq<char>>,
    header: Option<Seq<Seq<char>>>,
    rows: Seq<Seq<Seq<char>>>,
) -> Seq<char>;

/// A size in units of 1024, as `bytesize` writes it.
pub uninterp spec fn human_size(size: u64) -> Seq<char>;

/// The text of bytes taken as UTF-8, with the replacement character in place
/// of whatever is not.
pub uninterp spec fn utf8_lossy(bytes: Seq<u8>) -> Seq<char>;

/// `comfy_table::Table::new`: a table without header and rows, to which no
/// preset was given.
#[verifier::external_body]
fn table_new() -> (res: Sheet)
    ensures
        table_preset(res) is None,
        table_header(res) is None,
        table_rows(res).len() == 0,
{
    Sheet { inner: comfy_table::Table::new() }
}

/// `comfy_table::Table::load_preset`, on a table to which no preset was
/// given yet: the table has the preset, and its header and rows are as
/// before.
#[verifier::external_body]
fn table_load_preset(table: &mut Sheet, preset: &str)
    requires
        table_preset(*old(table)) is None,
    ensures
        table_preset(*final(table)) == Some(preset@),
        table_header(*final(table)) == table_header(*old(table)),
        table_rows(*final(table)) == table_rows(*old(table)),
{
    table.inner.load_preset(preset);
}

/// `comfy_table::Table::set_header`, on a table that has no header yet: the
/// table has the header, and its preset and rows are as before. A table
/// that had a header keeps the columns of the old one, so a second header
/// is not provided for.
#[verifier::external_body]
fn table_set_header(table: &mut Sheet, header: Vec<String>)
    requires
        table_header(*old(table)) is None,
    ensures
        table_header(*final(table)) == Some(cells(header@)),
        table_preset(*final(table)) == table_preset(*old(table)),
        table_rows(*final(table)) == table_rows(*old(table)),
{
    table.inner.set_header(header);
}

/// `comfy_table::Table::add_row`: the row comes after the rows that the
/// table had, and its preset and header are as before.
#[verifier::external_body]
fn table_add_row(table: &mut Sheet, row: Vec<String>)
    ensures
        table_rows(*final(table)) == table_rows(*old(table)).push(cells(row@)),
        table_preset(*final(table)) == table_preset(*old(table)),
        table_header(*final(table)) == table_header(*old(table)),
{
    table.inner.add_row(row);
}

/// The constant `comfy_table::presets::NOTHING`: the preset that draws no
/// borders and no dividers.
#[verifier::external_body]
fn table_nothing() -> (res: &'static str)
    ensures
        res@ == plain_preset(),
{
    comfy_table::presets::NOTHING
}

/// `to_string` by `Display` of `comfy_table::Table`: the text of the table.
#[verifier::external_body]
fn table_to_string(table: &Sheet) -> (res: String)
    ensures
        res@ == table_text(table_preset(*table), table_header(*table), table_rows(*table)),
{
    table.inner.to_string()
}

/// `to_string` by `Display` of `bytesize::ByteSize`: the size in units of
/// 1024.
#[verifier::external_body]
pub(crate) fn human_text(size: u64) -> (res: String)
    ensures
        res@ == human_size(size),
{
    bytesize::ByteSize(size).to_string()
}

/// `String::from_utf8_lossy`: the text of the bytes, with the replacement
/// character for what is not UTF-8.
#[verifier::external_body]
pub(crate) fn lossy_text(bytes: &[u8]) -> (res: String)
    ensures
        res@ == utf8_lossy(bytes@),
{
    String::from_utf8_lossy(bytes).into_owned()
}

/// The character of a decimal digit.
pub open spec fn digit(d: int) -> char {
    if d == 0 {
        '0'
    } else if d == 1 {
        '1'
    } else if d == 2 {
        '2'
    } else if d == 3 {
        '3'
    } else if d == 4 {
        '4'
    } else if d == 5 {
        '5'
    } else if d == 6 {
        '6'
    } else if d == 7 {
        '7'
    } else if d == 8 {
        '8'
    } else {
        '9'
    }
}

/// A number written in decimal digits.
pub open spec fn decimal(n: nat) -> Seq<char>
    decreases n,
{
    if n < 10 {
        seq![digit(n as int)]
    } else {
        decimal(n / 10).push(digit((n % 10) as int))
    }
}

/// The string of one decimal digit.
fn digit_text(d: u64) -> (res: &'static str)
    requires
        d < 10,
    ensures
        res@ == seq![digit(d as int)],
{
    proof {
        reveal_strlit("0");
        reveal_strlit("1");
        reveal_strlit("2");
        reveal_strlit("3");
        reveal_strlit("4");
        reveal_strlit("5");
        reveal_strlit("6");
        reveal_strlit("7");
        reveal_strlit("8");
        reveal_strlit("9");
    }
    let res = if d == 0 {
        "0"
    } else if d == 1 {
        "1"
    } else if d == 2 {
        "2"
    } else if d == 3 {
        "3"
    } else if d == 4 {
        "4"
    } else if d == 5 {
        "5"
    } else if d == 6 {
        "6"
    } else if d == 7 {
        "7"
    } else if d == 8 {
        "8"
    } else {
        "9"
    };
    assert(res@ =~= seq![digit(d as int)]);
    res
}

/// Writes a number in decimal digits.
pub fn decimal_text(n: u64) -> (res: String)
    ensures
        res@ == decimal(n as nat),
{
    let mut digits: Vec<u64> = Vec::new();
    let mut rest = n;
    while rest >= 10
        invariant
            forall|k: int| 0 <= k < digits@.len() ==> digits@[k] < 10,
            decimal(n as nat) == decimal(rest as nat) + Seq::new(
                digits@.len(),
                |k: int| digit(digits@[digits@.len() - 1 - k] as int),
            ),
        decreases rest,
    {
        let ghost d0 = digits@;
        let ghost r0 = rest;
        digits.push(rest % 10);
        rest = rest / 10;
        proof {
            let tail0 = Seq::new(d0.len(), |k: int| digit(d0[d0.len() - 1 - k] as int));
            let tail1 = Seq::new(
                digits@.len(),
                |k: int| digit(digits@[digits@.len() - 1 - k] as int),
            );
            assert(decimal(r0 as nat) == decimal(rest as nat).push(digit((r0 % 10) as int)));
            assert(decimal(rest as nat).push(digit((r0 % 10) as int)) + tail0 =~= decimal(
                rest as nat,
            ) + tail1);
        }
    }
    let mut res = String::from_str(digit_text(rest));
    let ghost lead = res@;
    let ghost all = digits@;
    let mut left: usize = digits.len();
    assert(res@ =~= lead + Seq::new(0, |k: int| digit(all[all.len() - 1 - k] as int)));
    while left > 0
        invariant
            left <= digits.len(),
            all == digits@,
            forall|k: int| 0 <= k < all.len() ==> all[k] < 10,
            res@ == lead + Seq::new(
                (all.len() - left) as nat,
                |k: int| digit(all[all.len() - 1 - k] as int),
            ),
        decreases left,
    {
        let ghost r0 = res@;
        left -= 1;
        res.append(digit_text(digits[left]));
        assert(res@ =~= lead + Seq::new(
            (all.len() - left) as nat,
            |k: int| digit(all[all.len() - 1 - k] as int),
        ));
    }
    res
}

/// The head of the size column.
pub open spec fn size_title() -> Seq<char> {
    "SIZE"@
}

/// The head of the path column.
pub open spec fn path_title() -> Seq<char> {
    "PATH"@
}

/// The preset that draws no borders and no dividers: a blank for each of the
/// nineteen parts of a table that could be drawn.
pub open spec fn plain_preset() -> Seq<char> {
    "                   "@
}

/// The text of a table without borders, headed `SIZE` and `PATH`, with the
/// given rows.
pub open spec fn listing(rows: Seq<Seq<Seq<char>>>) -> Seq<char> {
    table_text(Some(plain_preset()), Some(seq![size_title(), path_title()]), rows)
}

/// Lays out rows of two cells, a size and a path, as a table without borders
/// under the heads `SIZE` and `PATH`.
pub fn list(rows: Vec<Vec<String>>) -> (res: String)
    ensures
        res@ == listing(rows@.map_values(|row: Vec<String>| cells(row@))),
{
    let ghost all = rows@.map_values(|row: Vec<String>| cells(row@));
    let mut table = table_new();
    table_load_preset(&mut table, table_nothing());
    let mut header: Vec<String> = Vec::new();
    header.push(String::from_str("SIZE"));
    header.push(String::from_str("PATH"));
    assert(cells(header@) =~= seq![size_title(), path_title()]);
    table_set_header(&mut table, header);
    let total = rows.len();
    let mut rest = crate::vecs::reversed(rows);
    assert(table_rows(table) =~= all.take(0));
    while rest.len() > 0
        invariant
            rest@.len() <= total == all.len(),
            table_preset(table) == Some(plain_preset()),
            table_header(table) == Some(seq![size_title(), path_title()]),
            rest@.map_values(|row: Vec<String>| cells(row@)) == all.reverse().take(
                rest@.len() as int,
            ),
            table_rows(table) == all.take(total - rest@.len()),
        decreases rest.len(),
    {
        let ghost r0 = rest@;
        let ghost done = total - rest@.len();
        let row = rest.pop().unwrap();
        proof {
            assert(r0.map_values(|row: Vec<String>| cells(row@))[r0.len() - 1] == cells(row@));
            assert(cells(row@) == all[done]);
            assert(rest@.map_values(|row: Vec<String>| cells(row@)) =~= all.reverse().take(
                rest@.len() as int,
            ));
            assert(all.take(done + 1) =~= all.take(done).push(all[done]));
        }
        table_add_row(&mut table, row);
    }
    assert(all.take(total as int) =~= all);
    table_to_string(&table)
}

} // verus!
