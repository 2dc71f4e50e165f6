//! The table that a trial leaves behind, one file for each trial.

use crate::text;
use crate::text::{append_decimal, append_four_digits};
use vstd::prelude::*;

verus! {

/// What is recorded after a droplet.
#[derive(Clone, Copy, Debug, PartialEq, Eq, Structural)]
pub struct Row {
    /// Number of the epoch.
    pub epoch_idx: usize,
    /// Number of source blocks.
    pub k: usize,
    /// Number of droplets that have arrived.
    pub n_collected: usize,
    /// Whether decoding succeeded with them.
    pub decode_success: bool,
    /// Number of the trial.
    pub trial: usize,
}

impl Row {
    /// The row as a line of the table, without the end of the line.
    pub open spec fn text(self) -> Seq<char> {
        text::decimal(self.epoch_idx as nat) + ","@ + text::decimal(self.k as nat) + ","@
            + text::decimal(self.n_collected as nat) + ","@ + (if self.decode_success {
            "1"@
        } else {
            "0"@
        }) + ","@ + text::decimal(self.trial as nat)
    }

    /// The row as a line of the table, without the end of the line.
    pub fn line(&self) -> (line: String)
        ensures
            line@ == self.text(),
    {
        let mut line = String::new();
        append_decimal(&mut line, self.epoch_idx);
        line.append(",");
        append_decimal(&mut line, self.k);
        line.append(",");
        append_decimal(&mut line, self.n_collected);
        line.append(",");
        line.append(if self.decode_success { "1" } else { "0" });
        line.append(",");
        append_decimal(&mut line, self.trial);
        assert(line@ =~= self.text());
        line
    }
}

/// The first line of the table, without the end of the line.
pub fn column_names() -> (line: String)
    ensures
        line@ == "epoch_idx,k,n_collected,decode_success,trial"@,
{
    "epoch_idx,k,n_collected,decode_success,trial".to_string()
}

/// The name of the file with the table of a trial.
pub fn file_name(trial: usize) -> (name: String)
    ensures
        name@ == "trial_"@ + text::four_digits(trial as nat) + ".csv"@,
{
    let mut name = "trial_".to_string();
    append_four_digits(&mut name, trial);
    name.append(".csv");
    name
}

/// A line has five fields, with a comma between each and the next: the numbers
/// of the row, and one or zero for success or failure.
pub proof fn law_line_spells_the_row(row: Row)
    ensures
        exists|a: Seq<char>, b: Seq<char>, c: Seq<char>, d: Seq<char>, e: Seq<char>|
            {
                &&& #[trigger] joined(a, b, c, d, e) == row.text()
                &&& text::is_digits(a) && text::number(a) == row.epoch_idx
                &&& text::is_digits(b) && text::number(b) == row.k
                &&& text::is_digits(c) && text::number(c) == row.n_collected
                &&& d.len() == 1 && text::is_digits(d)
                &&& text::number(d) == (if row.decode_success {
                    1int
                } else {
                    0int
                })
                &&& text::is_digits(e) && text::number(e) == row.trial
            },
{
    reveal_strlit(",");
    reveal_strlit("0");
    reveal_strlit("1");
    reveal_with_fuel(text::number, 2);
    let a = text::decimal(row.epoch_idx as nat);
    let b = text::decimal(row.k as nat);
    let c = text::decimal(row.n_collected as nat);
    let d = if row.decode_success {
        "1"@
    } else {
        "0"@
    };
    let e = text::decimal(row.trial as nat);
    text::law_decimal_reads_back(row.epoch_idx as nat);
    text::law_decimal_reads_back(row.k as nat);
    text::law_decimal_reads_back(row.n_collected as nat);
    text::law_decimal_reads_back(row.trial as nat);
    assert(d.drop_last() =~= seq![]);
    assert(","@ =~= seq![',']);
    assert(joined(a, b, c, d, e) =~= row.text());
}

/// Five fields with a comma between each and the next.
pub open spec fn joined(
    a: Seq<char>,
    b: Seq<char>,
    c: Seq<char>,
    d: Seq<char>,
    e: Seq<char>,
) -> Seq<char> {
    a + seq![','] + b + seq![','] + c + seq![','] + d + seq![','] + e
}

} // verus!
