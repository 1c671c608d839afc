//! The record of one process, with its place in the table.

use crate::process::header::{column_indent, column_label};
use crate::text::{decimal, decimal_string, grouped, grouped_string, pad_left, padded};
use crate::tree::Node;
use std::cmp::Ordering;
use vstd::prelude::*;

pub mod header;
pub mod metrics;
pub mod watcher;

verus! {

/// The column by which sibling processes are ordered.
#[derive(Debug, Clone, Copy, PartialEq, Eq, Structural)]
pub enum SortBy {
    Pid,
    Cpu,
    Ram,
}

impl Default for SortBy {
    /// The table is sorted by identifier at first.
    fn default() -> (sort_by: SortBy)
        ensures
            sort_by == SortBy::Pid,
    {
        SortBy::Pid
    }
}

impl SortBy {
    /// The next column in the rotation pid, cpu, ram and pid again.
    pub fn next(self) -> (next: SortBy)
        ensures
            next == match self {
                SortBy::Pid => SortBy::Cpu,
                SortBy::Cpu => SortBy::Ram,
                SortBy::Ram => SortBy::Pid,
            },
    {
        match self {
            SortBy::Pid => SortBy::Cpu,
            SortBy::Cpu => SortBy::Ram,
            SortBy::Ram => SortBy::Pid,
        }
    }

    /// The heading of the column.
    pub fn label(self) -> (label: &'static str)
        ensures
            label@ == column_label(self),
    {
        match self {
            SortBy::Pid => "pid",
            SortBy::Cpu => "cpu",
            SortBy::Ram => "ram",
        }
    }

    /// The blanks in front of the heading, which put it at the right of its
    /// column.
    pub fn leading_spaces(self) -> (count: usize)
        ensures
            count == column_indent(self),
    {
        match self {
            SortBy::Pid => 5,
            SortBy::Cpu => 3,
            SortBy::Ram => 7,
        }
    }

    /// The columns in the order of the table.
    pub fn all() -> (columns: Vec<SortBy>)
        ensures
            columns@ == crate::process::header::all_columns(),
    {
        let mut columns = Vec::new();
        columns.push(SortBy::Pid);
        columns.push(SortBy::Cpu);
        columns.push(SortBy::Ram);
        columns
    }
}

/// One process of a snapshot. `cpu` is the processor share in thousandths of
/// a percent, `ram` the resident memory in bytes; in a forest both include
/// the descendants.
#[derive(Debug, Clone)]
pub struct Process {
    pub pid: u64,
    pub name: String,
    pub arguments: Vec<String>,
    pub parent: Option<u64>,
    pub cpu: u64,
    pub ram: u64,
}

/// A process as a mathematical value.
pub struct ProcessView {
    pub pid: u64,
    pub name: Seq<char>,
    pub arguments: Seq<Seq<char>>,
    pub parent: Option<u64>,
    pub cpu: u64,
    pub ram: u64,
}

impl View for Process {
    type V = ProcessView;

    open spec fn view(&self) -> ProcessView {
        ProcessView {
            pid: self.pid,
            name: self.name@,
            arguments: self.arguments@.map_values(|argument: String| argument@),
            parent: self.parent,
            cpu: self.cpu,
            ram: self.ram,
        }
    }
}

/// The sum of two metrics, which stops at the largest number that fits.
pub open spec fn capped_sum(a: u64, b: u64) -> u64 {
    if a + b > u64::MAX {
        u64::MAX
    } else {
        (a + b) as u64
    }
}

impl Node for Process {
    open spec fn spec_id(&self) -> u64 {
        self.pid
    }

    open spec fn spec_parent(&self) -> Option<u64> {
        self.parent
    }

    /// The process with the metrics of `other` added to its own.
    open spec fn merged(self, other: Self) -> Self {
        Process {
            cpu: capped_sum(self.cpu, other.cpu),
            ram: capped_sum(self.ram, other.ram),
            ..self
        }
    }

    fn id(&self) -> (id: u64) {
        self.pid
    }

    fn parent(&self) -> (parent: Option<u64>) {
        self.parent
    }

    fn accumulate_from(&mut self, other: &Self) {
        self.cpu = self.cpu.saturating_add(other.cpu);
        self.ram = self.ram.saturating_add(other.ram);
    }

    proof fn merged_keeps_identity(self, other: Self) {
    }
}

/// How two numbers stand to each other.
pub open spec fn number_order(a: u64, b: u64) -> Ordering {
    if a < b {
        Ordering::Less
    } else if a == b {
        Ordering::Equal
    } else {
        Ordering::Greater
    }
}

/// How two processes stand to each other in a column: by identifier
/// ascending, or by a metric descending, and by identifier ascending where
/// the metrics are equal.
pub open spec fn key_order(a: Process, b: Process, sort_by: SortBy) -> Ordering {
    let by_key = match sort_by {
        SortBy::Pid => number_order(a.pid, b.pid),
        SortBy::Cpu => number_order(b.cpu, a.cpu),
        SortBy::Ram => number_order(b.ram, a.ram),
    };
    if by_key is Equal {
        number_order(a.pid, b.pid)
    } else {
        by_key
    }
}

/// Only processes with the same identifier are equal in a column: where the
/// identifiers differ, the smaller one decides between equal metrics.
pub proof fn lemma_key_order_equal(a: Process, b: Process, sort_by: SortBy)
    ensures
        key_order(a, b, sort_by) is Equal ==> a.pid == b.pid,
        key_order(a, a, sort_by) is Equal,
        a.pid < b.pid && (match sort_by {
            SortBy::Pid => true,
            SortBy::Cpu => a.cpu == b.cpu,
            SortBy::Ram => a.ram == b.ram,
        }) ==> key_order(a, b, sort_by) is Less,
{
}

/// Turning two processes round turns their order round.
pub proof fn lemma_key_order_reverse(a: Process, b: Process, sort_by: SortBy)
    ensures
        key_order(a, b, sort_by) is Less <==> key_order(b, a, sort_by) is Greater,
        key_order(a, b, sort_by) is Equal <==> key_order(b, a, sort_by) is Equal,
{
}

/// What comes after a process comes after everything that the process comes
/// after.
pub proof fn lemma_key_order_transitive(a: Process, b: Process, c: Process, sort_by: SortBy)
    requires
        key_order(a, b, sort_by) is Greater,
        key_order(b, c, sort_by) is Greater,
    ensures
        key_order(a, c, sort_by) is Greater,
{
}

/// The processor share in whole percent, rounded to the nearest; a half goes
/// to the even neighbour.
pub open spec fn rounded_percent(cpu: u64) -> nat {
    let whole = cpu / 1000;
    let rest = cpu % 1000;
    if rest > 500 || (rest == 500 && whole % 2 == 1) {
        (whole + 1) as nat
    } else {
        whole as nat
    }
}

/// The columns of a process in the table: the identifier in eight
/// characters, the processor share in whole percent in four, and the memory
/// in mebibytes, with commas between groups of three digits, in seven.
pub open spec fn table_text(process: ProcessView) -> Seq<char> {
    padded(decimal(process.pid as nat), 8) + " "@ + padded(
        decimal(rounded_percent(process.cpu)),
        4,
    ) + "% "@ + padded(grouped((process.ram / 0x10_0000) as nat), 7) + "MB"@
}

/// The arguments after the first, each with a blank in front of it.
pub open spec fn arguments_tail(arguments: Seq<Seq<char>>) -> Seq<char>
    decreases arguments.len(),
{
    if arguments.len() <= 1 {
        Seq::empty()
    } else {
        arguments_tail(arguments.drop_last()) + seq![' '] + arguments.last()
    }
}

/// How a process shows in the tree. One without arguments shows its name.
/// One with arguments shows the file name of its first argument, or all of
/// the first argument where that has no file name, and then the other
/// arguments.
pub open spec fn display_text(process: ProcessView, file_name: Option<Seq<char>>) -> Seq<char> {
    if process.arguments.len() == 0 {
        process.name
    } else {
        (match file_name {
            Some(name) => name,
            None => process.arguments[0],
        }) + arguments_tail(process.arguments)
    }
}

/// `std::path::Path::file_name`: the last component of a path, if it has
/// one. What a component is depends on the platform, so nothing is claimed
/// of the result.
#[verifier::external_body]
pub(crate) fn path_file_name(path: &str) -> (file_name: Option<String>) {
    std::path::Path::new(path).file_name().map(|name| name.to_string_lossy().into_owned())
}

impl Process {
    /// A process with these contents.
    pub fn new(
        pid: u64,
        name: String,
        arguments: Vec<String>,
        parent: Option<u64>,
        cpu: u64,
        ram: u64,
    ) -> (process: Process)
        ensures
            process == (Process { pid, name, arguments, parent, cpu, ram }),
    {
        Process { pid, name, arguments, parent, cpu, ram }
    }

    /// A second process with the same contents.
    pub fn duplicate(&self) -> (copy: Process)
        ensures
            copy@ == self@,
    {
        let mut arguments: Vec<String> = Vec::new();
        let mut i: usize = 0;
        while i < self.arguments.len()
            invariant
                i <= self.arguments@.len(),
                arguments@ == self.arguments@.take(i as int),
            decreases self.arguments@.len() - i,
        {
            arguments.push(self.arguments[i].clone());
            i = i + 1;
        }
        assert(self.arguments@.take(i as int) =~= self.arguments@);
        Process {
            pid: self.pid,
            name: self.name.clone(),
            arguments,
            parent: self.parent,
            cpu: self.cpu,
            ram: self.ram,
        }
    }

    /// How this process stands to `other` in the column `sort_by`.
    pub fn compare(&self, other: &Process, sort_by: SortBy) -> (order: Ordering)
        ensures
            order == key_order(*self, *other, sort_by),
    {
        let by_key = match sort_by {
            SortBy::Pid => Self::compare_numbers(self.pid, other.pid),
            SortBy::Cpu => Self::compare_numbers(other.cpu, self.cpu),
            SortBy::Ram => Self::compare_numbers(other.ram, self.ram),
        };
        match by_key {
            Ordering::Equal => Self::compare_numbers(self.pid, other.pid),
            _ => by_key,
        }
    }

    /// How `a` stands to `b`.
    fn compare_numbers(a: u64, b: u64) -> (order: Ordering)
        ensures
            order == number_order(a, b),
    {
        if a < b {
            Ordering::Less
        } else if a == b {
            Ordering::Equal
        } else {
            Ordering::Greater
        }
    }

    /// The columns of the process in the table.
    pub fn table_data(&self) -> (text: String)
        ensures
            text@ == table_text(self@),
    {
        let whole = self.cpu / 1000;
        let rest = self.cpu % 1000;
        let percent = if rest > 500 || (rest == 500 && whole % 2 == 1) {
            whole + 1
        } else {
            whole
        };
        let mut text = pad_left(decimal_string(self.pid).as_str(), 8);
        text.append(" ");
        text.append(pad_left(decimal_string(percent).as_str(), 4).as_str());
        text.append("% ");
        text.append(pad_left(grouped_string(self.ram / 0x10_0000).as_str(), 7).as_str());
        text.append("MB");
        text
    }

    /// How the process shows in the tree.
    pub fn to_string(&self) -> (text: String)
        ensures
            exists|file_name: Option<Seq<char>>| text@ == display_text(self@, file_name),
            self@.arguments.len() == 0 ==> text@ == self@.name,
    {
        let file_name = if self.arguments.len() > 0 {
            path_file_name(self.arguments[0].as_str())
        } else {
            None
        };
        let text = self.display_with(file_name);
        text
    }

    /// How the process shows in the tree, where `file_name` is the file name
    /// of its first argument.
    pub fn display_with(&self, file_name: Option<String>) -> (text: String)
        ensures
            text@ == display_text(
                self@,
                match file_name {
                    Some(name) => Some(name@),
                    None => None,
                },
            ),
    {
        if self.arguments.len() == 0 {
            return self.name.clone();
        }
        let mut text = match file_name {
            Some(name) => name,
            None => self.arguments[0].clone(),
        };
        let ghost head = text@;
        let mut i: usize = 1;
        while i < self.arguments.len()
            invariant
                1 <= i <= self.arguments@.len(),
                text@ == head + arguments_tail(self@.arguments.take(i as int)),
            decreases self.arguments@.len() - i,
        {
            proof {
                reveal_strlit(" ");
                let next = self@.arguments.take(i + 1);
                assert(next.drop_last() =~= self@.arguments.take(i as int));
            }
            text.append(" ");
            text.append(self.arguments[i].as_str());
            i = i + 1;
        }
        assert(self@.arguments.take(i as int) =~= self@.arguments);
        text
    }
}

} // verus!
