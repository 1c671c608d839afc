//! The snapshot of the system from which the forest is built.

use crate::process::{path_file_name, Process, ProcessView};
use crate::tree::assembly::{
    built, forest_ids, forest_of, ids_of, rooted, roots_of, unique_ids,
};
use crate::tree::{Forest, Node};
use vstd::prelude::*;

verus! {

/// What a snapshot of the system tells of one process. `exe` is the path of
/// the executable, where it is known, and `cmd` the command line.
#[derive(Debug, Clone)]
pub struct ProcessInfo {
    pub pid: u64,
    pub name: String,
    pub exe: Option<String>,
    pub cmd: Vec<String>,
    pub parent: Option<u64>,
    pub cpu: u64,
    pub memory: u64,
    pub userland_thread: bool,
}

/// The name under which a process is listed: the file name of its
/// executable, the whole path where that has no file name, and the name that
/// the system gives where the executable is not known.
pub open spec fn listed_name(
    exe: Option<Seq<char>>,
    file_name: Option<Seq<char>>,
    name: Seq<char>,
) -> Seq<char> {
    match exe {
        Some(path) => match file_name {
            Some(file_name) => file_name,
            None => path,
        },
        None => name,
    }
}

/// The text of a string that may be absent.
pub open spec fn text_of(text: Option<String>) -> Option<Seq<char>> {
    match text {
        Some(text) => Some(text@),
        None => None,
    }
}

/// The process that the table lists for what a snapshot tells of it, where
/// `file_name` is the file name of the executable.
pub open spec fn converted(process: ProcessInfo, file_name: Option<Seq<char>>) -> ProcessView {
    ProcessView {
        pid: process.pid,
        name: listed_name(text_of(process.exe), file_name, process.name@),
        arguments: process.cmd@.map_values(|argument: String| argument@),
        parent: process.parent,
        cpu: process.cpu,
        ram: process.memory,
    }
}

/// Whether `listed` is the process that the table lists for `process`,
/// whatever the file name of its executable is.
pub open spec fn lists(listed: ProcessView, process: ProcessInfo) -> bool {
    exists|file_name: Option<Seq<char>>| listed == converted(process, file_name)
}

/// The processes of a snapshot that the table lists: all but the threads
/// that a process runs in user space.
pub open spec fn shown(snapshot: Seq<ProcessInfo>) -> Seq<ProcessInfo> {
    snapshot.filter(|process: ProcessInfo| !process.userland_thread)
}

impl Process {
    /// The process that the table lists for what a snapshot tells of it.
    pub fn from_sysinfo_process(process: &ProcessInfo) -> (listed: Process)
        ensures
            lists(listed@, *process),
            process.exe is None ==> listed@ == converted(*process, None),
    {
        let file_name = match &process.exe {
            Some(path) => path_file_name(path.as_str()),
            None => None,
        };
        let listed = Self::named(process, file_name);
        listed
    }

    /// The process that the table lists, where `file_name` is the file name
    /// of the executable.
    pub fn named(process: &ProcessInfo, file_name: Option<String>) -> (listed: Process)
        ensures
            listed@ == converted(*process, text_of(file_name)),
    {
        let name = match &process.exe {
            Some(path) => match file_name {
                Some(file_name) => file_name,
                None => path.clone(),
            },
            None => process.name.clone(),
        };
        let mut arguments: Vec<String> = Vec::new();
        let mut i: usize = 0;
        while i < process.cmd.len()
            invariant
                i <= process.cmd@.len(),
                arguments@ == process.cmd@.take(i as int),
            decreases process.cmd@.len() - i,
        {
            arguments.push(process.cmd[i].clone());
            i = i + 1;
        }
        assert(process.cmd@.take(i as int) =~= process.cmd@);
        Process {
            pid: process.pid,
            name,
            arguments,
            parent: process.parent,
            cpu: process.cpu,
            ram: process.memory,
        }
    }

    /// The processes that the table lists for a snapshot, in the order of
    /// the snapshot.
    pub fn listed(snapshot: &Vec<ProcessInfo>) -> (processes: Vec<Process>)
        ensures
            processes@.len() == shown(snapshot@).len(),
            forall|i: int|
                0 <= i < processes@.len() ==> lists((#[trigger] processes@[i])@, shown(snapshot@)[i]),
    {
        let mut processes: Vec<Process> = Vec::new();
        let mut i: usize = 0;
        while i < snapshot.len()
            invariant
                i <= snapshot@.len(),
                processes@.len() == shown(snapshot@.take(i as int)).len(),
                forall|k: int|
                    0 <= k < processes@.len() ==> lists(
                        (#[trigger] processes@[k])@,
                        shown(snapshot@.take(i as int))[k],
                    ),
            decreases snapshot@.len() - i,
        {
            proof {
                reveal(Seq::filter);
                let next = snapshot@.take(i + 1);
                assert(next.drop_last() =~= snapshot@.take(i as int));
            }
            if !snapshot[i].userland_thread {
                processes.push(Self::from_sysinfo_process(&snapshot[i]));
            }
            i = i + 1;
        }
        assert(snapshot@.take(i as int) =~= snapshot@);
        processes
    }
}

/// Whether two lists hold processes with the same contents, one for one.
pub open spec fn same_contents(first: Seq<Process>, second: Seq<Process>) -> bool {
    &&& first.len() == second.len()
    &&& forall|i: int| 0 <= i < first.len() ==> (#[trigger] first[i])@ == second[i]@
}

/// The processes of the latest snapshot, from which the forest is built
/// whenever it is needed.
#[derive(Debug)]
pub struct ProcessWatcher {
    pub processes: Vec<Process>,
}

impl View for ProcessWatcher {
    type V = Seq<Process>;

    open spec fn view(&self) -> Seq<Process> {
        self.processes@
    }
}

impl ProcessWatcher {
    /// No two processes of the snapshot have the same identifier.
    pub open spec fn wf(&self) -> bool {
        unique_ids(self.processes@)
    }

    /// A watcher that starts from a snapshot.
    pub fn new(processes: Vec<Process>) -> (watcher: ProcessWatcher)
        requires
            unique_ids(processes@),
        ensures
            watcher.wf(),
            watcher@ == processes@,
    {
        ProcessWatcher { processes }
    }

    /// Takes a new snapshot in place of the last.
    pub fn refresh(&mut self, processes: Vec<Process>)
        requires
            unique_ids(processes@),
        ensures
            final(self).wf(),
            final(self)@ == processes@,
    {
        self.processes = processes;
    }

    /// The forest of the snapshot, with the metrics rolled up. The forest
    /// takes the processes of the snapshot, and the watcher keeps copies of
    /// them.
    pub fn get_forest(&mut self) -> (forest: Forest<Process>)
        requires
            old(self).wf(),
        ensures
            forest@ == forest_of(old(self)@),
            built(forest@, roots_of(old(self)@), old(self)@),
            forest_ids(forest@).no_duplicates(),
            forall|id: u64| #[trigger]
                forest_ids(forest@).contains(id) ==> ids_of(old(self)@).contains(id),
            forall|i: int, steps: nat|
                0 <= i < old(self)@.len() && #[trigger] rooted(old(self)@, old(self)@[i], steps)
                    ==> forest_ids(forest@).contains(old(self)@[i].spec_id()),
            final(self).wf(),
            same_contents(final(self)@, old(self)@),
    {
        let mut copies: Vec<Process> = Vec::new();
        let mut i: usize = 0;
        while i < self.processes.len()
            invariant
                i <= self.processes@.len(),
                *self == *old(self),
                same_contents(copies@, self.processes@.take(i as int)),
            decreases self.processes@.len() - i,
        {
            copies.push(self.processes[i].duplicate());
            i = i + 1;
        }
        let mut processes = copies;
        std::mem::swap(&mut self.processes, &mut processes);
        Forest::new_forest(processes)
    }
}

} // verus!
