//! Recognising dump files and the messages of a directory scan.

use crate::text::{chars_of, file_name, file_name_exec, last_index_of, last_index_of_exec, lower, lower_chars};
use std::collections::VecDeque;
use vstd::prelude::*;

verus! {

broadcast use vstd::string::group_string_axioms;

#[derive(Clone, Debug, PartialEq, Eq)]
pub struct FileEntry {
    pub path: String,
    pub size: u64,
}

#[derive(Clone, Debug, PartialEq, Eq)]
pub enum ScanEvent {
    FoundBatch(Vec<FileEntry>),
    Progress { path: String, directories: usize },
    Finished,
}

/// `Path::extension`: the text after the last `.` of the file name, when
/// that dot is not the name's first character.
pub open spec fn extension(path: Seq<char>) -> Option<Seq<char>> {
    match file_name(path) {
        None => None,
        Some(name) => match last_index_of(name, '.') {
            Some(i) => if i == 0 {
                None
            } else {
                Some(name.skip(i + 1))
            },
            None => None,
        },
    }
}

/// The path's extension is `dmp` or `mdmp`, ignoring ASCII case.
pub open spec fn is_dump(path: Seq<char>) -> bool {
    match extension(path) {
        Some(ext) => lower(ext) == "dmp"@ || lower(ext) == "mdmp"@,
        None => false,
    }
}

/// Whether the path names a minidump by its extension.
pub fn is_dump_path(path: &str) -> (b: bool)
    ensures
        b == is_dump(path@),
{
    let chars = chars_of(path);
    let Some(name) = file_name_exec(&chars) else {
        return false;
    };
    let Some(dot) = last_index_of_exec(&name, '.') else {
        return false;
    };
    if dot == 0 {
        return false;
    }
    let n = name.len();
    let mut ext: Vec<char> = Vec::new();
    let mut i = dot + 1;
    while i < n
        invariant
            n == name@.len(),
            dot < i <= n,
            ext@ == name@.subrange(dot + 1, i as int),
        decreases n - i,
    {
        ext.push(name[i]);
        i = i + 1;
        assert(ext@ =~= name@.subrange(dot + 1, i as int));
    }
    assert(ext@ =~= name@.skip(dot + 1));
    let low = lower_chars(&ext);
    proof {
        reveal_strlit("dmp");
        reveal_strlit("mdmp");
    }
    let is_dmp = low.len() == 3 && low[0] == 'd' && low[1] == 'm' && low[2] == 'p';
    let is_mdmp = low.len() == 4 && low[0] == 'm' && low[1] == 'd' && low[2] == 'm' && low[3] == 'p';
    assert(is_dmp == (low@ == "dmp"@)) by {
        if low@.len() == 3 && low@ != "dmp"@ {
            assert(!(low@[0] == 'd' && low@[1] == 'm' && low@[2] == 'p') || low@ =~= "dmp"@);
        }
    }
    assert(is_mdmp == (low@ == "mdmp"@)) by {
        if low@.len() == 4 && low@ != "mdmp"@ {
            assert(!(low@[0] == 'm' && low@[1] == 'd' && low@[2] == 'm' && low@[3] == 'p') || low@ =~= "mdmp"@);
        }
    }
    is_dmp || is_mdmp
}

// ---------------------------------------------------------------------------
// The work shared by the scan's workers
// ---------------------------------------------------------------------------

/// The directories still to read, how many are being read, and whether the
/// scan is over.
pub struct ScanWork {
    pub directories: VecDeque<String>,
    pub active: usize,
    pub finished: bool,
}

/// What a worker does next.
#[derive(Clone, Debug, PartialEq, Eq)]
pub enum WorkStep {
    /// Read this directory, then report it with `complete`.
    Read(String),
    /// Wait for another worker to add directories or finish.
    Wait,
    /// Leave: the scan is over or cancelled.
    Stop,
}

impl ScanWork {
    /// The work of a scan of `roots`; a scan of nothing is over at once.
    pub fn new(roots: Vec<String>) -> (work: Self)
        ensures
            work.directories@ == roots@,
            work.active == 0,
            work.finished == (roots@.len() == 0),
    {
        let finished = roots.len() == 0;
        let mut directories: VecDeque<String> = VecDeque::new();
        let mut i: usize = 0;
        while i < roots.len()
            invariant
                i <= roots@.len(),
                directories@ == roots@.take(i as int),
            decreases roots@.len() - i,
        {
            directories.push_back(roots[i].clone());
            i = i + 1;
            assert(directories@ =~= roots@.take(i as int));
        }
        assert(roots@.take(roots@.len() as int) =~= roots@);
        ScanWork { directories, active: 0, finished }
    }

    /// A worker's next step: stop when the scan is cancelled or over; take
    /// the oldest waiting directory; with none waiting and none being read,
    /// end the scan and stop; otherwise wait.
    pub fn next_step(&mut self, cancelled: bool) -> (step: WorkStep)
        requires
            old(self).active < usize::MAX,
        ensures
            (cancelled || old(self).finished) ==> step is Stop && *final(self) == *old(self),
            !cancelled && !old(self).finished && old(self).directories@.len() > 0 ==> {
                &&& step == WorkStep::Read(old(self).directories@[0])
                &&& final(self).directories@ == old(self).directories@.drop_first()
                &&& final(self).active == old(self).active + 1
                &&& !final(self).finished
            },
            !cancelled && !old(self).finished && old(self).directories@.len() == 0 && old(self).active
                == 0 ==> step is Stop && final(self).finished && final(self).active == 0
                && final(self).directories == old(self).directories,
            !cancelled && !old(self).finished && old(self).directories@.len() == 0 && old(self).active
                > 0 ==> step is Wait && *final(self) == *old(self),
    {
        if cancelled || self.finished {
            return WorkStep::Stop;
        }
        if self.directories.len() == 0 {
            if self.active == 0 {
                self.finished = true;
                return WorkStep::Stop;
            }
            return WorkStep::Wait;
        }
        match self.directories.pop_front() {
            Some(directory) => {
                self.active = self.active + 1;
                assert(self.directories@ =~= old(self).directories@.drop_first());
                WorkStep::Read(directory)
            },
            None => WorkStep::Wait,
        }
    }

    /// A worker has read a directory and found `children` in it: they wait
    /// their turn after the others, and the scan is over once nothing waits
    /// and nothing is being read.
    pub fn complete(&mut self, children: Vec<String>)
        requires
            old(self).active > 0,
        ensures
            final(self).directories@ == old(self).directories@ + children@,
            final(self).active == old(self).active - 1,
            final(self).finished == (old(self).finished || (final(self).directories@.len() == 0
                && final(self).active == 0)),
    {
        let mut i: usize = 0;
        let ghost start = self.directories@;
        while i < children.len()
            invariant
                i <= children@.len(),
                self.directories@ == start + children@.take(i as int),
                self.active == old(self).active,
                self.finished == old(self).finished,
                start == old(self).directories@,
            decreases children@.len() - i,
        {
            self.directories.push_back(children[i].clone());
            i = i + 1;
            assert(self.directories@ =~= start + children@.take(i as int));
        }
        assert(children@.take(children@.len() as int) =~= children@);
        self.active = self.active - 1;
        if self.directories.len() == 0 && self.active == 0 {
            self.finished = true;
        }
    }
}

/// Progress is reported after every 128 directories.
pub fn progress_due(count: usize) -> (due: bool)
    ensures
        due == (count % 128 == 0),
{
    count % 128 == 0
}

/// How many workers scan: the available parallelism (four when unknown),
/// kept between two and eight.
pub fn worker_count(available: Option<usize>) -> (n: usize)
    ensures
        n == (match available {
            Some(a) => if a < 2 {
                2
            } else if a > 8 {
                8
            } else {
                a
            },
            None => 4,
        }),
{
    let a = match available {
        Some(a) => a,
        None => 4,
    };
    if a < 2 {
        2
    } else if a > 8 {
        8
    } else {
        a
    }
}

} // verus!
