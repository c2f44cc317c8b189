//! What the screens decide apart from drawing: the actions they ask for,
//! which frames belong to a module, how a module or stream is explained, and
//! how paths and missing values are shown.

use crate::report::{DumpReport, FrameRow, ModuleOwnership, ModuleRow, SymbolStatus, ThreadRow};
use crate::text::{
    chars_of, contains, contains_exec, ends_with, ends_with_exec, lower, lower_of, split_chars,
    split_on, string_of,
};
use crate::view_model::ModulePresence;
use vstd::prelude::*;

verus! {

broadcast use vstd::string::group_string_axioms;

/// A request from a report screen to the application.
#[derive(Clone, Debug, PartialEq, Eq)]
pub enum ScreenAction {
    OpenThreads,
    OpenModules,
    ConfigureSymbols,
    OpenModule(String),
    ReanalyseWithSymbols,
    LoadComparison,
    OpenPath(String),
}

/// A request from the modules screen.
#[derive(Clone, Copy, Debug, PartialEq, Eq, Structural)]
pub enum ModuleAction {
    OpenFrame { thread: usize, frame: usize },
    ConfigureSymbols,
}

/// A request from the memory screen to open a frame.
#[derive(Clone, Copy, Debug, PartialEq, Eq, Structural)]
pub struct MemoryAction {
    pub thread: usize,
    pub frame: usize,
}

// ---------------------------------------------------------------------------
// Modules
// ---------------------------------------------------------------------------

/// The frame names the module: the same name, or a suffix of the module's
/// name (an empty frame module is a suffix of every name).
pub open spec fn frame_names_module(m: ModuleRow, f: FrameRow) -> bool {
    f.module@ == m.name@ || ends_with(m.name@, f.module@)
}

/// `(thread, frame)` positions, among the first frames of thread `t`, of
/// frames that name the module.
pub open spec fn module_frames_in(m: ModuleRow, t: int, frames: Seq<FrameRow>) -> Seq<(int, int)>
    decreases frames.len(),
{
    if frames.len() == 0 {
        Seq::empty()
    } else {
        let rest = module_frames_in(m, t, frames.drop_last());
        if frame_names_module(m, frames.last()) {
            rest.push((t, frames.len() - 1))
        } else {
            rest
        }
    }
}

/// `(thread, frame)` positions, in thread and frame order, of every frame
/// of the first threads that names the module.
pub open spec fn module_frames(m: ModuleRow, threads: Seq<ThreadRow>) -> Seq<(int, int)>
    decreases threads.len(),
{
    if threads.len() == 0 {
        Seq::empty()
    } else {
        module_frames(m, threads.drop_last()) + module_frames_in(
            m,
            threads.len() - 1,
            threads.last().frames@,
        )
    }
}

pub open spec fn position_pairs(v: Seq<(usize, usize)>) -> Seq<(int, int)> {
    v.map_values(|p: (usize, usize)| (p.0 as int, p.1 as int))
}

/// Whether the frame names the module.
pub fn frame_names_module_exec(module: &ModuleRow, frame: &FrameRow) -> (b: bool)
    ensures
        b == frame_names_module(*module, *frame),
{
    module.name == frame.module || ends_with_exec(
        &chars_of(module.name.as_str()),
        &chars_of(frame.module.as_str()),
    )
}

/// Every frame, by thread and frame index, that belongs to the module.
pub fn related_frames(report: &DumpReport, module: &ModuleRow) -> (r: Vec<(usize, usize)>)
    ensures
        position_pairs(r@) == module_frames(*module, report.threads@),
{
    let mut r: Vec<(usize, usize)> = Vec::new();
    let n = report.threads.len();
    let mut t: usize = 0;
    assert(position_pairs(r@) =~= Seq::<(int, int)>::empty());
    while t < n
        invariant
            n == report.threads@.len(),
            t <= n,
            position_pairs(r@) == module_frames(*module, report.threads@.take(t as int)),
        decreases n - t,
    {
        let frames = &report.threads[t].frames;
        let ghost base = position_pairs(r@);
        let m = frames.len();
        let mut f: usize = 0;
        while f < m
            invariant
                m == frames@.len(),
                f <= m,
                position_pairs(r@) == base + module_frames_in(
                    *module,
                    t as int,
                    frames@.take(f as int),
                ),
            decreases m - f,
        {
            let ghost before = position_pairs(r@);
            proof {
                assert(frames@.take(f + 1).drop_last() =~= frames@.take(f as int));
                assert(frames@.take(f + 1).last() == frames@[f as int]);
            }
            if frame_names_module_exec(module, &frames[f]) {
                r.push((t, f));
                assert(position_pairs(r@) =~= before.push((t as int, f as int)));
            }
            f = f + 1;
        }
        proof {
            assert(frames@.take(m as int) =~= frames@);
            assert(report.threads@.take(t + 1).drop_last() =~= report.threads@.take(t as int));
            assert(report.threads@.take(t + 1).last() == report.threads@[t as int]);
        }
        t = t + 1;
    }
    assert(report.threads@.take(n as int) =~= report.threads@);
    r
}

/// What to do next about a module, given how many frames reference it.
pub open spec fn recommendation_for(module: ModuleRow, references: nat) -> Seq<char> {
    if module.contains_fault && module.symbol_status == SymbolStatus::Missing {
        "Highest priority: load matching symbols, then inspect the faulting frame."@
    } else if module.contains_fault {
        "High priority: inspect related frames and source around the fault address."@
    } else if references > 0 && module.ownership == ModuleOwnership::ApplicationOrThirdParty {
        "Application code on a recovered stack; inspect callers near the crashing frame."@
    } else {
        "Low direct relevance unless it appears in another diagnostic or stack."@
    }
}

/// Advice for a module: the faulting module first (its symbols before all
/// else), then application code found on recovered stacks.
pub fn recommendation(module: &ModuleRow, references: usize) -> (s: &'static str)
    ensures
        s@ == recommendation_for(*module, references as nat),
{
    if module.contains_fault && module.symbol_status.is_missing() {
        "Highest priority: load matching symbols, then inspect the faulting frame."
    } else if module.contains_fault {
        "High priority: inspect related frames and source around the fault address."
    } else if references > 0 && module.ownership == ModuleOwnership::ApplicationOrThirdParty {
        "Application code on a recovered stack; inspect callers near the crashing frame."
    } else {
        "Low direct relevance unless it appears in another diagnostic or stack."
    }
}

// ---------------------------------------------------------------------------
// Streams
// ---------------------------------------------------------------------------

/// What a stream of the given kind holds, by the first of these words that
/// its lower-case name contains: exception, thread, module, system, memory.
pub open spec fn stream_purpose_of(kind: Seq<char>) -> Seq<char> {
    let k = lower(kind);
    if contains(k, "exception"@) {
        "Crash reason, fault address, and crashing thread"@
    } else if contains(k, "thread"@) {
        "Thread contexts and stack memory"@
    } else if contains(k, "module"@) {
        "Loaded executables and libraries"@
    } else if contains(k, "system"@) {
        "Operating system and CPU architecture"@
    } else if contains(k, "memory"@) {
        "Captured process memory regions"@
    } else {
        "Additional producer-specific dump data"@
    }
}

/// A one-line explanation of a stream kind.
pub fn stream_purpose(kind: &str) -> (s: &'static str)
    ensures
        s@ == stream_purpose_of(kind@),
{
    let k = lower_of(kind);
    if contains_exec(&k, &chars_of("exception")) {
        "Crash reason, fault address, and crashing thread"
    } else if contains_exec(&k, &chars_of("thread")) {
        "Thread contexts and stack memory"
    } else if contains_exec(&k, &chars_of("module")) {
        "Loaded executables and libraries"
    } else if contains_exec(&k, &chars_of("system")) {
        "Operating system and CPU architecture"
    } else if contains_exec(&k, &chars_of("memory")) {
        "Captured process memory regions"
    } else {
        "Additional producer-specific dump data"
    }
}

// ---------------------------------------------------------------------------
// Comparison screen
// ---------------------------------------------------------------------------

/// Some thread crashed with a recovered stack.
pub open spec fn has_crashed_stack(threads: Seq<ThreadRow>) -> bool {
    exists|i: int| 0 <= i < threads.len() && (#[trigger] threads[i]).crashed && threads[i].frames@.len() > 0
}

/// The report names a crashing thread, holds its stack, and records an
/// exception (its reason is not, ignoring ASCII case, "No exception stream").
pub open spec fn crash_evidence(report: DumpReport) -> bool {
    &&& report.crash_thread is Some
    &&& has_crashed_stack(report.threads@)
    &&& lower(report.crash_reason@) != lower("No exception stream"@)
}

/// Whether the report holds enough to compare crashes.
pub fn has_crash_evidence(report: &DumpReport) -> (b: bool)
    ensures
        b == crash_evidence(*report),
{
    if report.crash_thread.is_none() {
        return false;
    }
    let n = report.threads.len();
    let mut found = false;
    let mut i: usize = 0;
    while i < n
        invariant
            n == report.threads@.len(),
            i <= n,
            found == (exists|k: int|
                0 <= k < i && (#[trigger] report.threads@[k]).crashed
                    && report.threads@[k].frames@.len() > 0),
        decreases n - i,
    {
        let thread = &report.threads[i];
        if thread.crashed && thread.frames.len() > 0 {
            found = true;
        }
        i = i + 1;
    }
    if !found {
        return false;
    }
    let reason = lower_of(report.crash_reason.as_str());
    let marker = lower_of("No exception stream");
    let mut same = reason.len() == marker.len();
    let mut j: usize = 0;
    while same && j < reason.len()
        invariant
            reason@ == lower(report.crash_reason@),
            marker@ == lower("No exception stream"@),
            j <= reason@.len(),
            same ==> reason@.len() == marker@.len(),
            same ==> forall|k: int| 0 <= k < j ==> reason@[k] == marker@[k],
            !same ==> reason@ != marker@,
        decreases reason@.len() - j,
    {
        if reason[j] != marker[j] {
            same = false;
        }
        j = j + 1;
    }
    if same {
        assert(reason@ =~= marker@);
    }
    !same
}

/// What a change in the named comparison field means.
pub open spec fn field_meaning_of(field: Seq<char>) -> Seq<char> {
    if field == "Crash reason"@ {
        "Exception type differs"@
    } else if field == "Fault address"@ {
        "Fault location differs or is missing"@
    } else if field == "Operating system"@ {
        "Environment differs; context only"@
    } else if field == "Architecture"@ {
        "CPU target differs; context only"@
    } else if field == "Thread count"@ {
        "Process-state context; not crash identity"@
    } else if field == "Module count"@ {
        "Loaded-code inventory differs; inspect section 3"@
    } else {
        "Value changed"@
    }
}

fn same_text(a: &str, b: &str) -> (r: bool)
    ensures
        r == (a@ == b@),
{
    let x = chars_of(a);
    let y = chars_of(b);
    if x.len() != y.len() {
        return false;
    }
    let mut i: usize = 0;
    while i < x.len()
        invariant
            x@ == a@,
            y@ == b@,
            x@.len() == y@.len(),
            i <= x@.len(),
            forall|k: int| 0 <= k < i ==> x@[k] == y@[k],
        decreases x@.len() - i,
    {
        if x[i] != y[i] {
            return false;
        }
        i = i + 1;
    }
    assert(x@ =~= y@);
    true
}

/// The meaning of a changed comparison field.
pub fn field_meaning(field: &str) -> (s: &'static str)
    ensures
        s@ == field_meaning_of(field@),
{
    if same_text(field, "Crash reason") {
        "Exception type differs"
    } else if same_text(field, "Fault address") {
        "Fault location differs or is missing"
    } else if same_text(field, "Operating system") {
        "Environment differs; context only"
    } else if same_text(field, "Architecture") {
        "CPU target differs; context only"
    } else if same_text(field, "Thread count") {
        "Process-state context; not crash identity"
    } else if same_text(field, "Module count") {
        "Loaded-code inventory differs; inspect section 3"
    } else {
        "Value changed"
    }
}

/// The non-empty, non-`.` pieces among `segs`, in order.
pub open spec fn kept_segments(segs: Seq<Seq<char>>) -> Seq<Seq<char>>
    decreases segs.len(),
{
    if segs.len() == 0 {
        Seq::empty()
    } else {
        let rest = kept_segments(segs.drop_last());
        if segs.last().len() == 0 || segs.last() == seq!['.'] {
            rest
        } else {
            rest.push(segs.last())
        }
    }
}

/// The components of a slash-separated path as `Path::components` yields
/// them, each written as text: a leading `/` for the root, a leading `.` for
/// a path that starts with the current directory, then each name (`..`
/// included) with empty and inner `.` components dropped.
pub open spec fn path_components(s: Seq<char>) -> Seq<Seq<char>> {
    let segs = split_on(s, '/');
    let head = if s.len() > 0 && s[0] == '/' {
        seq![seq!['/']]
    } else if segs[0] == seq!['.'] {
        seq![seq!['.']]
    } else {
        Seq::empty()
    };
    head + kept_segments(segs)
}

/// The pieces joined with `/` between them.
pub open spec fn join_slash(parts: Seq<Seq<char>>) -> Seq<char>
    decreases parts.len(),
{
    if parts.len() == 0 {
        Seq::empty()
    } else if parts.len() == 1 {
        parts[0]
    } else {
        join_slash(parts.drop_last()) + seq!['/'] + parts.last()
    }
}

/// The last three components of a path, joined with `/`.
pub open spec fn compact_path_of(s: Seq<char>) -> Seq<char> {
    let c = path_components(s);
    join_slash(if c.len() > 3 {
        c.skip(c.len() - 3)
    } else {
        c
    })
}

/// A path shortened to its last three components.
pub fn compact_path(path: &str) -> (r: String)
    ensures
        r@ == compact_path_of(path@),
{
    let s = chars_of(path);
    let segs = split_chars(&s, '/');
    proof {
        crate::text::lemma_split_on_nonempty(s@, '/');
    }
    let mut comps: Vec<Vec<char>> = Vec::new();
    if s.len() > 0 && s[0] == '/' {
        let mut root: Vec<char> = Vec::new();
        root.push('/');
        comps.push(root);
    } else if segs[0].len() == 1 && segs[0][0] == '.' {
        let mut dot: Vec<char> = Vec::new();
        dot.push('.');
        comps.push(dot);
        assert(segs@[0]@ =~= seq!['.']);
    } else {
        assert(segs@[0]@ != seq!['.']) by {
            if segs@[0]@.len() == 1 {
                assert(segs@[0]@[0] != '.');
            }
        }
    }
    let ghost head = comps@.map_values(|v: Vec<char>| v@);
    let ghost all = split_on(s@, '/');
    assert(head == (if s@.len() > 0 && s@[0] == '/' {
        seq![seq!['/']]
    } else if all[0] == seq!['.'] {
        seq![seq!['.']]
    } else {
        Seq::<Seq<char>>::empty()
    })) by {
        if s@.len() > 0 && s@[0] == '/' {
            assert(head =~= seq![seq!['/']]);
        } else if all[0] == seq!['.'] {
            assert(head =~= seq![seq!['.']]);
        } else {
            assert(head =~= Seq::<Seq<char>>::empty());
        }
    }
    let n = segs.len();
    let mut i: usize = 0;
    while i < n
        invariant
            n == all.len(),
            all == split_on(s@, '/'),
            forall|k: int| 0 <= k < n ==> (#[trigger] segs@[k])@ == all[k],
            segs@.len() == n,
            i <= n,
            comps@.map_values(|v: Vec<char>| v@) == head + kept_segments(all.take(i as int)),
        decreases n - i,
    {
        let ghost before = comps@.map_values(|v: Vec<char>| v@);
        let seg = &segs[i];
        proof {
            assert(all.take(i + 1).drop_last() =~= all.take(i as int));
            assert(all.take(i + 1).last() == seg@);
        }
        let dot = seg.len() == 1 && seg[0] == '.';
        proof {
            if seg@.len() == 1 {
                if seg@[0] == '.' {
                    assert(seg@ =~= seq!['.']);
                } else {
                    assert(seg@ != seq!['.']);
                }
            }
        }
        if seg.len() > 0 && !dot {
            let mut copy: Vec<char> = Vec::new();
            let mut k: usize = 0;
            while k < seg.len()
                invariant
                    k <= seg@.len(),
                    copy@ == seg@.take(k as int),
                decreases seg@.len() - k,
            {
                copy.push(seg[k]);
                k = k + 1;
                assert(copy@ =~= seg@.take(k as int));
            }
            assert(seg@.take(seg@.len() as int) =~= seg@);
            comps.push(copy);
            assert(comps@.map_values(|v: Vec<char>| v@) =~= before.push(seg@));
        }
        i = i + 1;
    }
    assert(all.take(n as int) =~= all);
    let ghost c = comps@.map_values(|v: Vec<char>| v@);
    assert(c == path_components(path@));
    let total = comps.len();
    let first: usize = if total > 3 {
        total - 3
    } else {
        0
    };
    let ghost shown = if c.len() > 3 {
        c.skip(c.len() - 3)
    } else {
        c
    };
    assert(shown =~= c.skip(first as int));
    let mut out: Vec<char> = Vec::new();
    let mut j: usize = first;
    while j < total
        invariant
            first <= j <= total,
            total == comps@.len(),
            c == comps@.map_values(|v: Vec<char>| v@),
            out@ == join_slash(c.subrange(first as int, j as int)),
        decreases total - j,
    {
        if j > first {
            out.push('/');
        }
        let part = &comps[j];
        let ghost prefix = out@;
        let mut k: usize = 0;
        while k < part.len()
            invariant
                k <= part@.len(),
                out@ == prefix + part@.take(k as int),
            decreases part@.len() - k,
        {
            out.push(part[k]);
            k = k + 1;
            assert(out@ =~= prefix + part@.take(k as int));
        }
        proof {
            assert(part@.take(part@.len() as int) =~= part@);
            let pieces = c.subrange(first as int, j + 1);
            assert(pieces.drop_last() =~= c.subrange(first as int, j as int));
            assert(pieces.last() == part@);
            if j > first {
                assert(out@ =~= join_slash(pieces.drop_last()) + seq!['/'] + part@);
            } else {
                assert(c.subrange(first as int, j as int) =~= Seq::<Seq<char>>::empty());
                assert(out@ =~= part@);
            }
        }
        j = j + 1;
    }
    assert(c.subrange(first as int, total as int) =~= shown);
    string_of(&out)
}

/// Whether a module belongs to the operating system.
pub fn is_system_module(module: &ModulePresence) -> (b: bool)
    ensures
        b == (module.ownership == ModuleOwnership::System),
{
    module.ownership == ModuleOwnership::System
}

// ---------------------------------------------------------------------------
// Widgets
// ---------------------------------------------------------------------------

/// `value`, or "Not available" when it is empty.
pub fn value_or_unknown(value: &str) -> (s: &str)
    ensures
        s@ == (if value@.len() == 0 {
            "Not available"@
        } else {
            value@
        }),
{
    if value.is_empty() {
        "Not available"
    } else {
        value
    }
}

} // verus!
