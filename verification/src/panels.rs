//! The values that the report's panels show: which rows pass a panel's
//! filter, the counts in their headings, and the short conclusions they
//! draw before any detail is opened.

use crate::investigation::{cause_of, likely_cause};
use crate::memory::{contains, parse_address, region_contains, region_roles, roles_of};
use crate::memory_view::{
    has_crashed_role, reference_views, references_in, region_references, region_relevance,
    relevance_of,
};
use crate::report::{
    address_text, first_crashed, DumpReport, FrameRow, ModuleOwnership, ModuleRow, StreamRow,
    SymbolStatus, ThreadRow,
};
use crate::screens::{frame_names_module, frame_names_module_exec};
use crate::text::{
    chars_of, contains as text_contains, contains_exec, dec, dec_string, lower, lower_of, push_str,
    string_from, views,
};
use crate::view_model::{count_missing, missing_count};
use vstd::prelude::*;

verus! {

broadcast use vstd::string::group_string_axioms;

// ---------------------------------------------------------------------------
// Panel filters
// ---------------------------------------------------------------------------

/// A thread passes the threads panel's filter: the query is empty, or its
/// ASCII lower-case form occurs in the thread id or in the lower-case name.
pub open spec fn thread_visible(t: ThreadRow, query: Seq<char>) -> bool {
    let q = lower(query);
    q.len() == 0 || text_contains(dec(t.id as nat), q) || text_contains(lower(t.name@), q)
}

/// A module passes the modules panel's filter: the query is empty, or its
/// lower-case form occurs in the lower-case module name.
pub open spec fn module_visible(m: ModuleRow, query: Seq<char>) -> bool {
    let q = lower(query);
    q.len() == 0 || text_contains(lower(m.name@), q)
}

/// A stream passes the streams panel's filter: the query is empty, or its
/// lower-case form occurs in the lower-case stream kind.
pub open spec fn stream_visible(s: StreamRow, query: Seq<char>) -> bool {
    let q = lower(query);
    q.len() == 0 || text_contains(lower(s.kind@), q)
}

/// Positions, among the first `k` threads, of those that pass the filter.
pub open spec fn visible_threads_upto(threads: Seq<ThreadRow>, query: Seq<char>, k: nat) -> Seq<usize>
    decreases k,
{
    if k == 0 {
        Seq::empty()
    } else {
        let rest = visible_threads_upto(threads, query, (k - 1) as nat);
        if thread_visible(threads[k - 1], query) {
            rest.push((k - 1) as usize)
        } else {
            rest
        }
    }
}

/// Positions, among the first `k` modules, of those that pass the filter.
pub open spec fn visible_modules_upto(modules: Seq<ModuleRow>, query: Seq<char>, k: nat) -> Seq<usize>
    decreases k,
{
    if k == 0 {
        Seq::empty()
    } else {
        let rest = visible_modules_upto(modules, query, (k - 1) as nat);
        if module_visible(modules[k - 1], query) {
            rest.push((k - 1) as usize)
        } else {
            rest
        }
    }
}

/// Positions, among the first `k` streams, of those that pass the filter.
pub open spec fn visible_streams_upto(streams: Seq<StreamRow>, query: Seq<char>, k: nat) -> Seq<usize>
    decreases k,
{
    if k == 0 {
        Seq::empty()
    } else {
        let rest = visible_streams_upto(streams, query, (k - 1) as nat);
        if stream_visible(streams[k - 1], query) {
            rest.push((k - 1) as usize)
        } else {
            rest
        }
    }
}

/// The positions of the threads that pass the threads panel's filter.
pub fn visible_threads(report: &DumpReport, query: &str) -> (r: Vec<usize>)
    ensures
        r@ == visible_threads_upto(report.threads@, query@, report.threads@.len()),
{
    let q = lower_of(query);
    let mut r: Vec<usize> = Vec::new();
    let mut i: usize = 0;
    while i < report.threads.len()
        invariant
            i <= report.threads@.len(),
            q@ == lower(query@),
            r@ == visible_threads_upto(report.threads@, query@, i as nat),
        decreases report.threads@.len() - i,
    {
        let t = &report.threads[i];
        let shown = q.len() == 0 || contains_exec(&chars_of(dec_string(t.id as u64).as_str()), &q)
            || contains_exec(&lower_of(t.name.as_str()), &q);
        if shown {
            r.push(i);
        }
        i = i + 1;
    }
    r
}

/// The positions of the modules that pass the modules panel's filter.
pub fn visible_modules(report: &DumpReport, query: &str) -> (r: Vec<usize>)
    ensures
        r@ == visible_modules_upto(report.modules@, query@, report.modules@.len()),
{
    let q = lower_of(query);
    let mut r: Vec<usize> = Vec::new();
    let mut i: usize = 0;
    while i < report.modules.len()
        invariant
            i <= report.modules@.len(),
            q@ == lower(query@),
            r@ == visible_modules_upto(report.modules@, query@, i as nat),
        decreases report.modules@.len() - i,
    {
        if q.len() == 0 || contains_exec(&lower_of(report.modules[i].name.as_str()), &q) {
            r.push(i);
        }
        i = i + 1;
    }
    r
}

/// The positions of the streams that pass the streams panel's filter.
pub fn visible_streams(report: &DumpReport, query: &str) -> (r: Vec<usize>)
    ensures
        r@ == visible_streams_upto(report.streams@, query@, report.streams@.len()),
{
    let q = lower_of(query);
    let mut r: Vec<usize> = Vec::new();
    let mut i: usize = 0;
    while i < report.streams.len()
        invariant
            i <= report.streams@.len(),
            q@ == lower(query@),
            r@ == visible_streams_upto(report.streams@, query@, i as nat),
        decreases report.streams@.len() - i,
    {
        if q.len() == 0 || contains_exec(&lower_of(report.streams[i].kind.as_str()), &q) {
            r.push(i);
        }
        i = i + 1;
    }
    r
}

// ---------------------------------------------------------------------------
// Counts in panel headings
// ---------------------------------------------------------------------------

/// Some application or third-party module names the frame.
pub open spec fn application_frame(modules: Seq<ModuleRow>, f: FrameRow) -> bool {
    exists|m: int|
        0 <= m < modules.len() && (#[trigger] modules[m]).ownership
            == ModuleOwnership::ApplicationOrThirdParty && frame_names_module(modules[m], f)
}

/// How many of the frames are application frames.
pub open spec fn application_count(modules: Seq<ModuleRow>, frames: Seq<FrameRow>) -> nat
    decreases frames.len(),
{
    if frames.len() == 0 {
        0
    } else {
        application_count(modules, frames.drop_last()) + (if application_frame(
            modules,
            frames.last(),
        ) {
            1nat
        } else {
            0nat
        })
    }
}

fn is_application_frame(modules: &Vec<ModuleRow>, frame: &FrameRow) -> (b: bool)
    ensures
        b == application_frame(modules@, *frame),
{
    let mut i: usize = 0;
    while i < modules.len()
        invariant
            i <= modules@.len(),
            forall|m: int|
                0 <= m < i ==> !((#[trigger] modules@[m]).ownership
                    == ModuleOwnership::ApplicationOrThirdParty && frame_names_module(
                    modules@[m],
                    *frame,
                )),
        decreases modules@.len() - i,
    {
        let m = &modules[i];
        if m.ownership == ModuleOwnership::ApplicationOrThirdParty && frame_names_module_exec(
            m,
            frame,
        ) {
            return true;
        }
        i = i + 1;
    }
    false
}

/// For the thread at `thread`: how many frames lack symbols, and how many
/// belong to application or third-party modules.
pub fn frame_counts(report: &DumpReport, thread: usize) -> (r: (usize, usize))
    requires
        thread < report.threads@.len(),
    ensures
        r.0 == missing_count(report.threads@[thread as int].frames@),
        r.1 == application_count(report.modules@, report.threads@[thread as int].frames@),
{
    let frames = &report.threads[thread].frames;
    let missing = count_missing(frames);
    let mut application: usize = 0;
    let mut i: usize = 0;
    while i < frames.len()
        invariant
            i <= frames@.len(),
            application == application_count(report.modules@, frames@.take(i as int)),
            application <= i,
        decreases frames@.len() - i,
    {
        if is_application_frame(&report.modules, &frames[i]) {
            application = application + 1;
        }
        i = i + 1;
        assert(frames@.take(i as int).drop_last() =~= frames@.take(i - 1));
    }
    assert(frames@.take(frames@.len() as int) =~= frames@);
    (missing, application)
}

/// How many modules of the first `k` lack symbols.
pub open spec fn missing_module_count(modules: Seq<ModuleRow>, k: nat) -> nat
    decreases k,
{
    if k == 0 {
        0
    } else {
        missing_module_count(modules, (k - 1) as nat) + (if modules[k - 1].symbol_status
            == SymbolStatus::Missing {
            1nat
        } else {
            0nat
        })
    }
}

/// How many modules lack symbols.
pub fn modules_missing_symbols(report: &DumpReport) -> (n: usize)
    ensures
        n == missing_module_count(report.modules@, report.modules@.len()),
{
    let mut n: usize = 0;
    let mut i: usize = 0;
    while i < report.modules.len()
        invariant
            i <= report.modules@.len(),
            n == missing_module_count(report.modules@, i as nat),
            n <= i,
        decreases report.modules@.len() - i,
    {
        if report.modules[i].symbol_status.is_missing() {
            n = n + 1;
        }
        i = i + 1;
    }
    n
}

// ---------------------------------------------------------------------------
// Overview
// ---------------------------------------------------------------------------

/// The top frame of the first crashed thread.
pub open spec fn top_frame(report: DumpReport) -> Option<FrameRow> {
    match first_crashed(report.threads@) {
        Some(i) => if report.threads@[i].frames@.len() > 0 {
            Some(report.threads@[i].frames@[0])
        } else {
            None
        },
        None => None,
    }
}

/// Where the crash most likely happened: the top frame's function, else its
/// module, else its instruction address.
pub open spec fn failure_location_of(report: DumpReport) -> Seq<char> {
    match top_frame(report) {
        Some(f) => if f.function@.len() > 0 {
            f.function@
        } else if f.module@.len() > 0 {
            f.module@
        } else {
            address_text(f.instruction@)
        },
        None => "No crashing frame recovered"@,
    }
}

/// The likely cause and the top frame's confidence ("Not available" when it
/// has none, "unknown" without a top frame).
pub open spec fn failure_confidence_of(report: DumpReport) -> Seq<char> {
    cause_of(report) + " \u{b7} confidence "@ + match top_frame(report) {
        Some(f) => if f.trust@.len() == 0 {
            "Not available"@
        } else {
            f.trust@
        },
        None => "unknown"@,
    }
}

fn top_frame_exec(report: &DumpReport) -> (r: Option<&FrameRow>)
    ensures
        match r {
            Some(f) => top_frame(*report) == Some(*f),
            None => top_frame(*report) is None,
        },
{
    match crate::report::crashed_thread_index(report) {
        Some(t) => {
            if report.threads[t].frames.len() > 0 {
                Some(&report.threads[t].frames[0])
            } else {
                None
            }
        },
        None => None,
    }
}

/// The overview's headline: where the crash most likely happened.
pub fn failure_location(report: &DumpReport) -> (s: String)
    ensures
        s@ == failure_location_of(*report),
{
    match top_frame_exec(report) {
        Some(frame) => {
            if !frame.function.as_str().is_empty() {
                frame.function.clone()
            } else if !frame.module.as_str().is_empty() {
                frame.module.clone()
            } else {
                frame.instruction.display()
            }
        },
        None => string_from("No crashing frame recovered"),
    }
}

/// The overview's second line: the likely cause and the top frame's
/// confidence.
pub fn failure_confidence(report: &DumpReport) -> (s: String)
    ensures
        s@ == failure_confidence_of(*report),
{
    let mut s = string_from(likely_cause(report));
    push_str(&mut s, " \u{b7} confidence ");
    match top_frame_exec(report) {
        Some(frame) => {
            if frame.trust.as_str().is_empty() {
                push_str(&mut s, "Not available");
            } else {
                push_str(&mut s, frame.trust.as_str());
            }
        },
        None => push_str(&mut s, "unknown"),
    }
    s
}

// ---------------------------------------------------------------------------
// Memory panels
// ---------------------------------------------------------------------------

/// Some captured region holds the fault address.
pub open spec fn fault_captured(report: DumpReport) -> bool {
    exists|i: int|
        0 <= i < report.memory@.len() && region_contains(
            #[trigger] report.memory@[i],
            report.crash_address@,
        )
}

/// The crashed thread's stack start lies in some captured region.
pub open spec fn crashed_stack_captured(report: DumpReport) -> bool {
    match first_crashed(report.threads@) {
        Some(t) => exists|i: int|
            0 <= i < report.memory@.len() && region_contains(
                #[trigger] report.memory@[i],
                report.threads@[t].stack_start@,
            ),
        None => false,
    }
}

fn any_region_contains(report: &DumpReport, address: Option<u64>) -> (b: bool)
    ensures
        b == (exists|i: int|
            0 <= i < report.memory@.len() && region_contains(#[trigger] report.memory@[i], address)),
{
    let mut i: usize = 0;
    while i < report.memory.len()
        invariant
            i <= report.memory@.len(),
            forall|k: int| 0 <= k < i ==> !region_contains(#[trigger] report.memory@[k], address),
        decreases report.memory@.len() - i,
    {
        if contains(&report.memory[i], address) {
            return true;
        }
        i = i + 1;
    }
    false
}

/// Whether the dump captured the fault address and whether it captured the
/// crashed thread's stack.
pub fn memory_conclusion(report: &DumpReport) -> (r: (bool, bool))
    ensures
        r.0 == fault_captured(*report),
        r.1 == crashed_stack_captured(*report),
{
    let fault = any_region_contains(report, parse_address(&report.crash_address));
    let stack = match crate::report::crashed_thread_index(report) {
        Some(t) => any_region_contains(report, parse_address(&report.threads[t].stack_start)),
        None => false,
    };
    (fault, stack)
}

/// The region holds the fault address or the crashed thread's stack.
pub open spec fn crash_linked(report: DumpReport, region: crate::report::MemoryRow) -> bool {
    region_contains(region, report.crash_address@) || has_crashed_role(roles_of(report, region))
}

/// Index of the first captured region linked to the crash.
pub open spec fn first_crash_linked(report: DumpReport, k: nat) -> Option<int>
    decreases k,
{
    if k == 0 {
        None
    } else {
        match first_crash_linked(report, (k - 1) as nat) {
            Some(i) => Some(i),
            None => if k - 1 < report.memory@.len() && crash_linked(report, report.memory@[k - 1]) {
                Some(k - 1)
            } else {
                None
            },
        }
    }
}

fn crash_linked_exec(report: &DumpReport, region: &crate::report::MemoryRow) -> (b: bool)
    ensures
        b == crash_linked(*report, *region),
{
    if contains(region, parse_address(&report.crash_address)) {
        return true;
    }
    let roles = region_roles(report, region);
    let mut i: usize = 0;
    while i < roles.len()
        invariant
            i <= roles@.len(),
            views(roles@) == roles_of(*report, *region),
            forall|t: int| 0 <= t < i ==> !text_contains(#[trigger] roles@[t]@, "(crashed)"@),
        decreases roles@.len() - i,
    {
        if contains_exec(&chars_of(roles[i].as_str()), &chars_of("(crashed)")) {
            assert(views(roles@)[i as int] == roles@[i as int]@);
            return true;
        }
        i = i + 1;
    }
    assert forall|t: int| 0 <= t < views(roles@).len() implies !text_contains(
        #[trigger] views(roles@)[t],
        "(crashed)"@,
    ) by {
        assert(views(roles@)[t] == roles@[t]@);
    }
    false
}

proof fn lemma_first_crash_linked_stays(report: DumpReport, a: nat, b: nat, i: int)
    requires
        a <= b,
        first_crash_linked(report, a) == Some(i),
    ensures
        first_crash_linked(report, b) == Some(i),
    decreases b,
{
    if a < b {
        lemma_first_crash_linked_stays(report, a, (b - 1) as nat, i);
    }
}

proof fn lemma_first_crash_linked_range(report: DumpReport, k: nat)
    ensures
        first_crash_linked(report, k) matches Some(i) ==> 0 <= i < k,
    decreases k,
{
    if k > 0 {
        lemma_first_crash_linked_range(report, (k - 1) as nat);
    }
}

/// The first captured region linked to the crash.
pub fn crash_region_index(report: &DumpReport) -> (r: Option<usize>)
    ensures
        match first_crash_linked(*report, report.memory@.len()) {
            Some(i) => 0 <= i < report.memory@.len() && r == Some(i as usize),
            None => r is None,
        },
{
    let mut i: usize = 0;
    while i < report.memory.len()
        invariant
            i <= report.memory@.len(),
            first_crash_linked(*report, i as nat) is None,
        decreases report.memory@.len() - i,
    {
        if crash_linked_exec(report, &report.memory[i]) {
            proof {
                assert(first_crash_linked(*report, (i + 1) as nat) == Some(i as int));
                lemma_first_crash_linked_range(*report, report.memory@.len());
                lemma_first_crash_linked_stays(
                    *report,
                    (i + 1) as nat,
                    report.memory@.len(),
                    i as int,
                );
            }
            return Some(i);
        }
        i = i + 1;
    }
    None
}

/// The evidence panel's conclusion: the relevance of the first region
/// linked to the crash, or a note that none was captured.
pub open spec fn crash_memory_relevance_of(report: DumpReport) -> (Seq<char>, Seq<char>, Seq<char>) {
    match first_crash_linked(report, report.memory@.len()) {
        Some(i) => {
            let region = report.memory@[i];
            relevance_of(
                report,
                region,
                references_in(report.threads@, region).len(),
                roles_of(report, region),
            )
        },
        None => (
            "UNKNOWN"@,
            "No crash-linked memory was captured"@,
            "Use the crashing stack and modules; this dump cannot support memory-level conclusions."@,
        ),
    }
}

/// What the evidence panel concludes about the memory linked to the crash.
pub fn crash_memory_relevance(report: &DumpReport) -> (r: (&'static str, &'static str, String))
    ensures
        (r.0@, r.1@, r.2@) == crash_memory_relevance_of(*report),
{
    let count = report.memory.len();
    match crash_region_index(report) {
        Some(i) => {
            let region = &report.memory[i];
            let roles = region_roles(report, region);
            let references = region_references(report, region);
            proof {
                assert(reference_views(references@).len() == references@.len());
            }
            let listed_roles = roles.as_slice();
            assert(listed_roles@ == roles@);
            let r = region_relevance(report, region, references.len(), listed_roles);
            proof {
                lemma_first_crash_linked_range(*report, report.memory@.len());
                assert(*region == report.memory@[i as int]);
                assert(references_in(report.threads@, *region).len() == references@.len());
                assert(views(roles@) == roles_of(*report, *region));
                assert(count == report.memory@.len());
            }
            r
        },
        None => (
            "UNKNOWN",
            "No crash-linked memory was captured",
            string_from(
                "Use the crashing stack and modules; this dump cannot support memory-level conclusions.",
            ),
        ),
    }
}

/// The label of a region in the region list: its link to the fault or the
/// crashed stack, else its first role, else how many recovered values point
/// into it.
pub open spec fn region_purpose_of(report: DumpReport, region: crate::report::MemoryRow) -> Seq<
    char,
> {
    let roles = roles_of(report, region);
    let count = references_in(report.threads@, region).len();
    if region_contains(region, report.crash_address@) {
        "FAULT ADDRESS"@
    } else if has_crashed_role(roles) {
        "CRASHED THREAD STACK"@
    } else if roles.len() > 0 {
        roles[0]
    } else if count > 0 {
        "REFERENCED BY "@ + dec(count) + " FRAME VALUES"@
    } else {
        "OTHER CAPTURED MEMORY"@
    }
}

/// The label of a region in the memory panel's region list.
pub fn region_purpose(report: &DumpReport, region: &crate::report::MemoryRow) -> (s: String)
    ensures
        s@ == region_purpose_of(*report, *region),
{
    if contains(region, parse_address(&report.crash_address)) {
        return string_from("FAULT ADDRESS");
    }
    let roles = region_roles(report, region);
    let references = region_references(report, region);
    proof {
        assert(reference_views(references@).len() == references@.len());
    }
    let mut i: usize = 0;
    while i < roles.len()
        invariant
            i <= roles@.len(),
            views(roles@) == roles_of(*report, *region),
            !region_contains(*region, report.crash_address@),
            forall|t: int| 0 <= t < i ==> !text_contains(#[trigger] roles@[t]@, "(crashed)"@),
        decreases roles@.len() - i,
    {
        if contains_exec(&chars_of(roles[i].as_str()), &chars_of("(crashed)")) {
            assert(views(roles@)[i as int] == roles@[i as int]@);
            assert(text_contains(views(roles@)[i as int], "(crashed)"@));
            assert(has_crashed_role(views(roles@)));
            assert(!region_contains(*region, report.crash_address@));
            return string_from("CRASHED THREAD STACK");
        }
        i = i + 1;
    }
    assert forall|t: int| 0 <= t < views(roles@).len() implies !text_contains(
        #[trigger] views(roles@)[t],
        "(crashed)"@,
    ) by {
        assert(views(roles@)[t] == roles@[t]@);
    }
    if roles.len() > 0 {
        assert(views(roles@)[0] == roles@[0]@);
        return roles[0].clone();
    }
    if references.len() > 0 {
        let mut s = string_from("REFERENCED BY ");
        push_str(&mut s, dec_string(references.len() as u64).as_str());
        push_str(&mut s, " FRAME VALUES");
        return s;
    }
    string_from("OTHER CAPTURED MEMORY")
}

/// The list position first shown in the memory panel: the first listed
/// region holding the fault address, else the first that recovered values
/// point into, else the first.
pub open spec fn default_region_of(report: DumpReport, listed: Seq<usize>) -> int {
    if exists|i: int|
        0 <= i < listed.len() && region_contains(
            report.memory@[#[trigger] listed[i] as int],
            report.crash_address@,
        ) {
        choose|i: int|
            0 <= i < listed.len() && region_contains(
                report.memory@[#[trigger] listed[i] as int],
                report.crash_address@,
            ) && forall|j: int|
                0 <= j < i ==> !region_contains(
                    report.memory@[#[trigger] listed[j] as int],
                    report.crash_address@,
                )
    } else if exists|i: int|
        0 <= i < listed.len() && references_in(
            report.threads@,
            report.memory@[#[trigger] listed[i] as int],
        ).len() > 0 {
        choose|i: int|
            0 <= i < listed.len() && references_in(
                report.threads@,
                report.memory@[#[trigger] listed[i] as int],
            ).len() > 0 && forall|j: int|
                0 <= j < i ==> references_in(
                    report.threads@,
                    report.memory@[#[trigger] listed[j] as int],
                ).len() == 0
    } else {
        0
    }
}

/// The memory panel's selected position in its list of `listed` regions:
/// the kept selection, moved back inside the list, or the first position
/// shown when nothing is selected.
pub fn memory_selection(report: &DumpReport, listed: &Vec<usize>, selected: Option<usize>) -> (r: usize)
    requires
        listed@.len() > 0,
        forall|i: int| 0 <= i < listed@.len() ==> #[trigger] listed@[i] < report.memory@.len(),
    ensures
        r < listed@.len(),
        match selected {
            Some(s) => r == (if s < listed@.len() {
                s as int
            } else {
                listed@.len() - 1
            }),
            None => r == default_region_of(*report, listed@),
        },
{
    match selected {
        Some(s) => {
            return if s < listed.len() {
                s
            } else {
                listed.len() - 1
            };
        },
        None => {},
    }
    let mut i: usize = 0;
    while i < listed.len()
        invariant
            selected is None,
            i <= listed@.len(),
            forall|k: int| 0 <= k < listed@.len() ==> #[trigger] listed@[k] < report.memory@.len(),
            forall|j: int|
                0 <= j < i ==> !region_contains(
                    report.memory@[#[trigger] listed@[j] as int],
                    report.crash_address@,
                ),
        decreases listed@.len() - i,
    {
        if contains(&report.memory[listed[i]], parse_address(&report.crash_address)) {
            assert(0 <= i < listed@.len() && region_contains(
                report.memory@[listed@[i as int] as int],
                report.crash_address@,
            ) && forall|j: int|
                0 <= j < i ==> !region_contains(
                    report.memory@[#[trigger] listed@[j] as int],
                    report.crash_address@,
                ));
            let ghost w = choose|k: int|
                0 <= k < listed@.len() && region_contains(
                    report.memory@[#[trigger] listed@[k] as int],
                    report.crash_address@,
                ) && forall|j: int|
                    0 <= j < k ==> !region_contains(
                        report.memory@[#[trigger] listed@[j] as int],
                        report.crash_address@,
                    );
            assert(w == i as int) by {
                if w < i {
                } else if w > i {
                    assert(!region_contains(
                        report.memory@[listed@[i as int] as int],
                        report.crash_address@,
                    ));
                }
            }
            return i;
        }
        i = i + 1;
    }
    let mut j: usize = 0;
    while j < listed.len()
        invariant
            selected is None,
            j <= listed@.len(),
            forall|k: int| 0 <= k < listed@.len() ==> #[trigger] listed@[k] < report.memory@.len(),
            forall|k: int|
                0 <= k < listed@.len() ==> !region_contains(
                    report.memory@[#[trigger] listed@[k] as int],
                    report.crash_address@,
                ),
            forall|k: int|
                0 <= k < j ==> references_in(
                    report.threads@,
                    report.memory@[#[trigger] listed@[k] as int],
                ).len() == 0,
        decreases listed@.len() - j,
    {
        let refs = region_references(report, &report.memory[listed[j]]);
        proof {
            assert(reference_views(refs@).len() == refs@.len());
        }
        if refs.len() > 0 {
            assert(0 <= j < listed@.len() && references_in(
                report.threads@,
                report.memory@[listed@[j as int] as int],
            ).len() > 0 && forall|m: int|
                0 <= m < j ==> references_in(
                    report.threads@,
                    report.memory@[#[trigger] listed@[m] as int],
                ).len() == 0);
            let ghost w = choose|k: int|
                0 <= k < listed@.len() && references_in(
                    report.threads@,
                    report.memory@[#[trigger] listed@[k] as int],
                ).len() > 0 && forall|m: int|
                    0 <= m < k ==> references_in(
                        report.threads@,
                        report.memory@[#[trigger] listed@[m] as int],
                    ).len() == 0;
            assert(w == j as int) by {
                if w > j {
                    assert(references_in(
                        report.threads@,
                        report.memory@[listed@[j as int] as int],
                    ).len() == 0);
                }
            }
            return j;
        }
        j = j + 1;
    }
    0
}

} // verus!
