//! The memory screen's reading of captured regions: why a region matters to
//! the crash, which recovered state points into it, and the cached results
//! that the screen shows for a filter, a selected region and the map.

use crate::memory::{
    decoded, decoded_pointers, extract_strings, pointer_views, query_matches, decoded_addressable,
    region_contains, region_roles, roles_of, strings_in, contains, matches_query, parse_address,
    AddressTarget, DecodedPointer, PointerView, TargetView,
};
use crate::path::{lemma_name_order, name_lt, name_lt_exec};
use crate::report::{
    address_text, parse_address_text, DumpReport, FrameRow, MemoryRow, ThreadRow, VirtualAddress,
};
use crate::text::{
    chars_of, contains as text_contains, contains_exec, dec, push_dec, push_str, starts_with,
    starts_with_exec, string_from, trim, trim_of, views,
};
use vstd::prelude::*;

verus! {

broadcast use vstd::string::group_string_axioms;

// ---------------------------------------------------------------------------
// Role tests
// ---------------------------------------------------------------------------

/// Some role mentions the crashed thread.
pub open spec fn has_crashed_role(roles: Seq<Seq<char>>) -> bool {
    exists|i: int| 0 <= i < roles.len() && text_contains(#[trigger] roles[i], "(crashed)"@)
}

/// Some role starts with `prefix`.
pub open spec fn has_role_prefix(roles: Seq<Seq<char>>, prefix: Seq<char>) -> bool {
    exists|i: int| 0 <= i < roles.len() && starts_with(#[trigger] roles[i], prefix)
}

fn any_contains(roles: &[String], needle: &str) -> (b: bool)
    ensures
        b == (exists|i: int| 0 <= i < roles@.len() && text_contains(#[trigger] roles@[i]@, needle@)),
{
    let nd = chars_of(needle);
    let mut i: usize = 0;
    while i < roles.len()
        invariant
            i <= roles@.len(),
            nd@ == needle@,
            forall|t: int| 0 <= t < i ==> !text_contains(#[trigger] roles@[t]@, needle@),
        decreases roles@.len() - i,
    {
        if contains_exec(&chars_of(roles[i].as_str()), &nd) {
            return true;
        }
        i = i + 1;
    }
    false
}

fn any_starts_with(roles: &[String], prefix: &str) -> (b: bool)
    ensures
        b == (exists|i: int| 0 <= i < roles@.len() && starts_with(#[trigger] roles@[i]@, prefix@)),
{
    let p = chars_of(prefix);
    let mut i: usize = 0;
    while i < roles.len()
        invariant
            i <= roles@.len(),
            p@ == prefix@,
            forall|t: int| 0 <= t < i ==> !starts_with(#[trigger] roles@[t]@, prefix@),
        decreases roles@.len() - i,
    {
        if starts_with_exec(&chars_of(roles[i].as_str()), &p) {
            return true;
        }
        i = i + 1;
    }
    false
}

proof fn lemma_roles_views(roles: Seq<String>)
    ensures
        (exists|i: int| 0 <= i < roles.len() && text_contains(#[trigger] roles[i]@, "(crashed)"@))
            == has_crashed_role(views(roles)),
        forall|p: Seq<char>|
            (exists|i: int| 0 <= i < roles.len() && starts_with(#[trigger] roles[i]@, p))
                == #[trigger] has_role_prefix(views(roles), p),
{
    let v = views(roles);
    if exists|i: int| 0 <= i < roles.len() && text_contains(#[trigger] roles[i]@, "(crashed)"@) {
        let i = choose|i: int| 0 <= i < roles.len() && text_contains(#[trigger] roles[i]@, "(crashed)"@);
        assert(v[i] == roles[i]@);
    }
    if has_crashed_role(v) {
        let i = choose|i: int| 0 <= i < v.len() && text_contains(#[trigger] v[i], "(crashed)"@);
        assert(v[i] == roles[i]@);
    }
    assert forall|p: Seq<char>|
        (exists|i: int| 0 <= i < roles.len() && starts_with(#[trigger] roles[i]@, p))
            == #[trigger] has_role_prefix(v, p) by {
        if exists|i: int| 0 <= i < roles.len() && starts_with(#[trigger] roles[i]@, p) {
            let i = choose|i: int| 0 <= i < roles.len() && starts_with(#[trigger] roles[i]@, p);
            assert(v[i] == roles[i]@);
        }
        if has_role_prefix(v, p) {
            let i = choose|i: int| 0 <= i < v.len() && starts_with(#[trigger] v[i], p);
            assert(v[i] == roles[i]@);
        }
    }
}

// ---------------------------------------------------------------------------
// Relevance of a region
// ---------------------------------------------------------------------------

/// Priority, headline and explanation of a region's relevance to the crash:
/// it holds the fault address; it is the crashed thread's stack; recovered
/// instructions or registers point into it; it is module memory; it is
/// another thread's stack; or nothing known relates it to the crash.
pub open spec fn relevance_of(
    report: DumpReport,
    region: MemoryRow,
    reference_count: nat,
    roles: Seq<Seq<char>>,
) -> (Seq<char>, Seq<char>, Seq<char>) {
    if region_contains(region, report.crash_address@) {
        (
            "HIGH"@,
            "Contains the recorded fault address"@,
            "Inspect pointers and nearby bytes because the processor reported the failure inside this address range."@,
        )
    } else if has_crashed_role(roles) {
        (
            "HIGH"@,
            "Stack memory for the crashed thread"@,
            "This region contains the failing thread's saved stack and may hold arguments, return addresses, and local pointer values."@,
        )
    } else if reference_count > 0 {
        (
            "RELEVANT"@,
            "Referenced by recovered execution state"@,
            dec(reference_count)
                + " recovered instruction or register value points into this region. Use the frame links below to inspect the relationship."@,
        )
    } else if has_role_prefix(roles, "Mapped to module"@) {
        (
            "CONTEXT"@,
            "Loaded module memory"@,
            "This region belongs to loaded code, but no recovered crash register or instruction directly references it."@,
        )
    } else if has_role_prefix(roles, "Stack for thread"@) {
        (
            "LOW"@,
            "Stack for a non-crashed thread"@,
            "This region describes another thread's state and currently has no direct link to the crash. It is usually safe to deprioritize."@,
        )
    } else {
        (
            "UNKNOWN"@,
            "No known relationship to the crash"@,
            "The dump captured these bytes, but the available fault, stack, module, and register evidence does not explain why they matter."@,
        )
    }
}

/// Why a region matters to the crash: a priority, a headline and an
/// explanation, from the region's roles and how many recovered values point
/// into it.
pub fn region_relevance(
    report: &DumpReport,
    region: &MemoryRow,
    reference_count: usize,
    roles: &[String],
) -> (r: (&'static str, &'static str, String))
    ensures
        (r.0@, r.1@, r.2@) == relevance_of(*report, *region, reference_count as nat, views(roles@)),
{
    proof {
        lemma_roles_views(roles@);
    }
    if contains(region, parse_address(&report.crash_address)) {
        return (
            "HIGH",
            "Contains the recorded fault address",
            string_from(
                "Inspect pointers and nearby bytes because the processor reported the failure inside this address range.",
            ),
        );
    }
    if any_contains(roles, "(crashed)") {
        return (
            "HIGH",
            "Stack memory for the crashed thread",
            string_from(
                "This region contains the failing thread's saved stack and may hold arguments, return addresses, and local pointer values.",
            ),
        );
    }
    if reference_count > 0 {
        let mut detail = crate::text::dec_string(reference_count as u64);
        push_str(
            &mut detail,
            " recovered instruction or register value points into this region. Use the frame links below to inspect the relationship.",
        );
        return ("RELEVANT", "Referenced by recovered execution state", detail);
    }
    if any_starts_with(roles, "Mapped to module") {
        return (
            "CONTEXT",
            "Loaded module memory",
            string_from(
                "This region belongs to loaded code, but no recovered crash register or instruction directly references it.",
            ),
        );
    }
    if any_starts_with(roles, "Stack for thread") {
        return (
            "LOW",
            "Stack for a non-crashed thread",
            string_from(
                "This region describes another thread's state and currently has no direct link to the crash. It is usually safe to deprioritize.",
            ),
        );
    }
    (
        "UNKNOWN",
        "No known relationship to the crash",
        string_from(
            "The dump captured these bytes, but the available fault, stack, module, and register evidence does not explain why they matter.",
        ),
    )
}

// ---------------------------------------------------------------------------
// The thread whose stack starts in a region
// ---------------------------------------------------------------------------

/// Index of the first thread whose stack start lies in the region.
pub open spec fn first_stack_in(threads: Seq<ThreadRow>, region: MemoryRow) -> Option<int>
    decreases threads.len(),
{
    if threads.len() == 0 {
        None
    } else if region_contains(region, threads[0].stack_start@) {
        Some(0)
    } else {
        match first_stack_in(threads.drop_first(), region) {
            Some(i) => Some(i + 1),
            None => None,
        }
    }
}

/// The first thread whose stack starts inside the region: its index, its id
/// and whether it crashed.
pub fn stack_thread_for_region(report: &DumpReport, region: &MemoryRow) -> (r: Option<
    (usize, u32, bool),
>)
    ensures
        match first_stack_in(report.threads@, *region) {
            Some(i) => r == Some(
                (i as usize, report.threads@[i].id, report.threads@[i].crashed),
            ) && i < report.threads@.len(),
            None => r is None,
        },
{
    let n = report.threads.len();
    let mut i: usize = 0;
    assert(report.threads@.skip(0) =~= report.threads@);
    while i < n
        invariant
            n == report.threads@.len(),
            i <= n,
            first_stack_in(report.threads@, *region) == (match first_stack_in(
                report.threads@.skip(i as int),
                *region,
            ) {
                Some(j) => Some(j + i),
                None => None,
            }),
        decreases n - i,
    {
        proof {
            assert(report.threads@.skip(i as int).drop_first() =~= report.threads@.skip(i + 1));
        }
        let thread = &report.threads[i];
        if contains(region, parse_address(&thread.stack_start)) {
            return Some((i, thread.id, thread.crashed));
        }
        i = i + 1;
    }
    None
}

// ---------------------------------------------------------------------------
// Recovered state that points into a region
// ---------------------------------------------------------------------------

/// A recovered instruction or register value that points into a region.
pub struct RegionReference {
    pub thread: usize,
    pub frame: usize,
    pub description: String,
}

pub struct ReferenceView {
    pub thread: int,
    pub frame: int,
    pub description: Seq<char>,
}

impl View for RegionReference {
    type V = ReferenceView;

    open spec fn view(&self) -> ReferenceView {
        ReferenceView {
            thread: self.thread as int,
            frame: self.frame as int,
            description: self.description@,
        }
    }
}

pub open spec fn reference_views(v: Seq<RegionReference>) -> Seq<ReferenceView> {
    v.map_values(|r: RegionReference| r@)
}

/// `Thread <id> frame <index>`.
pub open spec fn frame_label(thread: ThreadRow, frame: FrameRow) -> Seq<char> {
    "Thread "@ + dec(thread.id as nat) + " frame "@ + dec(frame.index as nat)
}

/// References from the frame's registers whose values lie in the region.
pub open spec fn register_references(
    t: int,
    thread: ThreadRow,
    f: int,
    frame: FrameRow,
    registers: Seq<(String, String)>,
    region: MemoryRow,
) -> Seq<ReferenceView>
    decreases registers.len(),
{
    if registers.len() == 0 {
        Seq::empty()
    } else {
        let rest = register_references(t, thread, f, frame, registers.drop_last(), region);
        let (name, value) = registers.last();
        if region_contains(region, parse_address_text(value@)) {
            rest.push(
                ReferenceView {
                    thread: t,
                    frame: f,
                    description: frame_label(thread, frame) + " register "@ + name@ + " = "@
                        + value@,
                },
            )
        } else {
            rest
        }
    }
}

/// References from one frame: its instruction, then its registers.
pub open spec fn frame_references(
    t: int,
    thread: ThreadRow,
    f: int,
    frame: FrameRow,
    region: MemoryRow,
) -> Seq<ReferenceView> {
    (if region_contains(region, frame.instruction@) {
        seq![
            ReferenceView {
                thread: t,
                frame: f,
                description: frame_label(thread, frame) + " instruction "@ + address_text(
                    frame.instruction@,
                ),
            },
        ]
    } else {
        Seq::empty()
    }) + register_references(t, thread, f, frame, frame.registers@, region)
}

/// References from the first frames of one thread, frame by frame.
pub open spec fn thread_references(
    t: int,
    thread: ThreadRow,
    frames: Seq<FrameRow>,
    region: MemoryRow,
) -> Seq<ReferenceView>
    decreases frames.len(),
{
    if frames.len() == 0 {
        Seq::empty()
    } else {
        thread_references(t, thread, frames.drop_last(), region) + frame_references(
            t,
            thread,
            frames.len() - 1,
            frames.last(),
            region,
        )
    }
}

/// References from the first threads, thread by thread.
pub open spec fn references_in(threads: Seq<ThreadRow>, region: MemoryRow) -> Seq<ReferenceView>
    decreases threads.len(),
{
    if threads.len() == 0 {
        Seq::empty()
    } else {
        references_in(threads.drop_last(), region) + thread_references(
            threads.len() - 1,
            threads.last(),
            threads.last().frames@,
            region,
        )
    }
}

fn frame_label_exec(thread: &ThreadRow, frame: &FrameRow) -> (s: String)
    ensures
        s@ == frame_label(*thread, *frame),
{
    let mut s = string_from("Thread ");
    push_dec(&mut s, thread.id as u64);
    push_str(&mut s, " frame ");
    push_dec(&mut s, frame.index);
    s
}

/// Appends the references of one frame.
fn push_frame_references(
    out: &mut Vec<RegionReference>,
    t: usize,
    thread: &ThreadRow,
    f: usize,
    frame: &FrameRow,
    region: &MemoryRow,
)
    ensures
        reference_views(final(out)@) == reference_views(old(out)@) + frame_references(
            t as int,
            *thread,
            f as int,
            *frame,
            *region,
        ),
{
    let ghost start = reference_views(out@);
    if contains(region, parse_address(&frame.instruction)) {
        let mut d = frame_label_exec(thread, frame);
        push_str(&mut d, " instruction ");
        let a = frame.instruction.display();
        push_str(&mut d, a.as_str());
        out.push(RegionReference { thread: t, frame: f, description: d });
    }
    let ghost mid = reference_views(out@);
    assert(mid =~= start + (if region_contains(*region, frame.instruction@) {
        seq![
            ReferenceView {
                thread: t as int,
                frame: f as int,
                description: frame_label(*thread, *frame) + " instruction "@ + address_text(
                    frame.instruction@,
                ),
            },
        ]
    } else {
        Seq::empty()
    }));
    let regs = &frame.registers;
    let n = regs.len();
    let mut k: usize = 0;
    while k < n
        invariant
            n == regs@.len(),
            regs@ == frame.registers@,
            k <= n,
            reference_views(out@) == mid + register_references(
                t as int,
                *thread,
                f as int,
                *frame,
                regs@.take(k as int),
                *region,
            ),
        decreases n - k,
    {
        let ghost before = reference_views(out@);
        let (name, value) = &regs[k];
        proof {
            assert(regs@.take(k + 1).drop_last() =~= regs@.take(k as int));
            assert(regs@.take(k + 1).last() == regs@[k as int]);
        }
        if contains(region, parse_address(value)) {
            let mut d = frame_label_exec(thread, frame);
            push_str(&mut d, " register ");
            push_str(&mut d, name.as_str());
            push_str(&mut d, " = ");
            push_str(&mut d, value.as_str());
            out.push(RegionReference { thread: t, frame: f, description: d });
            assert(reference_views(out@) =~= before.push(
                ReferenceView {
                    thread: t as int,
                    frame: f as int,
                    description: frame_label(*thread, *frame) + " register "@ + name@ + " = "@
                        + value@,
                },
            ));
        }
        k = k + 1;
    }
    assert(regs@.take(n as int) =~= regs@);
    assert(reference_views(out@) =~= start + frame_references(
        t as int,
        *thread,
        f as int,
        *frame,
        *region,
    ));
}

/// Every recovered instruction and register value, in thread and frame
/// order, that points into the region.
pub fn region_references(report: &DumpReport, region: &MemoryRow) -> (refs: Vec<
    RegionReference,
>)
    ensures
        reference_views(refs@) == references_in(report.threads@, *region),
{
    let mut refs: Vec<RegionReference> = Vec::new();
    let n = report.threads.len();
    let mut t: usize = 0;
    assert(reference_views(refs@) =~= Seq::<ReferenceView>::empty());
    while t < n
        invariant
            n == report.threads@.len(),
            t <= n,
            reference_views(refs@) == references_in(report.threads@.take(t as int), *region),
        decreases n - t,
    {
        let thread = &report.threads[t];
        let ghost base = reference_views(refs@);
        let m = thread.frames.len();
        let mut f: usize = 0;
        while f < m
            invariant
                m == thread.frames@.len(),
                f <= m,
                reference_views(refs@) == base + thread_references(
                    t as int,
                    *thread,
                    thread.frames@.take(f as int),
                    *region,
                ),
            decreases m - f,
        {
            push_frame_references(&mut refs, t, thread, f, &thread.frames[f], region);
            proof {
                assert(thread.frames@.take(f + 1).drop_last() =~= thread.frames@.take(f as int));
                assert(thread.frames@.take(f + 1).last() == thread.frames@[f as int]);
            }
            f = f + 1;
        }
        proof {
            assert(thread.frames@.take(m as int) =~= thread.frames@);
            assert(report.threads@.take(t + 1).drop_last() =~= report.threads@.take(t as int));
            assert(report.threads@.take(t + 1).last() == report.threads@[t as int]);
        }
        t = t + 1;
    }
    assert(report.threads@.take(n as int) =~= report.threads@);
    refs
}

// ---------------------------------------------------------------------------
// The memory screen's cache
// ---------------------------------------------------------------------------

/// The region's place in the filtered list: the fault region first, then the
/// crashed thread's stack, then regions with some role, then the rest.
pub open spec fn region_rank(report: DumpReport, region: MemoryRow) -> nat {
    let roles = roles_of(report, region);
    if region_contains(region, report.crash_address@) {
        0
    } else if has_crashed_role(roles) {
        1
    } else if roles.len() == 0 {
        3
    } else {
        2
    }
}

/// A region passes the filter: with a query (or when all regions are
/// searched) it matches the query; otherwise it holds the fault address or
/// the crashed thread's stack.
pub open spec fn region_selected(
    report: DumpReport,
    region: MemoryRow,
    query: Seq<char>,
    filter_all: bool,
) -> bool {
    if filter_all || trim(query).len() > 0 {
        query_matches(region, query)
    } else {
        region_contains(region, report.crash_address@) || has_crashed_role(roles_of(report, region))
    }
}

/// The indices below `k`, ascending, of the selected regions of rank `rank`.
pub open spec fn rank_bucket(
    report: DumpReport,
    query: Seq<char>,
    filter_all: bool,
    rank: nat,
    k: nat,
) -> Seq<usize>
    decreases k,
{
    if k == 0 {
        Seq::empty()
    } else {
        let rest = rank_bucket(report, query, filter_all, rank, (k - 1) as nat);
        let i = k - 1;
        if i < report.memory@.len() && region_selected(report, report.memory@[i], query, filter_all)
            && region_rank(report, report.memory@[i]) == rank {
            rest.push(i as usize)
        } else {
            rest
        }
    }
}

/// The selected region indices ordered by rank, ties in dump order (the
/// order a stable sort by rank gives).
pub open spec fn filtered_matches(report: DumpReport, query: Seq<char>, filter_all: bool) -> Seq<
    usize,
> {
    let n = report.memory@.len();
    rank_bucket(report, query, filter_all, 0, n) + rank_bucket(report, query, filter_all, 1, n)
        + rank_bucket(report, query, filter_all, 2, n) + rank_bucket(report, query, filter_all, 3, n)
}

/// The group of a region in the memory map: crash (fault or crashed stack),
/// other stacks, module memory, or the rest.
pub open spec fn map_group(report: DumpReport, region: MemoryRow) -> nat {
    let roles = roles_of(report, region);
    if region_contains(region, report.crash_address@) || has_crashed_role(roles) {
        0
    } else if has_role_prefix(roles, "Stack for"@) {
        1
    } else if has_role_prefix(roles, "Mapped to module"@) {
        2
    } else {
        3
    }
}

/// How many of the first `k` regions are in group `g`.
pub open spec fn group_regions(report: DumpReport, g: nat, k: nat) -> nat
    decreases k,
{
    if k == 0 {
        0
    } else {
        group_regions(report, g, (k - 1) as nat) + (if map_group(report, report.memory@[k - 1])
            == g {
            1nat
        } else {
            0nat
        })
    }
}

/// The sizes of the first `k` regions in group `g`, added with saturation.
pub open spec fn group_bytes(report: DumpReport, g: nat, k: nat) -> nat
    decreases k,
{
    if k == 0 {
        0
    } else {
        let prev = group_bytes(report, g, (k - 1) as nat);
        if map_group(report, report.memory@[k - 1]) == g {
            let total: nat = prev + report.memory@[k - 1].size as nat;
            if total > u64::MAX {
                u64::MAX as nat
            } else {
                total
            }
        } else {
            prev
        }
    }
}

/// The first region, among the first `k`, in the crash group.
pub open spec fn first_crash_region(report: DumpReport, k: nat) -> Option<nat>
    decreases k,
{
    if k == 0 {
        None
    } else {
        match first_crash_region(report, (k - 1) as nat) {
            Some(i) => Some(i),
            None => if map_group(report, report.memory@[k - 1]) == 0 {
                Some((k - 1) as nat)
            } else {
                None
            },
        }
    }
}

/// The first `k` entries of `ranks` and `picked` are the ranks and filter
/// results of the first `k` regions.
pub open spec fn tabulated(
    ranks: Seq<u8>,
    picked: Seq<bool>,
    report: DumpReport,
    query: Seq<char>,
    filter_all: bool,
    k: nat,
) -> bool {
    forall|j: int|
        #![trigger ranks[j]]
        0 <= j < k ==> ranks[j] as nat == region_rank(report, report.memory@[j]) && picked[j]
            == region_selected(report, report.memory@[j], query, filter_all)
}

/// Appends, in dump order, the selected regions of rank `rank`.
fn push_rank_bucket(
    matches: &mut Vec<usize>,
    ranks: &Vec<u8>,
    picked: &Vec<bool>,
    report: &DumpReport,
    query: &str,
    filter_all: bool,
    rank: u8,
)
    requires
        ranks@.len() == report.memory@.len(),
        picked@.len() == report.memory@.len(),
        tabulated(ranks@, picked@, *report, query@, filter_all, (report.memory@.len()) as nat),
    ensures
        final(matches)@ == old(matches)@ + rank_bucket(
            *report,
            query@,
            filter_all,
            rank as nat,
            report.memory@.len(),
        ),
{
    let n = report.memory.len();
    let ghost before = matches@;
    let mut j: usize = 0;
    while j < n
        invariant
            n == report.memory@.len(),
            ranks@.len() == n,
            picked@.len() == n,
            tabulated(ranks@, picked@, *report, query@, filter_all, (n) as nat),
            j <= n,
            matches@ == before + rank_bucket(*report, query@, filter_all, rank as nat, j as nat),
        decreases n - j,
    {
        assert(ranks@[j as int] as nat == region_rank(*report, report.memory@[j as int]));
        if picked[j] && ranks[j] == rank {
            matches.push(j);
        }
        assert(matches@ =~= before + rank_bucket(
            *report,
            query@,
            filter_all,
            rank as nat,
            (j + 1) as nat,
        ));
        j = j + 1;
    }
}

#[derive(Clone, Copy, Debug, Default, PartialEq, Eq, Structural)]
pub enum MemoryMode {
    #[default]
    Overview,
    Evidence,
    Browser,
    RegionMap,
}

#[derive(Clone, Copy, Debug, Default, PartialEq, Eq, Structural)]
pub enum BrowserDetail {
    #[default]
    Connection,
    Pointers,
    Text,
    Bytes,
}

/// How many regions of a map group there are and how many bytes they hold.
#[derive(Clone, Copy, Debug, Default, PartialEq, Eq, Structural)]
pub struct MemoryMapGroup {
    pub regions: usize,
    pub bytes: u64,
}

pub struct MemoryMapSummary {
    pub groups: [MemoryMapGroup; 4],
    pub crash_region: Option<usize>,
}

impl MemoryMapSummary {
    /// The summary of the report's regions: each group's count and bytes,
    /// and the first region of the crash group.
    pub open spec fn summarises(self, report: DumpReport) -> bool {
        let n = report.memory@.len();
        &&& forall|g: int|
            0 <= g < 4 ==> (#[trigger] self.groups@[g]).regions == group_regions(report, g as nat, n)
                && self.groups@[g].bytes == group_bytes(report, g as nat, n)
        &&& match first_crash_region(report, n) {
            Some(i) => self.crash_region == Some(i as usize),
            None => self.crash_region is None,
        }
    }
}

/// What the memory screen last computed, so that it recomputes only when its
/// inputs change.
pub struct MemoryAnalysisCache {
    pub query: String,
    pub memory_count: usize,
    pub matches: Vec<usize>,
    pub selected_start: VirtualAddress,
    pub pointers: Vec<DecodedPointer>,
    pub strings: Vec<String>,
    pub mode: MemoryMode,
    pub filter_all: bool,
    pub map_summary: Option<MemoryMapSummary>,
    pub browser_detail: BrowserDetail,
    pub show_registers: bool,
}

impl MemoryAnalysisCache {
    /// Nothing is cached and every view setting is at its start.
    pub open spec fn is_cleared(&self) -> bool {
        &&& self.query@ == Seq::<char>::empty()
        &&& self.memory_count == 0
        &&& self.matches@.len() == 0
        &&& self.selected_start@ is None
        &&& self.pointers@.len() == 0
        &&& self.strings@.len() == 0
        &&& self.mode == MemoryMode::Overview
        &&& !self.filter_all
        &&& self.map_summary is None
        &&& self.browser_detail == BrowserDetail::Connection
        &&& !self.show_registers
    }

    /// The filter's inputs are those it was last computed for.
    pub open spec fn filter_current(&self, report: DumpReport, query: Seq<char>, filter_all: bool) -> bool {
        self.query@ == query && self.memory_count == report.memory@.len() && self.filter_all
            == filter_all
    }

    /// Forgets everything cached.
    pub fn clear(&mut self)
        ensures
            final(self).is_cleared(),
    {
        *self = Self::default();
    }

    /// Recomputes the filtered region list unless its inputs are unchanged;
    /// says whether it did.
    pub fn refresh_filter(&mut self, report: &DumpReport, query: &str, filter_all: bool) -> (changed: bool)
        ensures
            changed == !old(self).filter_current(*report, query@, filter_all),
            !changed ==> *final(self) == *old(self),
            changed ==> {
                &&& final(self).filter_current(*report, query@, filter_all)
                &&& final(self).matches@ == filtered_matches(*report, query@, filter_all)
                &&& final(self).selected_start == old(self).selected_start
                &&& final(self).pointers == old(self).pointers
                &&& final(self).strings == old(self).strings
                &&& final(self).mode == old(self).mode
                &&& final(self).map_summary == old(self).map_summary
                &&& final(self).browser_detail == old(self).browser_detail
                &&& final(self).show_registers == old(self).show_registers
            },
    {
        let q = string_from(query);
        if self.query == q && self.memory_count == report.memory.len() && self.filter_all
            == filter_all {
            return false;
        }
        let n = report.memory.len();
        let searching = filter_all || trim_of(query).len() > 0;
        let mut ranks: Vec<u8> = Vec::new();
        let mut picked: Vec<bool> = Vec::new();
        let mut i: usize = 0;
        while i < n
            invariant
                n == report.memory@.len(),
                i <= n,
                searching == (filter_all || trim(query@).len() > 0),
                ranks@.len() == i,
                picked@.len() == i,
                tabulated(ranks@, picked@, *report, query@, filter_all, (i) as nat),
            decreases n - i,
        {
            let region = &report.memory[i];
            let roles = region_roles(report, region);
            proof {
                lemma_roles_views(roles@);
            }
            let is_fault = contains(region, parse_address(&report.crash_address));
            let crashed = any_contains(roles.as_slice(), "(crashed)");
            let rank: u8 = if is_fault {
                0
            } else if crashed {
                1
            } else if roles.len() == 0 {
                3
            } else {
                2
            };
            let chosen = if searching {
                matches_query(region, query)
            } else {
                is_fault || crashed
            };
            proof {
                assert(views(roles@).len() == roles@.len());
                assert(rank as nat == region_rank(*report, *region));
                assert(chosen == region_selected(*report, *region, query@, filter_all));
            }
            let ghost r0 = ranks@;
            let ghost p0 = picked@;
            ranks.push(rank);
            picked.push(chosen);
            assert forall|k: int| #![trigger ranks@[k]] 0 <= k <= i implies ranks@[k] as nat
                == region_rank(*report, report.memory@[k]) && picked@[k] == region_selected(
                *report,
                report.memory@[k],
                query@,
                filter_all,
            ) by {
                if k < i {
                    assert(ranks@[k] == r0[k] && picked@[k] == p0[k]);
                    assert(r0[k] as nat == region_rank(*report, report.memory@[k]));
                }
            }
            assert(forall|j: int|
                #![trigger ranks@[j]]
                0 <= j < (i + 1) as nat ==> ranks@[j] as nat == region_rank(*report, report.memory@[j]) && picked@[j]
                    == region_selected(*report, report.memory@[j], query@, filter_all));
            assert(tabulated(ranks@, picked@, *report, query@, filter_all, (i + 1) as nat));
            i = i + 1;
        }
        let mut matches: Vec<usize> = Vec::new();
        let mut r: u8 = 0;
        while r < 4
            invariant
                n == report.memory@.len(),
                ranks@.len() == n,
                picked@.len() == n,
                tabulated(ranks@, picked@, *report, query@, filter_all, (n) as nat),
                r <= 4,
                matches@ == (if r == 0 {
                    Seq::empty()
                } else if r == 1 {
                    rank_bucket(*report, query@, filter_all, 0, n as nat)
                } else if r == 2 {
                    rank_bucket(*report, query@, filter_all, 0, n as nat) + rank_bucket(
                        *report,
                        query@,
                        filter_all,
                        1,
                        n as nat,
                    )
                } else if r == 3 {
                    rank_bucket(*report, query@, filter_all, 0, n as nat) + rank_bucket(
                        *report,
                        query@,
                        filter_all,
                        1,
                        n as nat,
                    ) + rank_bucket(*report, query@, filter_all, 2, n as nat)
                } else {
                    filtered_matches(*report, query@, filter_all)
                }),
            decreases 4 - r,
        {
            push_rank_bucket(&mut matches, &ranks, &picked, report, query, filter_all, r);
            r = r + 1;
        }
        self.query = q;
        self.memory_count = n;
        self.filter_all = filter_all;
        self.matches = matches;
        true
    }

    /// Decodes the pointers and strings of a newly selected region; a region
    /// already selected is left as it is.
    pub fn refresh_region(&mut self, report: &DumpReport, region: &MemoryRow)
        requires
            decoded_addressable(*report, *region, 24),
        ensures
            old(self).selected_start == region.start ==> *final(self) == *old(self),
            old(self).selected_start != region.start ==> {
                &&& final(self).selected_start == region.start
                &&& pointer_views(final(self).pointers@) == decoded(*report, *region, 24)
                &&& views(final(self).strings@) == strings_in(region.bytes@, 24)
                &&& final(self).query == old(self).query
                &&& final(self).memory_count == old(self).memory_count
                &&& final(self).matches == old(self).matches
                &&& final(self).mode == old(self).mode
                &&& final(self).filter_all == old(self).filter_all
                &&& final(self).map_summary == old(self).map_summary
                &&& final(self).browser_detail == old(self).browser_detail
                &&& final(self).show_registers == old(self).show_registers
            },
    {
        if self.selected_start == region.start {
            return;
        }
        self.selected_start = region.start;
        self.pointers = decoded_pointers(report, region, 24);
        self.strings = extract_strings(region.bytes.as_slice(), 24);
    }

    /// Computes the memory map's summary once; a summary already computed is
    /// kept.
    pub fn refresh_map(&mut self, report: &DumpReport)
        ensures
            old(self).map_summary is Some ==> *final(self) == *old(self),
            old(self).map_summary is None ==> {
                &&& final(self).map_summary matches Some(summary) && summary.summarises(*report)
                &&& final(self).query == old(self).query
                &&& final(self).memory_count == old(self).memory_count
                &&& final(self).matches == old(self).matches
                &&& final(self).selected_start == old(self).selected_start
                &&& final(self).pointers == old(self).pointers
                &&& final(self).strings == old(self).strings
                &&& final(self).mode == old(self).mode
                &&& final(self).filter_all == old(self).filter_all
                &&& final(self).browser_detail == old(self).browser_detail
                &&& final(self).show_registers == old(self).show_registers
            },
    {
        if self.map_summary.is_some() {
            return;
        }
        let n = report.memory.len();
        let mut g0 = MemoryMapGroup { regions: 0, bytes: 0 };
        let mut g1 = MemoryMapGroup { regions: 0, bytes: 0 };
        let mut g2 = MemoryMapGroup { regions: 0, bytes: 0 };
        let mut g3 = MemoryMapGroup { regions: 0, bytes: 0 };
        let mut crash_region: Option<usize> = None;
        let mut i: usize = 0;
        while i < n
            invariant
                n == report.memory@.len(),
                i <= n,
                g0.regions == group_regions(*report, 0, i as nat),
                g1.regions == group_regions(*report, 1, i as nat),
                g2.regions == group_regions(*report, 2, i as nat),
                g3.regions == group_regions(*report, 3, i as nat),
                g0.bytes == group_bytes(*report, 0, i as nat),
                g1.bytes == group_bytes(*report, 1, i as nat),
                g2.bytes == group_bytes(*report, 2, i as nat),
                g3.bytes == group_bytes(*report, 3, i as nat),
                g0.regions + g1.regions + g2.regions + g3.regions == i,
                match first_crash_region(*report, i as nat) {
                    Some(k) => crash_region == Some(k as usize),
                    None => crash_region is None,
                },
            decreases n - i,
        {
            let region = &report.memory[i];
            let roles = region_roles(report, region);
            proof {
                lemma_roles_views(roles@);
            }
            let is_fault = contains(region, parse_address(&report.crash_address));
            let group: u8 = if is_fault || any_contains(roles.as_slice(), "(crashed)") {
                if crash_region.is_none() {
                    crash_region = Some(i);
                }
                0
            } else if any_starts_with(roles.as_slice(), "Stack for") {
                1
            } else if any_starts_with(roles.as_slice(), "Mapped to module") {
                2
            } else {
                3
            };
            let size = region.size;
            if group == 0 {
                g0 = MemoryMapGroup { regions: g0.regions + 1, bytes: g0.bytes.saturating_add(size) };
            } else if group == 1 {
                g1 = MemoryMapGroup { regions: g1.regions + 1, bytes: g1.bytes.saturating_add(size) };
            } else if group == 2 {
                g2 = MemoryMapGroup { regions: g2.regions + 1, bytes: g2.bytes.saturating_add(size) };
            } else {
                g3 = MemoryMapGroup { regions: g3.regions + 1, bytes: g3.bytes.saturating_add(size) };
            }
            i = i + 1;
        }
        let summary = MemoryMapSummary { groups: [g0, g1, g2, g3], crash_region };
        assert(summary.groups@ =~= seq![g0, g1, g2, g3]);
        self.map_summary = Some(summary);
    }
}

impl Default for MemoryAnalysisCache {
    fn default() -> (c: Self)
        ensures
            c.is_cleared(),
    {
        MemoryAnalysisCache {
            query: String::new(),
            memory_count: 0,
            matches: Vec::new(),
            selected_start: VirtualAddress::unknown(),
            pointers: Vec::new(),
            strings: Vec::new(),
            mode: MemoryMode::Overview,
            filter_all: false,
            map_summary: None,
            browser_detail: BrowserDetail::Connection,
            show_registers: false,
        }
    }
}

// ---------------------------------------------------------------------------
// The order of the filtered list
// ---------------------------------------------------------------------------

pub open spec fn rank_at(report: DumpReport, x: usize) -> nat {
    region_rank(report, report.memory@[x as int])
}

/// Ordered by rank, then by position in the dump, without repeats.
pub open spec fn rank_ordered(report: DumpReport, s: Seq<usize>) -> bool {
    forall|i: int, j: int|
        #![trigger s[i], s[j]]
        0 <= i < j < s.len() ==> rank_at(report, s[i]) < rank_at(report, s[j]) || (rank_at(
            report,
            s[i],
        ) == rank_at(report, s[j]) && s[i] < s[j])
}

proof fn lemma_rank_bucket(report: DumpReport, query: Seq<char>, filter_all: bool, r: nat, k: nat)
    requires
        k <= report.memory@.len(),
        k <= usize::MAX,
    ensures
        forall|i: int|
            0 <= i < rank_bucket(report, query, filter_all, r, k).len() ==> {
                let x = #[trigger] rank_bucket(report, query, filter_all, r, k)[i];
                &&& x < k
                &&& region_selected(report, report.memory@[x as int], query, filter_all)
                &&& rank_at(report, x) == r
            },
        forall|i: int, j: int|
            0 <= i < j < rank_bucket(report, query, filter_all, r, k).len() ==> #[trigger] rank_bucket(
                report,
                query,
                filter_all,
                r,
                k,
            )[i] < #[trigger] rank_bucket(report, query, filter_all, r, k)[j],
        forall|x: int|
            0 <= x < k && region_selected(report, #[trigger] report.memory@[x], query, filter_all)
                && region_rank(report, report.memory@[x]) == r ==> exists|i: int|
                0 <= i < rank_bucket(report, query, filter_all, r, k).len()
                    && rank_bucket(report, query, filter_all, r, k)[i] == x,
    decreases k,
{
    if k > 0 {
        lemma_rank_bucket(report, query, filter_all, r, (k - 1) as nat);
        let prev = rank_bucket(report, query, filter_all, r, (k - 1) as nat);
        let cur = rank_bucket(report, query, filter_all, r, k);
        assert forall|x: int|
            0 <= x < k && region_selected(report, #[trigger] report.memory@[x], query, filter_all)
                && region_rank(report, report.memory@[x]) == r implies exists|i: int|
            0 <= i < cur.len() && cur[i] == x by {
            if x == k - 1 {
                assert(cur[cur.len() - 1] == x);
            } else {
                let i = choose|i: int| 0 <= i < prev.len() && prev[i] == x;
                assert(cur[i] == prev[i]);
            }
        }
    }
}

proof fn lemma_rank_concat(report: DumpReport, a: Seq<usize>, b: Seq<usize>, r: nat)
    requires
        rank_ordered(report, a),
        rank_ordered(report, b),
        forall|i: int| 0 <= i < a.len() ==> rank_at(report, #[trigger] a[i]) < r,
        forall|i: int| 0 <= i < b.len() ==> rank_at(report, #[trigger] b[i]) == r,
    ensures
        rank_ordered(report, a + b),
        forall|i: int| 0 <= i < (a + b).len() ==> rank_at(report, #[trigger] (a + b)[i]) <= r,
{
    let c = a + b;
    assert forall|i: int, j: int|
        #![trigger c[i], c[j]]
        0 <= i < j < c.len() implies rank_at(report, c[i]) < rank_at(report, c[j]) || (rank_at(
            report,
            c[i],
        ) == rank_at(report, c[j]) && c[i] < c[j]) by {
        if j < a.len() {
            assert(c[i] == a[i] && c[j] == a[j]);
        } else if i < a.len() {
            assert(c[i] == a[i] && c[j] == b[j - a.len()]);
        } else {
            assert(c[i] == b[i - a.len()] && c[j] == b[j - a.len()]);
        }
    }
    assert forall|i: int| 0 <= i < c.len() implies rank_at(report, #[trigger] c[i]) <= r by {
        if i < a.len() {
            assert(c[i] == a[i]);
        } else {
            assert(c[i] == b[i - a.len()]);
        }
    }
}

/// The filtered list holds the selected regions, each once, ordered by rank
/// and, within a rank, by position in the dump: the order a stable sort of
/// the selected positions by rank gives.
pub proof fn lemma_filtered_matches_ordered(report: DumpReport, query: Seq<char>, filter_all: bool)
    requires
        report.memory@.len() <= usize::MAX,
    ensures
        forall|i: int|
            0 <= i < filtered_matches(report, query, filter_all).len() ==> {
                let x = #[trigger] filtered_matches(report, query, filter_all)[i];
                x < report.memory@.len() && region_selected(
                    report,
                    report.memory@[x as int],
                    query,
                    filter_all,
                )
            },
        forall|x: int|
            0 <= x < report.memory@.len() && region_selected(
                report,
                #[trigger] report.memory@[x],
                query,
                filter_all,
            ) ==> exists|i: int|
                0 <= i < filtered_matches(report, query, filter_all).len() && filtered_matches(
                    report,
                    query,
                    filter_all,
                )[i] == x,
        rank_ordered(report, filtered_matches(report, query, filter_all)),
{
    let n = report.memory@.len();
    let b0 = rank_bucket(report, query, filter_all, 0, n);
    let b1 = rank_bucket(report, query, filter_all, 1, n);
    let b2 = rank_bucket(report, query, filter_all, 2, n);
    let b3 = rank_bucket(report, query, filter_all, 3, n);
    lemma_rank_bucket(report, query, filter_all, 0, n);
    lemma_rank_bucket(report, query, filter_all, 1, n);
    lemma_rank_bucket(report, query, filter_all, 2, n);
    lemma_rank_bucket(report, query, filter_all, 3, n);
    assert(rank_ordered(report, b0) && rank_ordered(report, b1) && rank_ordered(report, b2)
        && rank_ordered(report, b3));
    assert(rank_ordered(report, Seq::<usize>::empty()));
    lemma_rank_concat(report, Seq::<usize>::empty(), b0, 0);
    assert(Seq::<usize>::empty() + b0 =~= b0);
    lemma_rank_concat(report, b0, b1, 1);
    lemma_rank_concat(report, b0 + b1, b2, 2);
    lemma_rank_concat(report, b0 + b1 + b2, b3, 3);
    let m = filtered_matches(report, query, filter_all);
    assert(m == b0 + b1 + b2 + b3);
    assert forall|i: int| 0 <= i < m.len() implies {
        let x = #[trigger] m[i];
        x < n && region_selected(report, report.memory@[x as int], query, filter_all)
    } by {
        let (l0, l1, l2) = (b0.len() as int, b1.len() as int, b2.len() as int);
        if i < l0 {
            assert(m[i] == b0[i]);
        } else if i < l0 + l1 {
            assert(m[i] == b1[i - l0]);
        } else if i < l0 + l1 + l2 {
            assert(m[i] == b2[i - l0 - l1]);
        } else {
            assert(m[i] == b3[i - l0 - l1 - l2]);
        }
    }
    assert forall|x: int|
        0 <= x < n && region_selected(report, #[trigger] report.memory@[x], query, filter_all)
            implies exists|i: int| 0 <= i < m.len() && m[i] == x by {
        let (l0, l1, l2) = (b0.len() as int, b1.len() as int, b2.len() as int);
        let r = region_rank(report, report.memory@[x]);
        if r == 0 {
            let i = choose|i: int| 0 <= i < b0.len() && b0[i] == x;
            assert(m[i] == b0[i]);
        } else if r == 1 {
            let i = choose|i: int| 0 <= i < b1.len() && b1[i] == x;
            assert(m[i + l0] == b1[i]);
        } else if r == 2 {
            let i = choose|i: int| 0 <= i < b2.len() && b2[i] == x;
            assert(m[i + l0 + l1] == b2[i]);
        } else {
            assert(r == 3);
            let i = choose|i: int| 0 <= i < b3.len() && b3[i] == x;
            assert(m[i + l0 + l1 + l2] == b3[i]);
        }
    }
}

// ---------------------------------------------------------------------------
// Pointer destinations
// ---------------------------------------------------------------------------

/// The place of a target's kind in `AddressTarget`'s declared order.
pub open spec fn target_rank(t: TargetView) -> int {
    match t {
        TargetView::Null => 0,
        TargetView::ThreadStack(_) => 1,
        TargetView::Module(_, _) => 2,
        TargetView::CapturedRegion(_) => 3,
    }
}

/// `a` orders strictly before `b` as `AddressTarget`s are ordered: by kind in
/// declared order, then thread id; module name then offset; or region start,
/// an unknown start first.
pub open spec fn target_lt(a: TargetView, b: TargetView) -> bool {
    target_rank(a) < target_rank(b) || (target_rank(a) == target_rank(b) && match (a, b) {
        (TargetView::ThreadStack(x), TargetView::ThreadStack(y)) => x < y,
        (TargetView::Module(n, o), TargetView::Module(m, q)) => name_lt(n, m) || (n == m && o < q),
        (TargetView::CapturedRegion(s), TargetView::CapturedRegion(t)) => match (s, t) {
            (None, Some(_)) => true,
            (Some(x), Some(y)) => x < y,
            _ => false,
        },
        _ => false,
    })
}

/// Targets are totally and strictly ordered by `target_lt`.
pub proof fn lemma_target_order(a: TargetView, b: TargetView, c: TargetView)
    ensures
        !target_lt(a, a),
        target_lt(a, b) || target_lt(b, a) || a == b,
        target_lt(a, b) ==> !target_lt(b, a),
        target_lt(a, b) && target_lt(b, c) ==> target_lt(a, c),
{
    match (a, b, c) {
        (TargetView::Module(n1, _), TargetView::Module(n2, _), TargetView::Module(n3, _)) => {
            lemma_name_order(n1, n2, n3);
            lemma_name_order(n2, n3, n1);
            lemma_name_order(n1, n3, n2);
        },
        (TargetView::Module(n1, _), TargetView::Module(n2, _), _) => {
            lemma_name_order(n1, n2, n2);
        },
        (TargetView::Module(n1, _), _, _) => {
            lemma_name_order(n1, n1, n1);
        },
        (_, TargetView::Module(n2, _), TargetView::Module(n3, _)) => {
            lemma_name_order(n2, n3, n3);
        },
        _ => {},
    }
}

fn target_lt_exec(a: &AddressTarget, b: &AddressTarget) -> (r: bool)
    ensures
        r == target_lt(a@, b@),
{
    match (a, b) {
        (AddressTarget::Null, AddressTarget::Null) => false,
        (AddressTarget::Null, _) => true,
        (AddressTarget::ThreadStack { thread_id: x }, AddressTarget::ThreadStack { thread_id: y }) => *x < *y,
        (AddressTarget::ThreadStack { .. }, AddressTarget::Null) => false,
        (AddressTarget::ThreadStack { .. }, _) => true,
        (AddressTarget::Module { name: n, offset: o }, AddressTarget::Module { name: m, offset: q }) => {
            if name_lt_exec(n.as_str(), m.as_str()) {
                true
            } else if name_lt_exec(m.as_str(), n.as_str()) {
                false
            } else {
                proof {
                    lemma_name_order(n@, m@, m@);
                }
                *o < *q
            }
        },
        (AddressTarget::Module { .. }, AddressTarget::CapturedRegion { .. }) => true,
        (AddressTarget::Module { .. }, _) => false,
        (AddressTarget::CapturedRegion { start: s }, AddressTarget::CapturedRegion { start: t }) => {
            match (s.value(), t.value()) {
                (None, Some(_)) => true,
                (Some(x), Some(y)) => x < y,
                _ => false,
            }
        },
        (AddressTarget::CapturedRegion { .. }, _) => false,
    }
}

fn target_same(a: &AddressTarget, b: &AddressTarget) -> (r: bool)
    ensures
        r == (a@ == b@),
{
    proof {
        lemma_target_order(a@, b@, b@);
    }
    !target_lt_exec(a, b) && !target_lt_exec(b, a)
}

fn clone_target(t: &AddressTarget) -> (r: AddressTarget)
    ensures
        r@ == t@,
{
    match t {
        AddressTarget::Null => AddressTarget::Null,
        AddressTarget::ThreadStack { thread_id } => AddressTarget::ThreadStack { thread_id: *thread_id },
        AddressTarget::Module { name, offset } => AddressTarget::Module {
            name: string_from(name.as_str()),
            offset: *offset,
        },
        AddressTarget::CapturedRegion { start } => AddressTarget::CapturedRegion { start: *start },
    }
}

/// How many of the pointers lead to `t`.
pub open spec fn pointers_to(pointers: Seq<PointerView>, t: TargetView) -> nat
    decreases pointers.len(),
{
    if pointers.len() == 0 {
        0
    } else {
        pointers_to(pointers.drop_last(), t) + (if pointers.last().target == t {
            1nat
        } else {
            0nat
        })
    }
}

proof fn lemma_pointers_to_bound(pointers: Seq<PointerView>, t: TargetView)
    ensures
        pointers_to(pointers, t) <= pointers.len(),
    decreases pointers.len(),
{
    if pointers.len() > 0 {
        lemma_pointers_to_bound(pointers.drop_last(), t);
    }
}

proof fn lemma_pointers_to_present(pointers: Seq<PointerView>, t: TargetView)
    requires
        pointers_to(pointers, t) > 0,
    ensures
        exists|j: int| 0 <= j < pointers.len() && (#[trigger] pointers[j]).target == t,
    decreases pointers.len(),
{
    if pointers.last().target != t {
        lemma_pointers_to_present(pointers.drop_last(), t);
        let j = choose|j: int| 0 <= j < pointers.len() - 1 && (#[trigger] pointers.drop_last()[j]).target == t;
        assert(pointers[j] == pointers.drop_last()[j]);
    } else {
        assert(pointers[pointers.len() - 1].target == t);
    }
}

/// `d` lists each destination of the pointers once, in target order, with
/// the number of pointers that lead to it.
pub open spec fn destinations_of(d: Seq<(TargetView, nat)>, pointers: Seq<PointerView>) -> bool {
    &&& forall|i: int, j: int|
        #![trigger d[i], d[j]]
        0 <= i < j < d.len() ==> target_lt(d[i].0, d[j].0)
    &&& forall|i: int| 0 <= i < d.len() ==> (#[trigger] d[i]).1 == pointers_to(pointers, d[i].0) && d[i].1 > 0
    &&& forall|j: int| 0 <= j < pointers.len() ==> exists|i: int| 0 <= i < d.len() && (#[trigger] d[i]).0 == (#[trigger] pointers[j]).target
}

pub open spec fn destination_views(d: Seq<(AddressTarget, usize)>) -> Seq<(TargetView, nat)> {
    d.map_values(|e: (AddressTarget, usize)| (e.0@, e.1 as nat))
}

/// Where the pointers lead: each destination once, ordered by target, with
/// how many of the pointers lead there.
pub fn pointer_destinations(pointers: &Vec<DecodedPointer>) -> (d: Vec<(AddressTarget, usize)>)
    ensures
        destinations_of(destination_views(d@), pointer_views(pointers@)),
{
    let ghost ps = pointer_views(pointers@);
    let n = pointers.len();
    let mut d: Vec<(AddressTarget, usize)> = Vec::new();
    let mut k: usize = 0;
    while k < n
        invariant
            n == pointers@.len(),
            ps == pointer_views(pointers@),
            k <= n,
            destinations_of(destination_views(d@), ps.take(k as int)),
            forall|i: int| 0 <= i < d@.len() ==> (#[trigger] d@[i]).1 <= k,
        decreases n - k,
    {
        let t = &pointers[k].target;
        let ghost tv = t@;
        let ghost before = destination_views(d@);
        let ghost prev = ps.take(k as int);
        let ghost next = ps.take(k + 1);
        proof {
            assert(next.drop_last() =~= prev);
            assert(next.last() == ps[k as int]);
            assert(ps[k as int].target == tv);
        }
        let m = d.len();
        let mut p: usize = 0;
        while p < m && target_lt_exec(&d[p].0, t)
            invariant
                m == d@.len(),
                p <= m,
                t@ == tv,
                forall|i: int| 0 <= i < p ==> target_lt((#[trigger] d@[i]).0@, tv),
            decreases m - p,
        {
            p = p + 1;
        }
        if p < m && target_same(&d[p].0, t) {
            let count = d[p].1;
            proof {
                lemma_pointers_to_bound(prev, tv);
            }
            let entry = (clone_target(&d[p].0), count + 1);
            d.set(p, entry);
            proof {
                let after = destination_views(d@);
                assert forall|i: int| 0 <= i < after.len() implies (#[trigger] after[i]).1 == pointers_to(
                    next,
                    after[i].0,
                ) && after[i].1 > 0 by {
                    assert(after[i].0 == before[i].0);
                }
                assert forall|i: int, j: int|
                    #![trigger after[i], after[j]]
                    0 <= i < j < after.len() implies target_lt(after[i].0, after[j].0) by {
                    assert(after[i].0 == before[i].0);
                    assert(after[j].0 == before[j].0);
                }
                assert forall|j: int| 0 <= j < next.len() implies exists|i: int|
                    0 <= i < after.len() && (#[trigger] after[i]).0 == (#[trigger] next[j]).target by {
                    if j < k {
                        assert(next[j] == prev[j]);
                        let i = choose|i: int| 0 <= i < before.len() && (#[trigger] before[i]).0 == (#[trigger] prev[j]).target;
                        assert(after[i].0 == before[i].0);
                    } else {
                        assert(after[p as int].0 == tv);
                    }
                }
            }
        } else {
            proof {
                if p < m {
                    lemma_target_order(d@[p as int].0@, tv, tv);
                }
            }
            let entry = (clone_target(t), 1usize);
            d.insert(p, entry);
            proof {
                let after = destination_views(d@);
                assert(after[p as int] == (tv, 1nat));
                assert forall|i: int| 0 <= i < after.len() && i != p implies (#[trigger] after[i])
                    == before[if i < p { i } else { i - 1 }] by {}
                assert forall|i: int| 0 <= i < after.len() implies (#[trigger] after[i]).1 == pointers_to(
                    next,
                    after[i].0,
                ) && after[i].1 > 0 by {
                    if i != p {
                        let b = if i < p { i } else { i - 1 };
                        assert(after[i] == before[b]);
                        if before[b].0 == tv {
                            if b < p {
                                lemma_target_order(tv, tv, tv);
                            } else {
                                lemma_target_order(tv, tv, tv);
                            }
                        }
                    } else {
                        if pointers_to(prev, tv) > 0 {
                            lemma_pointers_to_present(prev, tv);
                            let j = choose|j: int| 0 <= j < prev.len() && (#[trigger] prev[j]).target == tv;
                            let c = choose|c: int| 0 <= c < before.len() && (#[trigger] before[c]).0 == (#[trigger] prev[j]).target;
                            if c < p {
                                lemma_target_order(tv, tv, tv);
                            } else {
                                lemma_target_order(before[p as int].0, before[c].0, tv);
                                lemma_target_order(tv, before[p as int].0, tv);
                            }
                        }
                    }
                }
                assert forall|i: int, j: int|
                    #![trigger after[i], after[j]]
                    0 <= i < j < after.len() implies target_lt(after[i].0, after[j].0) by {
                    if j == p {
                        assert(after[i] == before[i]);
                    } else if i == p {
                        assert(after[j] == before[j - 1]);
                        if j - 1 > p {
                            assert(target_lt(before[p as int].0, before[j - 1].0));
                            lemma_target_order(tv, before[p as int].0, before[j - 1].0);
                        }
                    } else if j < p {
                        assert(after[i] == before[i]);
                        assert(after[j] == before[j]);
                    } else if i < p {
                        assert(after[i] == before[i]);
                        assert(after[j] == before[j - 1]);
                    } else {
                        assert(after[i] == before[i - 1]);
                        assert(after[j] == before[j - 1]);
                    }
                }
                assert forall|j: int| 0 <= j < next.len() implies exists|i: int|
                    0 <= i < after.len() && (#[trigger] after[i]).0 == (#[trigger] next[j]).target by {
                    if j < k {
                        assert(next[j] == prev[j]);
                        let c = choose|c: int| 0 <= c < before.len() && (#[trigger] before[c]).0 == (#[trigger] prev[j]).target;
                        if c < p {
                            assert(after[c] == before[c]);
                        } else {
                            assert(after[c + 1] == before[c]);
                        }
                    } else {
                        assert(after[p as int].0 == tv);
                    }
                }
            }
        }
        k = k + 1;
    }
    assert(ps.take(n as int) =~= ps);
    d
}

} // verus!
