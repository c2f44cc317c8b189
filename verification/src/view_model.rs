//! Presentation-ready relationships derived from one or two domain reports.
//!
//! Keeping this logic outside the interface makes comparisons and evidence
//! ordering easy to check without constructing a window.

use crate::investigation::{crash_signature, signature_of};
use crate::path::{lemma_name_order, name_lt, name_lt_exec};
use crate::report::{
    address_text, architecture_text, first_crashed, operating_system_text, ownership_text,
    symbol_status_text, DumpReport, FrameRow, ModuleOwnership, ModuleRow, ThreadRow,
};
use crate::text::{
    chars_of, dec, dec_string, ends_with, ends_with_exec, file_name_or_empty, file_name_string,
    first_n, push_dec, push_str, string_from, views,
};
use vstd::prelude::*;

verus! {

broadcast use vstd::string::group_string_axioms;

/// One ordered link from the exception to actionable evidence.
#[derive(Debug, PartialEq, Eq)]
pub struct EvidenceStep {
    pub title: &'static str,
    pub value: String,
    pub explanation: &'static str,
}

#[derive(Debug, PartialEq, Eq)]
pub struct CrashEvidence {
    pub steps: Vec<EvidenceStep>,
    pub needs_symbols: bool,
}

#[derive(Debug, PartialEq, Eq)]
pub struct InvestigationInsight {
    pub priority: &'static str,
    pub title: String,
    pub detail: String,
}

pub struct StepView {
    pub title: Seq<char>,
    pub value: Seq<char>,
    pub explanation: Seq<char>,
}

impl View for EvidenceStep {
    type V = StepView;

    open spec fn view(&self) -> StepView {
        StepView { title: self.title@, value: self.value@, explanation: self.explanation@ }
    }
}

pub open spec fn step_views(v: Seq<EvidenceStep>) -> Seq<StepView> {
    v.map_values(|s: EvidenceStep| s@)
}

pub struct InsightView {
    pub priority: Seq<char>,
    pub title: Seq<char>,
    pub detail: Seq<char>,
}

impl View for InvestigationInsight {
    type V = InsightView;

    open spec fn view(&self) -> InsightView {
        InsightView { priority: self.priority@, title: self.title@, detail: self.detail@ }
    }
}

pub open spec fn insight_views(v: Seq<InvestigationInsight>) -> Seq<InsightView> {
    v.map_values(|s: InvestigationInsight| s@)
}

// ---------------------------------------------------------------------------
// Insights
// ---------------------------------------------------------------------------

/// Index of the first module that holds the fault address.
pub open spec fn first_fault_module(modules: Seq<ModuleRow>) -> Option<int>
    decreases modules.len(),
{
    if modules.len() == 0 {
        None
    } else if modules[0].contains_fault {
        Some(0)
    } else {
        match first_fault_module(modules.drop_first()) {
            Some(i) => Some(i + 1),
            None => None,
        }
    }
}

/// Number of frames that lack symbols.
pub open spec fn missing_count(frames: Seq<FrameRow>) -> nat
    decreases frames.len(),
{
    if frames.len() == 0 {
        0
    } else {
        missing_count(frames.drop_last()) + (if frames.last().missing_symbols {
            1nat
        } else {
            0nat
        })
    }
}

pub open spec fn fault_insights(report: DumpReport) -> Seq<InsightView> {
    match first_fault_module(report.modules@) {
        Some(i) => {
            let m = report.modules@[i];
            seq![
                InsightView {
                    priority: "HIGH"@,
                    title: "Fault address maps to "@ + m.name@,
                    detail: ownership_text(m.ownership) + " code \u{b7} symbols "@
                        + symbol_status_text(m.symbol_status)
                        + ". Inspect its related frames and callers."@,
                },
            ]
        },
        None => Seq::empty(),
    }
}

pub open spec fn thread_insights(report: DumpReport) -> Seq<InsightView> {
    match first_crashed(report.threads@) {
        Some(i) => {
            let frames = report.threads@[i].frames@;
            let missing = missing_count(frames);
            (if missing > 0 {
                seq![
                    InsightView {
                        priority: "BLOCKER"@,
                        title: dec(missing) + " crashing-stack frame"@ + (if missing == 1 {
                            Seq::empty()
                        } else {
                            "s"@
                        }) + " lack symbols"@,
                        detail: "Load matching symbols before trusting function-level conclusions."@,
                    },
                ]
            } else {
                Seq::empty()
            }) + (if frames.len() == 0 {
                seq![
                    InsightView {
                        priority: "BLOCKER"@,
                        title: "No crashing stack was recovered"@,
                        detail: "Check dump completeness, architecture support, and unwind symbols."@,
                    },
                ]
            } else {
                Seq::empty()
            })
        },
        None => seq![
            InsightView {
                priority: "BLOCKER"@,
                title: "Crashing thread was not identified"@,
                detail: "The dump may be manual or missing its exception stream."@,
            },
        ],
    }
}

/// What an investigator should look at first: the module holding the fault,
/// missing symbols or stack on the crashed thread, a missing crashed thread,
/// and, when nothing else is found and there are no diagnostics, a note
/// that no blocker was detected.
pub open spec fn insights_of(report: DumpReport) -> Seq<InsightView> {
    let found = fault_insights(report) + thread_insights(report);
    if report.diagnostics@.len() == 0 && found.len() == 0 {
        seq![
            InsightView {
                priority: "INFO"@,
                title: "No immediate data-quality blockers detected"@,
                detail: "Start with the crashing thread and validate the top recovered frames."@,
            },
        ]
    } else {
        found
    }
}

fn fault_module_index(modules: &Vec<ModuleRow>) -> (r: Option<usize>)
    ensures
        match r {
            Some(i) => first_fault_module(modules@) == Some(i as int) && i < modules@.len(),
            None => first_fault_module(modules@) is None,
        },
{
    let n = modules.len();
    let mut i: usize = 0;
    assert(modules@.skip(0) =~= modules@);
    while i < n
        invariant
            n == modules@.len(),
            i <= n,
            first_fault_module(modules@) == (match first_fault_module(modules@.skip(i as int)) {
                Some(j) => Some(j + i),
                None => None,
            }),
        decreases n - i,
    {
        proof {
            assert(modules@.skip(i as int).drop_first() =~= modules@.skip(i + 1));
        }
        if modules[i].contains_fault {
            return Some(i);
        }
        i = i + 1;
    }
    None
}

/// How many of the frames lack symbols.
pub fn count_missing(frames: &Vec<FrameRow>) -> (count: usize)
    ensures
        count == missing_count(frames@),
{
    let n = frames.len();
    let mut count: usize = 0;
    let mut i: usize = 0;
    while i < n
        invariant
            n == frames@.len(),
            i <= n,
            count == missing_count(frames@.take(i as int)),
            count <= i,
        decreases n - i,
    {
        if frames[i].missing_symbols {
            count = count + 1;
        }
        i = i + 1;
        assert(frames@.take(i as int).drop_last() =~= frames@.take(i - 1));
    }
    assert(frames@.take(n as int) =~= frames@);
    count
}

/// Prioritised hints for the investigation of a report.
pub fn investigation_insights(report: &DumpReport) -> (insights: Vec<InvestigationInsight>)
    ensures
        insight_views(insights@) == insights_of(*report),
{
    let mut insights: Vec<InvestigationInsight> = Vec::new();
    if let Some(m) = fault_module_index(&report.modules) {
        let module = &report.modules[m];
        let mut title = string_from("Fault address maps to ");
        push_str(&mut title, module.name.as_str());
        let mut detail = module.ownership.display();
        push_str(&mut detail, " code \u{b7} symbols ");
        let status = module.symbol_status.display();
        push_str(&mut detail, status.as_str());
        push_str(&mut detail, ". Inspect its related frames and callers.");
        insights.push(InvestigationInsight { priority: "HIGH", title, detail });
    }
    assert(insight_views(insights@) =~= fault_insights(*report));
    let ghost first = insight_views(insights@);
    match crate::report::crashed_thread_index(report) {
        Some(t) => {
            let frames = &report.threads[t].frames;
            let missing = count_missing(frames);
            if missing > 0 {
                let mut title = crate::text::dec_string(missing as u64);
                push_str(&mut title, " crashing-stack frame");
                if missing != 1 {
                    push_str(&mut title, "s");
                }
                push_str(&mut title, " lack symbols");
                insights.push(
                    InvestigationInsight {
                        priority: "BLOCKER",
                        title,
                        detail: string_from(
                            "Load matching symbols before trusting function-level conclusions.",
                        ),
                    },
                );
            }
            if frames.len() == 0 {
                insights.push(
                    InvestigationInsight {
                        priority: "BLOCKER",
                        title: string_from("No crashing stack was recovered"),
                        detail: string_from(
                            "Check dump completeness, architecture support, and unwind symbols.",
                        ),
                    },
                );
            }
        },
        None => {
            insights.push(
                InvestigationInsight {
                    priority: "BLOCKER",
                    title: string_from("Crashing thread was not identified"),
                    detail: string_from("The dump may be manual or missing its exception stream."),
                },
            );
        },
    }
    assert(insight_views(insights@) =~= fault_insights(*report) + thread_insights(*report));
    if report.diagnostics.len() == 0 && insights.len() == 0 {
        insights.push(
            InvestigationInsight {
                priority: "INFO",
                title: string_from("No immediate data-quality blockers detected"),
                detail: string_from(
                    "Start with the crashing thread and validate the top recovered frames.",
                ),
            },
        );
    }
    assert(insight_views(insights@) =~= insights_of(*report));
    insights
}

// ---------------------------------------------------------------------------
// Crash evidence chain
// ---------------------------------------------------------------------------

/// The module is the faulting one, or the frame's non-empty module name is
/// its name or a suffix of it.
pub open spec fn module_matches_frame(m: ModuleRow, f: FrameRow) -> bool {
    m.contains_fault || (f.module@.len() > 0 && (m.name@ == f.module@ || ends_with(
        m.name@,
        f.module@,
    )))
}

pub open spec fn first_matching_module(modules: Seq<ModuleRow>, f: FrameRow) -> Option<int>
    decreases modules.len(),
{
    if modules.len() == 0 {
        None
    } else if module_matches_frame(modules[0], f) {
        Some(0)
    } else {
        match first_matching_module(modules.drop_first(), f) {
            Some(i) => Some(i + 1),
            None => None,
        }
    }
}

/// The first frame of the first crashed thread.
pub open spec fn crash_frame(report: DumpReport) -> Option<FrameRow> {
    match first_crashed(report.threads@) {
        Some(i) => if report.threads@[i].frames@.len() > 0 {
            Some(report.threads@[i].frames@[0])
        } else {
            None
        },
        None => None,
    }
}

pub open spec fn thread_value(report: DumpReport) -> Seq<char> {
    match first_crashed(report.threads@) {
        Some(i) => {
            let t = report.threads@[i];
            if t.name@.len() == 0 {
                "Thread "@ + dec(t.id as nat)
            } else {
                t.name@ + " (thread "@ + dec(t.id as nat) + ")"@
            }
        },
        None => "Not identified"@,
    }
}

pub open spec fn frame_value(report: DumpReport) -> Seq<char> {
    match crash_frame(report) {
        Some(f) => {
            let name = if f.function@.len() > 0 {
                f.function@
            } else if f.module@.len() > 0 {
                f.module@
            } else {
                address_text(f.instruction@)
            };
            let trust = if f.trust@.len() == 0 {
                "unknown"@
            } else {
                f.trust@
            };
            name + " \u{b7} confidence "@ + trust
        },
        None => "No frame recovered"@,
    }
}

pub open spec fn module_value(report: DumpReport) -> Seq<char> {
    match crash_frame(report) {
        Some(f) => match first_matching_module(report.modules@, f) {
            Some(i) => {
                let m = report.modules@[i];
                m.name@ + " \u{b7} "@ + ownership_text(m.ownership) + " \u{b7} symbols "@
                    + symbol_status_text(m.symbol_status)
            },
            None => "No matching loaded module"@,
        },
        None => "No matching loaded module"@,
    }
}

pub open spec fn source_value(report: DumpReport) -> Seq<char> {
    match crash_frame(report) {
        Some(f) => if f.source_file@.len() > 0 {
            f.source_file@ + ":"@ + dec(crate::investigation::line_or_zero(f))
        } else {
            "Source unavailable \u{2014} add matching symbols"@
        },
        None => "Source unavailable \u{2014} add matching symbols"@,
    }
}

/// The five evidence steps, from the exception to the source location.
pub open spec fn evidence_steps(report: DumpReport) -> Seq<StepView> {
    seq![
        StepView {
            title: "Exception"@,
            value: report.crash_reason@ + " at "@ + address_text(report.crash_address@),
            explanation: "The event that stopped the process."@,
        },
        StepView {
            title: "Crashed thread"@,
            value: thread_value(report),
            explanation: "This execution context owns the failing stack."@,
        },
        StepView {
            title: "Frame"@,
            value: frame_value(report),
            explanation: "The best available candidate for the active failing code."@,
        },
        StepView {
            title: "Module and symbols"@,
            value: module_value(report),
            explanation: "Ownership and symbol quality determine how actionable the stack is."@,
        },
        StepView {
            title: "Source location"@,
            value: source_value(report),
            explanation: "The closest point to inspect in source code."@,
        },
    ]
}

fn matching_module_index(modules: &Vec<ModuleRow>, frame: &FrameRow) -> (r: Option<usize>)
    ensures
        match r {
            Some(i) => first_matching_module(modules@, *frame) == Some(i as int) && i
                < modules@.len(),
            None => first_matching_module(modules@, *frame) is None,
        },
{
    let fm = chars_of(frame.module.as_str());
    let n = modules.len();
    let mut i: usize = 0;
    assert(modules@.skip(0) =~= modules@);
    while i < n
        invariant
            n == modules@.len(),
            i <= n,
            fm@ == frame.module@,
            first_matching_module(modules@, *frame) == (match first_matching_module(
                modules@.skip(i as int),
                *frame,
            ) {
                Some(j) => Some(j + i),
                None => None,
            }),
        decreases n - i,
    {
        proof {
            assert(modules@.skip(i as int).drop_first() =~= modules@.skip(i + 1));
        }
        let m = &modules[i];
        let matched = m.contains_fault || (fm.len() > 0 && (m.name == frame.module
            || ends_with_exec(&chars_of(m.name.as_str()), &fm)));
        if matched {
            return Some(i);
        }
        i = i + 1;
    }
    None
}

impl CrashEvidence {
    /// The chain from the exception through the crashed thread, its top
    /// frame and module, to the source location.
    pub fn from_report(report: &DumpReport) -> (e: Self)
        ensures
            step_views(e.steps@) == evidence_steps(*report),
            e.needs_symbols == (crash_frame(*report) matches Some(f) && f.missing_symbols),
    {
        let thread_index = crate::report::crashed_thread_index(report);
        let mut v0 = string_from(report.crash_reason.as_str());
        push_str(&mut v0, " at ");
        let a = report.crash_address.display();
        push_str(&mut v0, a.as_str());
        let v1 = match thread_index {
            Some(t) => {
                let thread = &report.threads[t];
                if thread.name.as_str().is_empty() {
                    let mut s = string_from("Thread ");
                    push_dec(&mut s, thread.id as u64);
                    s
                } else {
                    let mut s = string_from(thread.name.as_str());
                    push_str(&mut s, " (thread ");
                    push_dec(&mut s, thread.id as u64);
                    push_str(&mut s, ")");
                    s
                }
            },
            None => string_from("Not identified"),
        };
        let mut frame_opt: Option<&FrameRow> = None;
        if let Some(t) = thread_index {
            if report.threads[t].frames.len() > 0 {
                frame_opt = Some(&report.threads[t].frames[0]);
            }
        }
        assert(match frame_opt {
            Some(f) => crash_frame(*report) == Some(*f),
            None => crash_frame(*report) is None,
        });
        let (v2, v3, v4, needs) = match frame_opt {
            Some(frame) => {
                let name = if !frame.function.as_str().is_empty() {
                    string_from(frame.function.as_str())
                } else if !frame.module.as_str().is_empty() {
                    string_from(frame.module.as_str())
                } else {
                    frame.instruction.display()
                };
                let mut v2 = name;
                push_str(&mut v2, " \u{b7} confidence ");
                if frame.trust.as_str().is_empty() {
                    push_str(&mut v2, "unknown");
                } else {
                    push_str(&mut v2, frame.trust.as_str());
                }
                let v3 = match matching_module_index(&report.modules, frame) {
                    Some(m) => {
                        let module = &report.modules[m];
                        let mut s = string_from(module.name.as_str());
                        push_str(&mut s, " \u{b7} ");
                        let o = module.ownership.display();
                        push_str(&mut s, o.as_str());
                        push_str(&mut s, " \u{b7} symbols ");
                        let st = module.symbol_status.display();
                        push_str(&mut s, st.as_str());
                        s
                    },
                    None => string_from("No matching loaded module"),
                };
                let v4 = if !frame.source_file.as_str().is_empty() {
                    let mut s = string_from(frame.source_file.as_str());
                    push_str(&mut s, ":");
                    push_dec(
                        &mut s,
                        match frame.source_line {
                            Some(l) => l,
                            None => 0,
                        },
                    );
                    s
                } else {
                    string_from("Source unavailable \u{2014} add matching symbols")
                };
                (v2, v3, v4, frame.missing_symbols)
            },
            None => (
                string_from("No frame recovered"),
                string_from("No matching loaded module"),
                string_from("Source unavailable \u{2014} add matching symbols"),
                false,
            ),
        };
        let mut steps: Vec<EvidenceStep> = Vec::new();
        steps.push(
            EvidenceStep {
                title: "Exception",
                value: v0,
                explanation: "The event that stopped the process.",
            },
        );
        steps.push(
            EvidenceStep {
                title: "Crashed thread",
                value: v1,
                explanation: "This execution context owns the failing stack.",
            },
        );
        steps.push(
            EvidenceStep {
                title: "Frame",
                value: v2,
                explanation: "The best available candidate for the active failing code.",
            },
        );
        steps.push(
            EvidenceStep {
                title: "Module and symbols",
                value: v3,
                explanation: "Ownership and symbol quality determine how actionable the stack is.",
            },
        );
        steps.push(
            EvidenceStep {
                title: "Source location",
                value: v4,
                explanation: "The closest point to inspect in source code.",
            },
        );
        assert(step_views(steps@) =~= evidence_steps(*report));
        CrashEvidence { steps, needs_symbols: needs }
    }
}

// ---------------------------------------------------------------------------
// Comparison of two reports
// ---------------------------------------------------------------------------

/// One report field and its value in each side of a comparison.
#[derive(Debug, PartialEq, Eq)]
pub struct FieldDelta {
    pub field: &'static str,
    pub current: String,
    pub comparison: String,
}

pub struct ComparisonAnalysis {
    pub same_signature: bool,
    pub changed: Vec<FieldDelta>,
    pub unchanged: Vec<FieldDelta>,
    pub current_stack: Vec<String>,
    pub comparison_stack: Vec<String>,
    pub only_current_modules: Vec<ModulePresence>,
    pub only_comparison_modules: Vec<ModulePresence>,
    pub changed_modules: Vec<ModuleDelta>,
}

pub struct ModuleDelta {
    pub name: String,
    pub current: String,
    pub comparison: String,
}

#[derive(Debug, Clone, PartialEq, Eq)]
pub struct ModulePresence {
    pub name: String,
    pub path: String,
    pub ownership: ModuleOwnership,
}

pub struct FieldView {
    pub field: Seq<char>,
    pub current: Seq<char>,
    pub comparison: Seq<char>,
}

impl View for FieldDelta {
    type V = FieldView;

    open spec fn view(&self) -> FieldView {
        FieldView { field: self.field@, current: self.current@, comparison: self.comparison@ }
    }
}

pub open spec fn field_views(v: Seq<FieldDelta>) -> Seq<FieldView> {
    v.map_values(|f: FieldDelta| f@)
}

pub struct DeltaView {
    pub name: Seq<char>,
    pub current: Seq<char>,
    pub comparison: Seq<char>,
}

impl View for ModuleDelta {
    type V = DeltaView;

    open spec fn view(&self) -> DeltaView {
        DeltaView { name: self.name@, current: self.current@, comparison: self.comparison@ }
    }
}

pub open spec fn delta_views(v: Seq<ModuleDelta>) -> Seq<DeltaView> {
    v.map_values(|d: ModuleDelta| d@)
}

pub struct PresenceView {
    pub name: Seq<char>,
    pub path: Seq<char>,
    pub ownership: ModuleOwnership,
}

impl View for ModulePresence {
    type V = PresenceView;

    open spec fn view(&self) -> PresenceView {
        PresenceView { name: self.name@, path: self.path@, ownership: self.ownership }
    }
}

pub open spec fn presence_views(v: Seq<ModulePresence>) -> Seq<PresenceView> {
    v.map_values(|p: ModulePresence| p@)
}

/// The compared fields, in display order.
pub open spec fn comparison_fields(a: DumpReport, b: DumpReport) -> Seq<FieldView> {
    seq![
        FieldView { field: "Crash reason"@, current: a.crash_reason@, comparison: b.crash_reason@ },
        FieldView {
            field: "Fault address"@,
            current: address_text(a.crash_address@),
            comparison: address_text(b.crash_address@),
        },
        FieldView {
            field: "Operating system"@,
            current: operating_system_text(a.operating_system),
            comparison: operating_system_text(b.operating_system),
        },
        FieldView {
            field: "Architecture"@,
            current: architecture_text(a.architecture),
            comparison: architecture_text(b.architecture),
        },
        FieldView {
            field: "Thread count"@,
            current: dec(a.threads@.len()),
            comparison: dec(b.threads@.len()),
        },
        FieldView {
            field: "Module count"@,
            current: dec(a.modules@.len()),
            comparison: dec(b.modules@.len()),
        },
    ]
}

/// The fields whose two values differ, in order.
pub open spec fn changed_fields(fields: Seq<FieldView>) -> Seq<FieldView> {
    fields.filter(|f: FieldView| f.current != f.comparison)
}

/// The fields whose two values agree, in order.
pub open spec fn unchanged_fields(fields: Seq<FieldView>) -> Seq<FieldView> {
    fields.filter(|f: FieldView| f.current == f.comparison)
}

/// One line of a stack listing: `index  module!function`, with the
/// instruction address when the function is unknown.
pub open spec fn stack_line(f: FrameRow) -> Seq<char> {
    dec(f.index as nat) + "  "@ + f.module@ + "!"@ + (if f.function@.len() == 0 {
        address_text(f.instruction@)
    } else {
        f.function@
    })
}

/// The first six frames of the first crashed thread, one line each.
pub open spec fn top_stack_of(report: DumpReport) -> Seq<Seq<char>> {
    match first_crashed(report.threads@) {
        Some(i) => first_n(report.threads@[i].frames@, 6).map_values(|f: FrameRow| stack_line(f)),
        None => Seq::empty(),
    }
}

/// A module's identity across dumps: the file name of its path.
pub open spec fn identity(m: ModuleRow) -> Seq<char> {
    file_name_or_empty(m.name@)
}

pub open spec fn presence_of(m: ModuleRow) -> PresenceView {
    PresenceView { name: identity(m), path: m.name@, ownership: m.ownership }
}

/// The modules keyed by identity; a later module replaces an earlier one
/// with the same identity.
pub open spec fn identity_map(modules: Seq<ModuleRow>) -> Map<Seq<char>, PresenceView>
    decreases modules.len(),
{
    if modules.len() == 0 {
        Map::empty()
    } else {
        identity_map(modules.drop_last()).insert(
            identity(modules.last()),
            presence_of(modules.last()),
        )
    }
}

/// `s` holds the entries of `m`, each once, in ascending name order.
pub open spec fn lists_entries(s: Seq<PresenceView>, m: Map<Seq<char>, PresenceView>) -> bool {
    &&& forall|i: int, j: int|
        #![trigger s[i], s[j]]
        0 <= i < j < s.len() ==> name_lt(s[i].name, s[j].name)
    &&& forall|i: int| 0 <= i < s.len() ==> m.contains_key(#[trigger] s[i].name) && m[s[i].name] == s[i]
    &&& forall|k: Seq<char>| #[trigger]
        m.contains_key(k) ==> exists|i: int| 0 <= i < s.len() && #[trigger] s[i].name == k
}

/// The identity `k` is present in both maps, under different paths.
pub open spec fn moved_key(
    k: Seq<char>,
    a: Map<Seq<char>, PresenceView>,
    b: Map<Seq<char>, PresenceView>,
) -> bool {
    a.contains_key(k) && b.contains_key(k) && a[k].path != b[k].path
}

/// `d` names a moved identity and gives its path on each side.
pub open spec fn moved_entry(
    d: DeltaView,
    a: Map<Seq<char>, PresenceView>,
    b: Map<Seq<char>, PresenceView>,
) -> bool {
    moved_key(d.name, a, b) && d.current == a[d.name].path && d.comparison == b[d.name].path
}

/// `d` holds, once each and in ascending name order, the identities present
/// in both maps under different paths, with the path on each side.
pub open spec fn lists_moved(
    d: Seq<DeltaView>,
    a: Map<Seq<char>, PresenceView>,
    b: Map<Seq<char>, PresenceView>,
) -> bool {
    &&& forall|i: int, j: int|
        #![trigger d[i], d[j]]
        0 <= i < j < d.len() ==> name_lt(d[i].name, d[j].name)
    &&& forall|i: int| 0 <= i < d.len() ==> moved_entry(#[trigger] d[i], a, b)
    &&& forall|k: Seq<char>|
        #[trigger] moved_key(k, a, b) ==> exists|i: int| 0 <= i < d.len() && #[trigger] d[i].name == k
}

proof fn lemma_entries_distinct(s: Seq<PresenceView>, m: Map<Seq<char>, PresenceView>, i: int, j: int)
    requires
        lists_entries(s, m),
        0 <= i < s.len(),
        0 <= j < s.len(),
        i != j,
    ensures
        s[i].name != s[j].name,
{
    lemma_name_order(s[i].name, s[j].name, s[j].name);
    if i < j {
        assert(name_lt(s[i].name, s[j].name));
    } else {
        assert(name_lt(s[j].name, s[i].name));
    }
}

/// Inserting a new entry at its place keeps the listing.
proof fn lemma_insert_entry(
    s: Seq<PresenceView>,
    m: Map<Seq<char>, PresenceView>,
    j: int,
    p: PresenceView,
)
    requires
        lists_entries(s, m),
        0 <= j <= s.len(),
        forall|t: int| 0 <= t < j ==> name_lt(#[trigger] s[t].name, p.name),
        j < s.len() ==> !name_lt(s[j].name, p.name) && s[j].name != p.name,
    ensures
        lists_entries(s.insert(j, p), m.insert(p.name, p)),
{
    let r = s.insert(j, p);
    let m2 = m.insert(p.name, p);
    lemma_name_order(p.name, p.name, p.name);
    assert forall|t: int| j <= t < s.len() implies name_lt(p.name, #[trigger] s[t].name) by {
        lemma_name_order(p.name, s[j].name, s[t].name);
        if t > j {
            assert(name_lt(s[j].name, s[t].name));
        }
    }
    assert forall|t: int| 0 <= t < s.len() implies #[trigger] s[t].name != p.name by {
        if t < j {
            assert(name_lt(s[t].name, p.name));
        } else {
            assert(name_lt(p.name, s[t].name));
        }
    }
    assert forall|a: int, b: int|
        #![trigger r[a], r[b]]
        0 <= a < b < r.len() implies name_lt(r[a].name, r[b].name) by {
        if b < j {
            assert(r[a] == s[a] && r[b] == s[b]);
            assert(name_lt(s[a].name, s[b].name));
        } else if b == j {
            assert(r[a] == s[a]);
            assert(name_lt(s[a].name, p.name));
        } else if a < j {
            assert(r[a] == s[a] && r[b] == s[b - 1]);
            assert(name_lt(s[a].name, p.name));
            assert(name_lt(p.name, s[b - 1].name));
            lemma_name_order(s[a].name, p.name, s[b - 1].name);
        } else if a == j {
            assert(r[b] == s[b - 1]);
            assert(name_lt(p.name, s[b - 1].name));
        } else {
            assert(r[a] == s[a - 1] && r[b] == s[b - 1]);
            assert(name_lt(s[a - 1].name, s[b - 1].name));
        }
    }
    assert forall|a: int| 0 <= a < r.len() implies m2.contains_key(#[trigger] r[a].name)
        && m2[r[a].name] == r[a] by {
        if a < j {
            assert(r[a] == s[a]);
            assert(s[a].name != p.name);
        } else if a > j {
            assert(r[a] == s[a - 1]);
            assert(s[a - 1].name != p.name);
        }
    }
    assert forall|k: Seq<char>| #[trigger] m2.contains_key(k) implies exists|a: int|
        0 <= a < r.len() && #[trigger] r[a].name == k by {
        if k == p.name {
            assert(r[j].name == k);
        } else {
            assert(m.contains_key(k));
            let t = choose|t: int| 0 <= t < s.len() && #[trigger] s[t].name == k;
            if t < j {
                assert(r[t].name == k);
            } else {
                assert(r[t + 1].name == k);
            }
        }
    }
}

/// Replacing the entry that has the same name keeps the listing.
proof fn lemma_replace_entry(
    s: Seq<PresenceView>,
    m: Map<Seq<char>, PresenceView>,
    j: int,
    p: PresenceView,
)
    requires
        lists_entries(s, m),
        0 <= j < s.len(),
        s[j].name == p.name,
    ensures
        lists_entries(s.update(j, p), m.insert(p.name, p)),
{
    let r = s.update(j, p);
    let m2 = m.insert(p.name, p);
    assert forall|a: int, b: int|
        #![trigger r[a], r[b]]
        0 <= a < b < r.len() implies name_lt(r[a].name, r[b].name) by {
        assert(name_lt(s[a].name, s[b].name));
    }
    assert forall|a: int| 0 <= a < r.len() implies m2.contains_key(#[trigger] r[a].name)
        && m2[r[a].name] == r[a] by {
        if a != j {
            lemma_entries_distinct(s, m, a, j);
        }
    }
    assert forall|k: Seq<char>| #[trigger] m2.contains_key(k) implies exists|a: int|
        0 <= a < r.len() && #[trigger] r[a].name == k by {
        if k == p.name {
            assert(r[j].name == k);
        } else {
            let t = choose|t: int| 0 <= t < s.len() && #[trigger] s[t].name == k;
            assert(r[t].name == k);
        }
    }
}

fn presence(m: &ModuleRow) -> (p: ModulePresence)
    ensures
        p@ == presence_of(*m),
{
    ModulePresence {
        name: file_name_string(m.name.as_str()),
        path: m.name.clone(),
        ownership: m.ownership,
    }
}

fn copy_presence(p: &ModulePresence) -> (q: ModulePresence)
    ensures
        q@ == p@,
{
    ModulePresence { name: p.name.clone(), path: p.path.clone(), ownership: p.ownership }
}

/// The report's modules keyed by identity, in ascending identity order.
fn modules_by_identity(report: &DumpReport) -> (r: Vec<ModulePresence>)
    ensures
        lists_entries(presence_views(r@), identity_map(report.modules@)),
{
    let mut out: Vec<ModulePresence> = Vec::new();
    let n = report.modules.len();
    let mut i: usize = 0;
    assert(presence_views(out@) =~= Seq::<PresenceView>::empty());
    assert(report.modules@.take(0) =~= Seq::<ModuleRow>::empty());
    while i < n
        invariant
            n == report.modules@.len(),
            i <= n,
            lists_entries(presence_views(out@), identity_map(report.modules@.take(i as int))),
        decreases n - i,
    {
        let p = presence(&report.modules[i]);
        let ghost s = presence_views(out@);
        let ghost m = identity_map(report.modules@.take(i as int));
        let mut j: usize = 0;
        while j < out.len() && name_lt_exec(out[j].name.as_str(), p.name.as_str())
            invariant
                j <= out@.len(),
                s == presence_views(out@),
                forall|t: int| 0 <= t < j ==> name_lt(#[trigger] s[t].name, p.name@),
            decreases out@.len() - j,
        {
            j = j + 1;
        }
        proof {
            assert(report.modules@.take(i + 1).drop_last() =~= report.modules@.take(i as int));
        }
        if j < out.len() && out[j].name == p.name {
            proof {
                lemma_replace_entry(s, m, j as int, p@);
            }
            out.set(j, p);
            assert(presence_views(out@) =~= s.update(j as int, p@));
        } else {
            proof {
                lemma_insert_entry(s, m, j as int, p@);
            }
            out.insert(j, p);
            assert(presence_views(out@) =~= s.insert(j as int, p@));
        }
        i = i + 1;
    }
    assert(report.modules@.take(n as int) =~= report.modules@);
    out
}

/// The position of the entry named `name`, if any.
fn find_presence(list: &Vec<ModulePresence>, name: &String) -> (r: Option<usize>)
    ensures
        match r {
            Some(j) => j < list@.len() && list@[j as int].name@ == name@,
            None => forall|j: int| 0 <= j < list@.len() ==> (#[trigger] list@[j]).name@ != name@,
        },
{
    let mut j: usize = 0;
    while j < list.len()
        invariant
            j <= list@.len(),
            forall|t: int| 0 <= t < j ==> (#[trigger] list@[t]).name@ != name@,
        decreases list@.len() - j,
    {
        if list[j].name == *name {
            return Some(j);
        }
        j = j + 1;
    }
    None
}

/// The entries of `list` whose names `other` lacks, in order.
fn only_in(
    list: &Vec<ModulePresence>,
    other: &Vec<ModulePresence>,
    Ghost(ma): Ghost<Map<Seq<char>, PresenceView>>,
    Ghost(mb): Ghost<Map<Seq<char>, PresenceView>>,
) -> (r: Vec<ModulePresence>)
    requires
        lists_entries(presence_views(list@), ma),
        lists_entries(presence_views(other@), mb),
    ensures
        lists_entries(presence_views(r@), ma.remove_keys(mb.dom())),
{
    let ghost lv = presence_views(list@);
    let ghost ov = presence_views(other@);
    let mut r: Vec<ModulePresence> = Vec::new();
    let ghost mut idx: Seq<int> = Seq::empty();
    let n = list.len();
    let mut i: usize = 0;
    while i < n
        invariant
            n == list@.len(),
            i <= n,
            lv == presence_views(list@),
            ov == presence_views(other@),
            lists_entries(lv, ma),
            lists_entries(ov, mb),
            idx.len() == r@.len(),
            forall|a: int|
                0 <= a < r@.len() ==> 0 <= #[trigger] idx[a] < i && presence_views(r@)[a]
                    == lv[idx[a]] && !mb.contains_key(lv[idx[a]].name),
            forall|a: int, b: int|
                #![trigger presence_views(r@)[a], presence_views(r@)[b]]
                0 <= a < b < r@.len() ==> name_lt(
                    presence_views(r@)[a].name,
                    presence_views(r@)[b].name,
                ),
            forall|t: int|
                0 <= t < i && !mb.contains_key(#[trigger] lv[t].name) ==> exists|a: int|
                    0 <= a < r@.len() && #[trigger] presence_views(r@)[a].name == lv[t].name,
        decreases n - i,
    {
        let ghost before = presence_views(r@);
        let ghost k = lv[i as int].name;
        let found = find_presence(other, &list[i].name);
        assert(mb.contains_key(k) <==> found is Some) by {
            if mb.contains_key(k) {
                let t = choose|t: int| 0 <= t < ov.len() && #[trigger] ov[t].name == k;
                assert(other@[t].name@ == k);
            }
            if let Some(j) = found {
                assert(ov[j as int].name == k);
            }
        }
        if found.is_none() {
            r.push(copy_presence(&list[i]));
            proof {
                idx = idx.push(i as int);
                let after = presence_views(r@);
                assert(after =~= before.push(lv[i as int]));
                assert forall|a: int| 0 <= a < before.len() implies name_lt(
                    #[trigger] before[a].name,
                    k,
                ) by {
                    assert(name_lt(lv[idx[a]].name, lv[i as int].name));
                }
                assert forall|t: int|
                    0 <= t <= i && !mb.contains_key(#[trigger] lv[t].name) implies exists|a: int|
                    0 <= a < r@.len() && #[trigger] after[a].name == lv[t].name by {
                    if t == i {
                        assert(after[before.len() as int].name == lv[t].name);
                    } else {
                        let a = choose|a: int| 0 <= a < before.len() && #[trigger] before[a].name == lv[t].name;
                        assert(after[a].name == lv[t].name);
                    }
                }
            }
        }
        i = i + 1;
    }
    proof {
        let rv = presence_views(r@);
        let m2 = ma.remove_keys(mb.dom());
        assert forall|a: int| 0 <= a < rv.len() implies m2.contains_key(#[trigger] rv[a].name)
            && m2[rv[a].name] == rv[a] by {
            assert(lv[idx[a]] == rv[a]);
            assert(ma.contains_key(lv[idx[a]].name));
        }
        assert forall|k: Seq<char>| #[trigger] m2.contains_key(k) implies exists|a: int|
            0 <= a < rv.len() && #[trigger] rv[a].name == k by {
            assert(ma.contains_key(k));
            let t = choose|t: int| 0 <= t < lv.len() && #[trigger] lv[t].name == k;
            assert(!mb.contains_key(lv[t].name));
        }
    }
    r
}

/// The identities in both listings whose paths differ, in order.
fn moved_between(
    list: &Vec<ModulePresence>,
    other: &Vec<ModulePresence>,
    Ghost(ma): Ghost<Map<Seq<char>, PresenceView>>,
    Ghost(mb): Ghost<Map<Seq<char>, PresenceView>>,
) -> (r: Vec<ModuleDelta>)
    requires
        lists_entries(presence_views(list@), ma),
        lists_entries(presence_views(other@), mb),
    ensures
        lists_moved(delta_views(r@), ma, mb),
{
    let ghost lv = presence_views(list@);
    let ghost ov = presence_views(other@);
    let mut r: Vec<ModuleDelta> = Vec::new();
    let ghost mut idx: Seq<int> = Seq::empty();
    let n = list.len();
    let mut i: usize = 0;
    while i < n
        invariant
            n == list@.len(),
            i <= n,
            lv == presence_views(list@),
            ov == presence_views(other@),
            lists_entries(lv, ma),
            lists_entries(ov, mb),
            idx.len() == r@.len(),
            forall|a: int|
                0 <= a < r@.len() ==> 0 <= #[trigger] idx[a] < i && delta_views(r@)[a].name
                    == lv[idx[a]].name,
            forall|a: int| 0 <= a < r@.len() ==> moved_entry(#[trigger] delta_views(r@)[a], ma, mb),
            forall|a: int, b: int|
                #![trigger delta_views(r@)[a], delta_views(r@)[b]]
                0 <= a < b < r@.len() ==> name_lt(
                    delta_views(r@)[a].name,
                    delta_views(r@)[b].name,
                ),
            forall|t: int|
                0 <= t < i && #[trigger] moved_key(lv[t].name, ma, mb) ==> exists|a: int|
                    0 <= a < r@.len() && #[trigger] delta_views(r@)[a].name == lv[t].name,
        decreases n - i,
    {
        let ghost before = delta_views(r@);
        let ghost old_idx = idx;
        let ghost k = lv[i as int].name;
        let found = find_presence(other, &list[i].name);
        proof {
            assert(ma.contains_key(k) && ma[k] == lv[i as int]);
            if mb.contains_key(k) {
                let t = choose|t: int| 0 <= t < ov.len() && #[trigger] ov[t].name == k;
                assert(other@[t].name@ == k);
            }
            if let Some(j) = found {
                assert(ov[j as int].name == k);
                assert(mb.contains_key(k) && mb[k] == ov[j as int]);
            }
        }
        if let Some(j) = found {
            if list[i].path != other[j].path {
                r.push(
                    ModuleDelta {
                        name: list[i].name.clone(),
                        current: list[i].path.clone(),
                        comparison: other[j].path.clone(),
                    },
                );
                proof {
                    idx = idx.push(i as int);
                    let after = delta_views(r@);
                    let d = after[before.len() as int];
                    assert(after =~= before.push(d));
                    assert(moved_entry(d, ma, mb));
                    assert forall|a: int| 0 <= a < before.len() implies name_lt(
                        #[trigger] before[a].name,
                        k,
                    ) by {
                        let t = old_idx[a];
                        assert(0 <= t < i && before[a].name == lv[t].name);
                        assert(name_lt(lv[t].name, lv[i as int].name));
                    }
                    assert forall|t: int|
                        0 <= t <= i && #[trigger] moved_key(lv[t].name, ma, mb) implies exists|a: int|
                        0 <= a < r@.len() && #[trigger] after[a].name == lv[t].name by {
                        if t == i {
                            assert(after[before.len() as int].name == lv[t].name);
                        } else {
                            let a = choose|a: int|
                                0 <= a < before.len() && #[trigger] before[a].name == lv[t].name;
                            assert(after[a].name == lv[t].name);
                        }
                    }
                }
            }
        }
        i = i + 1;
    }
    proof {
        let dv = delta_views(r@);
        assert forall|k: Seq<char>| #[trigger] moved_key(k, ma, mb) implies exists|a: int|
            0 <= a < dv.len() && #[trigger] dv[a].name == k by {
            let t = choose|t: int| 0 <= t < lv.len() && #[trigger] lv[t].name == k;
            assert(moved_key(lv[t].name, ma, mb));
        }
    }
    r
}

fn copy_field(f: &FieldDelta) -> (g: FieldDelta)
    ensures
        g@ == f@,
{
    FieldDelta { field: f.field, current: f.current.clone(), comparison: f.comparison.clone() }
}

/// The fields split by whether their two values differ.
fn partition_fields(fields: &Vec<FieldDelta>) -> (r: (Vec<FieldDelta>, Vec<FieldDelta>))
    ensures
        field_views(r.0@) == changed_fields(field_views(fields@)),
        field_views(r.1@) == unchanged_fields(field_views(fields@)),
{
    let ghost all = field_views(fields@);
    let mut changed: Vec<FieldDelta> = Vec::new();
    let mut unchanged: Vec<FieldDelta> = Vec::new();
    let n = fields.len();
    let mut i: usize = 0;
    proof {
        reveal(Seq::filter);
        assert(all.take(0) =~= Seq::<FieldView>::empty());
    }
    while i < n
        invariant
            n == fields@.len(),
            i <= n,
            all == field_views(fields@),
            field_views(changed@) == changed_fields(all.take(i as int)),
            field_views(unchanged@) == unchanged_fields(all.take(i as int)),
        decreases n - i,
    {
        let ghost c0 = field_views(changed@);
        let ghost u0 = field_views(unchanged@);
        let f = &fields[i];
        let differs = f.current != f.comparison;
        if differs {
            changed.push(copy_field(f));
            assert(field_views(changed@) =~= c0.push(f@));
        } else {
            unchanged.push(copy_field(f));
            assert(field_views(unchanged@) =~= u0.push(f@));
        }
        proof {
            reveal(Seq::filter);
            assert(all.take(i + 1).drop_last() =~= all.take(i as int));
            assert(all.take(i + 1).last() == f@);
        }
        i = i + 1;
    }
    assert(all.take(n as int) =~= all);
    (changed, unchanged)
}

/// One stack line of a frame.
fn stack_line_exec(f: &FrameRow) -> (s: String)
    ensures
        s@ == stack_line(*f),
{
    let mut s = dec_string(f.index);
    push_str(&mut s, "  ");
    push_str(&mut s, f.module.as_str());
    push_str(&mut s, "!");
    if f.function.as_str().is_empty() {
        let a = f.instruction.display();
        push_str(&mut s, a.as_str());
    } else {
        push_str(&mut s, f.function.as_str());
    }
    s
}

/// The first six frames of the crashed thread, one line each.
fn top_stack(report: &DumpReport) -> (lines: Vec<String>)
    ensures
        views(lines@) == top_stack_of(*report),
{
    let mut lines: Vec<String> = Vec::new();
    match crate::report::crashed_thread_index(report) {
        Some(t) => {
            let frames = &report.threads[t].frames;
            let n: usize = if frames.len() < 6 {
                frames.len()
            } else {
                6
            };
            let ghost shown = first_n(frames@, 6);
            assert(shown =~= frames@.take(n as int));
            let mut i: usize = 0;
            while i < n
                invariant
                    n <= frames@.len(),
                    i <= n,
                    shown == frames@.take(n as int),
                    views(lines@) == shown.take(i as int).map_values(|f: FrameRow| stack_line(f)),
                decreases n - i,
            {
                let line = stack_line_exec(&frames[i]);
                let ghost l0 = views(lines@);
                let ghost lv = line@;
                lines.push(line);
                i = i + 1;
                proof {
                    assert(shown[i - 1] == frames@[i - 1]);
                    assert(views(lines@) =~= l0.push(lv));
                    assert(shown.take(i as int).map_values(|f: FrameRow| stack_line(f))
                        =~= shown.take(i - 1).map_values(|f: FrameRow| stack_line(f)).push(
                        stack_line(shown[i - 1]),
                    ));
                }
            }
            assert(shown.take(n as int) =~= shown);
        },
        None => {
            assert(views(lines@) =~= Seq::<Seq<char>>::empty());
        },
    }
    lines
}

impl ComparisonAnalysis {
    /// Compares two reports: the fields that changed and those that did not,
    /// whether the crash signatures agree, the top of each crashed stack, and
    /// the modules (by file name) found on one side only or at another path.
    pub fn new(current: &DumpReport, comparison: &DumpReport) -> (r: Self)
        ensures
            r.same_signature == (signature_of(*current) == signature_of(*comparison)),
            field_views(r.changed@) == changed_fields(comparison_fields(*current, *comparison)),
            field_views(r.unchanged@) == unchanged_fields(comparison_fields(*current, *comparison)),
            views(r.current_stack@) == top_stack_of(*current),
            views(r.comparison_stack@) == top_stack_of(*comparison),
            lists_entries(
                presence_views(r.only_current_modules@),
                identity_map(current.modules@).remove_keys(identity_map(comparison.modules@).dom()),
            ),
            lists_entries(
                presence_views(r.only_comparison_modules@),
                identity_map(comparison.modules@).remove_keys(identity_map(current.modules@).dom()),
            ),
            lists_moved(
                delta_views(r.changed_modules@),
                identity_map(current.modules@),
                identity_map(comparison.modules@),
            ),
    {
        let mut fields: Vec<FieldDelta> = Vec::new();
        fields.push(
            FieldDelta {
                field: "Crash reason",
                current: current.crash_reason.clone(),
                comparison: comparison.crash_reason.clone(),
            },
        );
        fields.push(
            FieldDelta {
                field: "Fault address",
                current: current.crash_address.display(),
                comparison: comparison.crash_address.display(),
            },
        );
        fields.push(
            FieldDelta {
                field: "Operating system",
                current: current.operating_system.display(),
                comparison: comparison.operating_system.display(),
            },
        );
        fields.push(
            FieldDelta {
                field: "Architecture",
                current: current.architecture.display(),
                comparison: comparison.architecture.display(),
            },
        );
        fields.push(
            FieldDelta {
                field: "Thread count",
                current: dec_string(current.threads.len() as u64),
                comparison: dec_string(comparison.threads.len() as u64),
            },
        );
        fields.push(
            FieldDelta {
                field: "Module count",
                current: dec_string(current.modules.len() as u64),
                comparison: dec_string(comparison.modules.len() as u64),
            },
        );
        assert(field_views(fields@) =~= comparison_fields(*current, *comparison));
        let (changed, unchanged) = partition_fields(&fields);
        let current_modules = modules_by_identity(current);
        let comparison_modules = modules_by_identity(comparison);
        let ghost ma = identity_map(current.modules@);
        let ghost mb = identity_map(comparison.modules@);
        let changed_modules = moved_between(
            &current_modules,
            &comparison_modules,
            Ghost(ma),
            Ghost(mb),
        );
        let only_current_modules = only_in(
            &current_modules,
            &comparison_modules,
            Ghost(ma),
            Ghost(mb),
        );
        let only_comparison_modules = only_in(
            &comparison_modules,
            &current_modules,
            Ghost(mb),
            Ghost(ma),
        );
        let sa = crash_signature(current);
        let sb = crash_signature(comparison);
        ComparisonAnalysis {
            same_signature: sa == sb,
            changed,
            unchanged,
            current_stack: top_stack(current),
            comparison_stack: top_stack(comparison),
            only_current_modules,
            only_comparison_modules,
            changed_modules,
        }
    }
}

// ---------------------------------------------------------------------------
// Laws of the comparison
// ---------------------------------------------------------------------------

/// Comparing a report with itself shows no difference: every field is
/// unchanged, no module is on one side only, and no module moved.
pub proof fn lemma_comparison_with_itself(report: DumpReport)
    ensures
        changed_fields(comparison_fields(report, report)) == Seq::<FieldView>::empty(),
        unchanged_fields(comparison_fields(report, report)) == comparison_fields(report, report),
        forall|s: Seq<PresenceView>|
            lists_entries(
                s,
                identity_map(report.modules@).remove_keys(identity_map(report.modules@).dom()),
            ) ==> s.len() == 0,
        forall|d: Seq<DeltaView>|
            lists_moved(d, identity_map(report.modules@), identity_map(report.modules@)) ==> d.len()
                == 0,
{
    let c = comparison_fields(report, report);
    reveal_with_fuel(Seq::filter, 7);
    assert(c.take(6) =~= c);
    assert(changed_fields(c) =~= Seq::<FieldView>::empty());
    assert(unchanged_fields(c) =~= c);
    let m = identity_map(report.modules@);
    assert forall|s: Seq<PresenceView>| lists_entries(s, m.remove_keys(m.dom())) implies s.len()
        == 0 by {
        if s.len() > 0 {
            assert(m.remove_keys(m.dom()).contains_key(s[0].name));
        }
    }
    assert forall|d: Seq<DeltaView>| lists_moved(d, m, m) implies d.len() == 0 by {
        if d.len() > 0 {
            assert(moved_entry(d[0], m, m));
        }
    }
}

proof fn lemma_split_fields(x: Seq<FieldView>, y: Seq<FieldView>)
    requires
        x.len() == y.len(),
        forall|i: int|
            0 <= i < x.len() ==> (#[trigger] x[i]).field == y[i].field && x[i].current
                == y[i].comparison && x[i].comparison == y[i].current,
    ensures
        changed_fields(x).len() + unchanged_fields(x).len() == x.len(),
        changed_fields(x).map_values(|f: FieldView| f.field) == changed_fields(y).map_values(
            |f: FieldView| f.field,
        ),
    decreases x.len(),
{
    reveal(Seq::filter);
    if x.len() > 0 {
        let (xs, ys) = (x.drop_last(), y.drop_last());
        assert forall|i: int| 0 <= i < xs.len() implies (#[trigger] xs[i]).field == ys[i].field
            && xs[i].current == ys[i].comparison && xs[i].comparison == ys[i].current by {
            assert(xs[i] == x[i] && ys[i] == y[i]);
        }
        lemma_split_fields(xs, ys);
        assert(x.last() == x[x.len() - 1] && y.last() == y[y.len() - 1]);
        let (cx, cy) = (changed_fields(xs), changed_fields(ys));
        assert(changed_fields(x) == (if x.last().current != x.last().comparison {
            cx.push(x.last())
        } else {
            cx
        }));
        assert(changed_fields(y) == (if y.last().current != y.last().comparison {
            cy.push(y.last())
        } else {
            cy
        }));
        assert(unchanged_fields(x) == (if x.last().current == x.last().comparison {
            unchanged_fields(xs).push(x.last())
        } else {
            unchanged_fields(xs)
        }));
        if x.last().current != x.last().comparison {
            assert(cx.push(x.last()).map_values(|f: FieldView| f.field) =~= cx.map_values(
                |f: FieldView| f.field,
            ).push(x.last().field));
            assert(cy.push(y.last()).map_values(|f: FieldView| f.field) =~= cy.map_values(
                |f: FieldView| f.field,
            ).push(y.last().field));
        }
    }
}

/// Each compared field is listed once, as changed or as unchanged, and the
/// same fields change whichever report comes first.
pub proof fn lemma_fields_partition(a: DumpReport, b: DumpReport)
    ensures
        changed_fields(comparison_fields(a, b)).len() + unchanged_fields(comparison_fields(a, b)).len()
            == 6,
        changed_fields(comparison_fields(a, b)).map_values(|f: FieldView| f.field)
            == changed_fields(comparison_fields(b, a)).map_values(|f: FieldView| f.field),
{
    lemma_split_fields(comparison_fields(a, b), comparison_fields(b, a));
}

} // verus!
