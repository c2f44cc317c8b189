//! The application's state for one session, split by lifetime: the view of
//! the current report, the investigator's own notes, and the comparison.

use crate::memory_view::MemoryAnalysisCache;
use crate::report::{first_crashed, DumpReport};
use crate::state::{AnalysisJob, SymbolSettings};
use std::sync::Arc;
use vstd::prelude::*;

verus! {

broadcast use vstd::string::group_string_axioms;

/// Transient state belonging to the currently displayed crash report.
/// Resetting it cannot discard library or comparison state.
pub struct AnalysisViewState {
    pub filter: String,
    pub selected_thread: usize,
    pub selected_frame: usize,
    pub selected_memory: Option<usize>,
    pub selected_module: usize,
    pub memory: MemoryAnalysisCache,
    pub global_query: String,
}

/// The thread shown first for a report: the first crashed thread, or the
/// first thread when none crashed.
pub open spec fn initial_thread(report: DumpReport) -> int {
    match first_crashed(report.threads@) {
        Some(i) => i,
        None => 0,
    }
}

impl AnalysisViewState {
    /// Prepares the view for a newly shown report: the crashed thread is
    /// selected, every other selection and query is cleared.
    pub fn reset_for(&mut self, report: &DumpReport)
        ensures
            final(self).filter@ == Seq::<char>::empty(),
            final(self).selected_thread == initial_thread(*report),
            final(self).selected_frame == 0,
            final(self).selected_memory is None,
            final(self).selected_module == 0,
            final(self).memory.is_cleared(),
            final(self).global_query@ == Seq::<char>::empty(),
    {
        self.filter = String::new();
        self.selected_thread = match crate::report::crashed_thread_index(report) {
            Some(i) => i,
            None => 0,
        };
        self.selected_frame = 0;
        self.selected_memory = None;
        self.selected_module = 0;
        self.memory.clear();
        self.global_query = String::new();
    }
}

impl Default for AnalysisViewState {
    fn default() -> (s: Self)
        ensures
            s.filter@ == Seq::<char>::empty(),
            s.selected_thread == 0,
            s.selected_frame == 0,
            s.selected_memory is None,
            s.selected_module == 0,
            s.memory.is_cleared(),
            s.global_query@ == Seq::<char>::empty(),
    {
        AnalysisViewState {
            filter: String::new(),
            selected_thread: 0,
            selected_frame: 0,
            selected_memory: None,
            selected_module: 0,
            memory: MemoryAnalysisCache::default(),
            global_query: String::new(),
        }
    }
}

/// Where an investigation stands.
#[derive(Clone, Copy, Debug, Default, PartialEq, Eq, Structural)]
pub enum InvestigationStatus {
    #[default]
    New,
    Investigating,
    Resolved,
    Ignored,
}

pub open spec fn status_text(s: InvestigationStatus) -> Seq<char> {
    match s {
        InvestigationStatus::New => "New"@,
        InvestigationStatus::Investigating => "Investigating"@,
        InvestigationStatus::Resolved => "Resolved"@,
        InvestigationStatus::Ignored => "Ignored"@,
    }
}

impl InvestigationStatus {
    /// Every status, in the order they are offered.
    pub fn all() -> (statuses: [Self; 4])
        ensures
            statuses@ == seq![
                InvestigationStatus::New,
                InvestigationStatus::Investigating,
                InvestigationStatus::Resolved,
                InvestigationStatus::Ignored,
            ],
    {
        let statuses = [
            InvestigationStatus::New,
            InvestigationStatus::Investigating,
            InvestigationStatus::Resolved,
            InvestigationStatus::Ignored,
        ];
        assert(statuses@ =~= seq![
            InvestigationStatus::New,
            InvestigationStatus::Investigating,
            InvestigationStatus::Resolved,
            InvestigationStatus::Ignored,
        ]);
        statuses
    }

    /// The display name of the status.
    pub fn display(&self) -> (s: &'static str)
        ensures
            s@ == status_text(*self),
    {
        match self {
            InvestigationStatus::New => "New",
            InvestigationStatus::Investigating => "Investigating",
            InvestigationStatus::Resolved => "Resolved",
            InvestigationStatus::Ignored => "Ignored",
        }
    }
}

/// User-authored investigation data and symbol and source configuration.
pub struct InvestigationState {
    pub symbols: SymbolSettings,
    pub notes: String,
    pub status: InvestigationStatus,
    pub tags: String,
    pub export_result: Option<Result<String, String>>,
}

impl Default for InvestigationState {
    fn default() -> (s: Self)
        ensures
            s.symbols.local_paths@ == Seq::<char>::empty(),
            s.symbols.server_urls@ == Seq::<char>::empty(),
            s.symbols.source_root_from@ == Seq::<char>::empty(),
            s.symbols.source_root_to@ == Seq::<char>::empty(),
            s.notes@ == Seq::<char>::empty(),
            s.status == InvestigationStatus::New,
            s.tags@ == Seq::<char>::empty(),
            s.export_result is None,
    {
        InvestigationState {
            symbols: SymbolSettings {
                local_paths: String::new(),
                server_urls: String::new(),
                source_root_from: String::new(),
                source_root_to: String::new(),
            },
            notes: String::new(),
            status: InvestigationStatus::New,
            tags: String::new(),
            export_result: None,
        }
    }
}

/// Everything needed for the optional second report and the library's pair
/// selection.
pub struct ComparisonState {
    pub path: String,
    pub report: Option<Arc<DumpReport>>,
    pub job: Option<AnalysisJob>,
    pub selected_paths: Vec<String>,
    pub queued_path: Option<String>,
}

impl ComparisonState {
    /// Drops the compared report and any analysis still running for it; the
    /// path, the selection and the queue stay.
    pub fn clear_result(&mut self)
        ensures
            final(self).report is None,
            final(self).job is None,
            final(self).path == old(self).path,
            final(self).selected_paths == old(self).selected_paths,
            final(self).queued_path == old(self).queued_path,
    {
        self.report = None;
        self.job = None;
    }
}

impl Default for ComparisonState {
    fn default() -> (s: Self)
        ensures
            s.path@ == Seq::<char>::empty(),
            s.report is None,
            s.job is None,
            s.selected_paths@.len() == 0,
            s.queued_path is None,
    {
        ComparisonState {
            path: String::new(),
            report: None,
            job: None,
            selected_paths: Vec::new(),
            queued_path: None,
        }
    }
}

} // verus!
