//! The application's coordinator: which report is shown, which page is open,
//! and how results of background work and actions of the screens change
//! them. Starting background work is left to the caller, which hands back
//! the outcome.

use crate::report::DumpReport;
use crate::scanner::{FileEntry, ScanEvent};
use crate::screens::{MemoryAction, ModuleAction, ScreenAction};
use crate::session::{initial_thread, AnalysisViewState, ComparisonState, InvestigationState};
use crate::state::{
    expand_home, expanded, opt_view, take_comparison_pair, AnalysisJob, AnalysisResult,
    LibraryState,
};
use crate::text::{chars_of, ends_with, ends_with_exec, push_str, string_from, trim, trim_of, string_of};
use std::sync::mpsc::Receiver;
use std::sync::Arc;
use vstd::prelude::*;

verus! {

broadcast use vstd::string::group_string_axioms;

/// The pages of a shown report.
#[derive(Clone, Copy, Debug, PartialEq, Eq, Structural)]
pub enum Page {
    Summary,
    Threads,
    Modules,
    Memory,
    Streams,
    Symbols,
    Report,
    Compare,
    Search,
}

/// Work that the coordinator asks its caller to start.
#[derive(Clone, Debug, PartialEq, Eq)]
pub enum Effect {
    /// Analyse the dump at the path and hand the job to `begin_analysis`.
    Analyse(String),
    /// Analyse the dump at the path and hand the job to `begin_comparison`.
    AnalyseComparison(String),
    /// Show the path in the platform's file browser.
    Reveal(String),
}

/// `Arc::clone`: another handle to the same report.
#[verifier::external_body]
fn share(report: &Arc<DumpReport>) -> (r: Arc<DumpReport>)
    ensures
        *r == **report,
{
    Arc::clone(report)
}

/// The application state that outlives a single frame.
pub struct CrashLens {
    pub report: Option<Arc<DumpReport>>,
    pub page: Page,
    pub error: Option<String>,
    pub directory: String,
    pub library: LibraryState,
    pub scan: Option<Receiver<ScanEvent>>,
    pub view: AnalysisViewState,
    pub investigation: InvestigationState,
    pub comparison: ComparisonState,
    pub crash_history: Vec<Arc<DumpReport>>,
    pub analysis_job: Option<AnalysisJob>,
}

/// The reports of `history` that are not for `path`, in order.
pub open spec fn history_without(history: Seq<Arc<DumpReport>>, path: Seq<char>) -> Seq<Arc<DumpReport>>
    decreases history.len(),
{
    if history.len() == 0 {
        Seq::empty()
    } else {
        let rest = history_without(history.drop_last(), path);
        if (*history.last()).path@ == path {
            rest
        } else {
            rest.push(history.last())
        }
    }
}

/// Index of the first module whose name is `name` or ends with it.
pub open spec fn first_module_named(modules: Seq<crate::report::ModuleRow>, name: Seq<char>) -> Option<int>
    decreases modules.len(),
{
    if modules.len() == 0 {
        None
    } else if modules[0].name@ == name || ends_with(modules[0].name@, name) {
        Some(0)
    } else {
        match first_module_named(modules.drop_first(), name) {
            Some(i) => Some(i + 1),
            None => None,
        }
    }
}

impl CrashLens {
    /// A coordinator with nothing open, browsing `directory`.
    pub fn with_directory(directory: String) -> (app: Self)
        ensures
            app.report is None,
            app.page == Page::Summary,
            app.error is None,
            app.directory == directory,
            app.library.files@.len() == 0,
            app.library.scan_location is None,
            app.scan is None,
            app.view.memory.is_cleared(),
            app.comparison.report is None,
            app.comparison.job is None,
            app.comparison.selected_paths@.len() == 0,
            app.comparison.queued_path is None,
            app.crash_history@.len() == 0,
            app.analysis_job is None,
    {
        CrashLens {
            report: None,
            page: Page::Summary,
            error: None,
            directory,
            library: LibraryState::default(),
            scan: None,
            view: AnalysisViewState::default(),
            investigation: InvestigationState::default(),
            comparison: ComparisonState::default(),
            crash_history: Vec::new(),
            analysis_job: None,
        }
    }

    /// A report analysis has started: it replaces any earlier one and clears
    /// the error.
    pub fn begin_analysis(&mut self, job: AnalysisJob)
        ensures
            *final(self) == (CrashLens { analysis_job: Some(job), error: None, ..*old(self) }),
    {
        self.analysis_job = Some(job);
        self.error = None;
    }

    /// A comparison analysis has started.
    pub fn begin_comparison(&mut self, job: AnalysisJob)
        ensures
            *final(self) == (CrashLens {
                comparison: ComparisonState { job: Some(job), ..old(self).comparison },
                ..*old(self)
            }),
    {
        self.comparison.job = Some(job);
    }

    /// Takes the outcome of the report analysis. A report is shown from its
    /// summary, with a fresh view, and becomes the latest in the history
    /// (replacing an earlier report for the same path); when a comparison was
    /// queued, its path is returned for analysis and the comparison page
    /// opens. A failure is shown and drops the queued comparison.
    pub fn receive_analysis(&mut self, result: AnalysisResult) -> (next: Option<String>)
        ensures
            *final(self) == (CrashLens {
                report: final(self).report,
                page: final(self).page,
                error: final(self).error,
                view: final(self).view,
                comparison: ComparisonState {
                    path: final(self).comparison.path,
                    queued_path: final(self).comparison.queued_path,
                    ..old(self).comparison
                },
                crash_history: final(self).crash_history,
                analysis_job: None,
                ..*old(self)
            }),
            match result {
                Ok(report) => {
                    &&& final(self).report matches Some(shown) && *shown == report
                    &&& final(self).error is None
                    &&& final(self).view.selected_thread == initial_thread(report)
                    &&& final(self).view.selected_frame == 0
                    &&& final(self).view.selected_memory is None
                    &&& final(self).view.memory.is_cleared()
                    &&& final(self).view.selected_module == 0
                    &&& final(self).view.filter@ == Seq::<char>::empty()
                    &&& final(self).view.global_query@ == Seq::<char>::empty()
                    &&& final(self).crash_history@.len() == history_without(
                        old(self).crash_history@,
                        report.path@,
                    ).len() + 1
                    &&& final(self).crash_history@.drop_last() == history_without(
                        old(self).crash_history@,
                        report.path@,
                    )
                    &&& *final(self).crash_history@.last() == report
                    &&& match old(self).comparison.queued_path {
                        Some(queued) => {
                            &&& next == Some(queued)
                            &&& final(self).comparison.path == queued
                            &&& final(self).comparison.queued_path is None
                            &&& final(self).page == Page::Compare
                        },
                        None => {
                            &&& next is None
                            &&& final(self).comparison.path == old(self).comparison.path
                            &&& final(self).comparison.queued_path is None
                            &&& final(self).page == Page::Summary
                        },
                    }
                },
                Err(error) => {
                    &&& next is None
                    &&& final(self).error == Some(error)
                    &&& final(self).comparison.queued_path is None
                    &&& final(self).report == old(self).report
                    &&& final(self).page == old(self).page
                    &&& final(self).view == old(self).view
                    &&& final(self).comparison.path == old(self).comparison.path
                    &&& final(self).crash_history == old(self).crash_history
                },
            },
    {
        self.analysis_job = None;
        match result {
            Ok(report) => {
                self.view.reset_for(&report);
                let mut history: Vec<Arc<DumpReport>> = Vec::new();
                std::mem::swap(&mut history, &mut self.crash_history);
                let ghost start = history@;
                let ghost mut k: int = 0;
                let mut i: usize = 0;
                assert(start.take(0) =~= Seq::<Arc<DumpReport>>::empty());
                assert(history@.take(0) =~= Seq::<Arc<DumpReport>>::empty());
                assert(history@.skip(0) =~= start.skip(0));
                while i < history.len()
                    invariant
                        0 <= k <= start.len(),
                        i <= history@.len(),
                        history@.len() - i == start.len() - k,
                        history@.take(i as int) == history_without(start.take(k), report.path@),
                        history@.skip(i as int) == start.skip(k),
                    decreases history@.len() - i,
                {
                    assert(history@[i as int] == start.skip(k)[0]);
                    proof {
                        assert(start.take(k + 1).drop_last() =~= start.take(k));
                        assert(start.take(k + 1).last() == start[k]);
                    }
                    let same = history[i].path == report.path;
                    let ghost before = history@;
                    if same {
                        history.remove(i);
                        proof {
                            assert(before.skip(i + 1) =~= before.skip(i as int).skip(1));
                            assert(start.skip(k + 1) =~= start.skip(k).skip(1));
                            assert(history@.take(i as int) =~= before.take(i as int));
                            assert(history@.skip(i as int) =~= start.skip(k + 1));
                            k = k + 1;
                        }
                    } else {
                        proof {
                            assert(before.skip(i + 1) =~= before.skip(i as int).skip(1));
                            assert(start.skip(k + 1) =~= start.skip(k).skip(1));
                            assert(history@.take(i + 1) =~= history@.take(i as int).push(start[k]));
                            assert(history@.skip(i + 1) =~= start.skip(k + 1));
                            k = k + 1;
                        }
                        i = i + 1;
                    }
                }
                proof {
                    assert(start.take(k) =~= start);
                    assert(history@.take(i as int) =~= history@);
                }
                self.crash_history = history;
                let shown = Arc::new(report);
                self.crash_history.push(share(&shown));
                self.report = Some(shown);
                self.error = None;
                match self.comparison.queued_path.take() {
                    Some(other) => {
                        self.comparison.path = other.clone();
                        self.page = Page::Compare;
                        Some(other)
                    },
                    None => {
                        self.page = Page::Summary;
                        None
                    },
                }
            },
            Err(error) => {
                self.comparison.queued_path = None;
                self.error = Some(error);
                None
            },
        }
    }

    /// Takes the outcome of the comparison analysis.
    pub fn receive_comparison(&mut self, result: AnalysisResult)
        ensures
            *final(self) == (CrashLens {
                error: final(self).error,
                comparison: ComparisonState {
                    report: final(self).comparison.report,
                    job: None,
                    ..old(self).comparison
                },
                ..*old(self)
            }),
            match result {
                Ok(report) => {
                    &&& final(self).comparison.report matches Some(r) && *r == report
                    &&& final(self).error == old(self).error
                },
                Err(error) => {
                    &&& final(self).error == Some(error)
                    &&& final(self).comparison.report == old(self).comparison.report
                },
            },
            final(self).report == old(self).report,
            final(self).page == old(self).page,
    {
        self.comparison.job = None;
        match result {
            Ok(report) => {
                self.comparison.report = Some(Arc::new(report));
            },
            Err(error) => {
                self.error = Some(error);
            },
        }
    }

    /// Compares the two dumps selected in the library: the comparison is
    /// cleared and queued behind the first dump, whose path is returned for
    /// analysis. Nothing happens unless exactly two are selected.
    pub fn compare_selected(&mut self) -> (first: Option<String>)
        ensures
            old(self).comparison.selected_paths@.len() != 2 ==> first is None && *final(self)
                == *old(self),
            *final(self) == (CrashLens { comparison: final(self).comparison, ..*old(self) }),
            final(self).comparison.path == old(self).comparison.path,
            old(self).comparison.selected_paths@.len() == 2 ==> {
                &&& first == Some(old(self).comparison.selected_paths@[0])
                &&& final(self).comparison.queued_path == Some(
                    old(self).comparison.selected_paths@[1],
                )
                &&& final(self).comparison.selected_paths@.len() == 0
                &&& final(self).comparison.report is None
                &&& final(self).comparison.job is None
            },
            final(self).report == old(self).report,
            final(self).page == old(self).page,
    {
        if self.comparison.selected_paths.len() != 2 {
            return None;
        }
        let pair = take_comparison_pair(&mut self.comparison.selected_paths);
        match pair {
            Some((current, other)) => {
                self.comparison.clear_result();
                self.comparison.queued_path = Some(other);
                Some(current)
            },
            None => None,
        }
    }

    /// The path that the location field names: trimmed, with `~` expanded.
    pub fn location_target(&self, home: Option<&str>) -> (path: String)
        ensures
            path@ == expanded(trim(self.directory@), opt_view(home)),
    {
        let t = trim_of(self.directory.as_str());
        let trimmed = string_of(&t);
        expand_home(trimmed.as_str(), home)
    }

    /// Browses `directory` in place of the location field's text.
    pub fn browse(&mut self, directory: String)
        ensures
            *final(self) == (CrashLens { directory, ..*old(self) }),
    {
        self.directory = directory;
    }

    /// Shows the outcome of listing the browsed directory: its dumps, or the
    /// error. Either way the earlier list and selection are dropped.
    pub fn directory_listed(&mut self, directory: &str, listing: Result<Vec<FileEntry>, String>)
        ensures
            *final(self) == (CrashLens {
                library: LibraryState { files: final(self).library.files, ..old(self).library },
                comparison: ComparisonState {
                    selected_paths: final(self).comparison.selected_paths,
                    ..old(self).comparison
                },
                error: final(self).error,
                ..*old(self)
            }),
            final(self).comparison.selected_paths@.len() == 0,
            match listing {
                Ok(files) => {
                    &&& final(self).library.files@.to_multiset() == files@.to_multiset()
                    &&& crate::state::sorted_descending(final(self).library.files@)
                    &&& forall|k: Seq<u64>| #[trigger] crate::state::with_key(final(self).library.files@, k)
                        == crate::state::with_key(files@, k)
                    &&& final(self).error is None
                },
                Err(reason) => {
                    &&& final(self).library.files@.len() == 0
                    &&& final(self).error matches Some(e) && e@ == "Cannot open "@ + directory@
                        + ": "@ + reason@
                },
            },
    {
        self.library.files = Vec::new();
        self.comparison.selected_paths = Vec::new();
        match listing {
            Ok(files) => {
                self.library.replace(files);
                self.error = None;
            },
            Err(reason) => {
                let mut message = string_from("Cannot open ");
                push_str(&mut message, directory);
                push_str(&mut message, ": ");
                push_str(&mut message, reason.as_str());
                self.error = Some(message);
            },
        }
    }

    /// A scan of the whole system has started, reporting through `events`.
    pub fn begin_system_scan(&mut self, events: Receiver<ScanEvent>)
        ensures
            *final(self) == (CrashLens {
                library: final(self).library,
                comparison: ComparisonState {
                    selected_paths: final(self).comparison.selected_paths,
                    ..old(self).comparison
                },
                error: None,
                scan: Some(events),
                ..*old(self)
            }),
            final(self).scan == Some(events),
            final(self).library.files@.len() == 0,
            final(self).library.scan_location matches Some(p) && p@ == "/"@,
            final(self).library.scanned_directories == 0,
            final(self).comparison.selected_paths@.len() == 0,
            final(self).error is None,
    {
        self.library.begin_scan("/");
        self.comparison.selected_paths = Vec::new();
        self.error = None;
        self.scan = Some(events);
    }

    /// Takes one event of the running scan; says whether the scan finished.
    pub fn scan_event(&mut self, event: ScanEvent) -> (finished: bool)
        ensures
            match event {
                ScanEvent::FoundBatch(files) => !finished && final(self).library.files@
                    == old(self).library.files@ + files@,
                ScanEvent::Progress { path, directories } => !finished
                    && final(self).library.scan_location == Some(path)
                    && final(self).library.scanned_directories == directories,
                ScanEvent::Finished => finished && final(self).library == old(self).library,
            },
            *final(self) == (CrashLens { library: final(self).library, ..*old(self) }),
    {
        match event {
            ScanEvent::FoundBatch(files) => {
                self.library.found_batch(files);
                false
            },
            ScanEvent::Progress { path, directories } => {
                self.library.progress(path, directories);
                false
            },
            ScanEvent::Finished => true,
        }
    }

    /// Ends the scan: the discovered dumps are ordered by path, one entry
    /// per path.
    pub fn finish_system_scan(&mut self)
        ensures
            *final(self) == (CrashLens {
                library: LibraryState {
                    files: final(self).library.files,
                    scan_location: None,
                    ..old(self).library
                },
                scan: None,
                ..*old(self)
            }),
            crate::state::strictly_ascending(final(self).library.files@),
            crate::state::first_of_each_path(final(self).library.files@, old(self).library.files@),
            crate::state::strictly_ascending(old(self).library.files@) ==> final(self).library.files@
                == old(self).library.files@,
            final(self).library.scan_location is None,
    {
        self.library.finish_scan();
        self.scan = None;
    }

    /// Returns to the dump library.
    pub fn close_report(&mut self)
        ensures
            *final(self) == (CrashLens { report: None, ..*old(self) }),
    {
        self.report = None;
    }

    /// Opens a page of the shown report.
    pub fn open_page(&mut self, page: Page)
        ensures
            *final(self) == (CrashLens { page, ..*old(self) }),
    {
        self.page = page;
    }

    /// Carries out a request of a report screen; returns the work it needs
    /// started. Opening a module selects the first module named by it (or
    /// ending with its name) when there is one.
    pub fn apply_screen_action(&mut self, action: ScreenAction, home: Option<&str>) -> (effect: Option<Effect>)
        ensures
            *final(self) == (CrashLens {
                page: final(self).page,
                view: AnalysisViewState {
                    selected_module: final(self).view.selected_module,
                    ..old(self).view
                },
                ..*old(self)
            }),
            match action {
                ScreenAction::OpenThreads => {
                    &&& effect is None
                    &&& final(self).page == Page::Threads
                },
                ScreenAction::OpenModules => {
                    &&& effect is None
                    &&& final(self).page == Page::Modules
                },
                ScreenAction::ConfigureSymbols => {
                    &&& effect is None
                    &&& final(self).page == Page::Symbols
                },
                ScreenAction::OpenModule(name) => effect is None && match old(self).report {
                    Some(r) => match first_module_named(r.modules@, name@) {
                        Some(i) => final(self).view.selected_module == i && final(self).page
                            == Page::Modules,
                        None => final(self).page == old(self).page && final(self).view.selected_module
                            == old(self).view.selected_module,
                    },
                    None => final(self).page == old(self).page && final(self).view.selected_module
                        == old(self).view.selected_module,
                },
                ScreenAction::ReanalyseWithSymbols => {
                    &&& final(self).page == Page::Symbols
                    &&& match old(self).report {
                        Some(r) => effect matches Some(Effect::Analyse(p)) && p@ == r.path@,
                        None => effect is None,
                    }
                },
                ScreenAction::LoadComparison => {
                    &&& final(self).page == Page::Compare
                    &&& effect matches Some(Effect::AnalyseComparison(p)) && p@ == expanded(
                        trim(old(self).comparison.path@),
                        opt_view(home),
                    )
                },
                ScreenAction::OpenPath(path) => effect == Some(Effect::Reveal(path))
                    && final(self).page == old(self).page,
            },
    {
        match action {
            ScreenAction::OpenThreads => {
                self.page = Page::Threads;
                None
            },
            ScreenAction::OpenModules => {
                self.page = Page::Modules;
                None
            },
            ScreenAction::ConfigureSymbols => {
                self.page = Page::Symbols;
                None
            },
            ScreenAction::OpenModule(name) => {
                let found = match &self.report {
                    Some(r) => module_named(&r.modules, name.as_str()),
                    None => None,
                };
                if let Some(i) = found {
                    self.view.selected_module = i;
                    self.page = Page::Modules;
                }
                None
            },
            ScreenAction::ReanalyseWithSymbols => {
                self.page = Page::Symbols;
                match &self.report {
                    Some(r) => Some(Effect::Analyse(r.path.clone())),
                    None => None,
                }
            },
            ScreenAction::LoadComparison => {
                let t = trim_of(self.comparison.path.as_str());
                let trimmed = string_of(&t);
                let path = expand_home(trimmed.as_str(), home);
                self.page = Page::Compare;
                Some(Effect::AnalyseComparison(path))
            },
            ScreenAction::OpenPath(path) => Some(Effect::Reveal(path)),
        }
    }

    /// Carries out a request of the modules screen.
    pub fn apply_module_action(&mut self, action: ModuleAction)
        ensures
            match action {
                ModuleAction::OpenFrame { thread, frame } => *final(self) == (CrashLens {
                    view: AnalysisViewState {
                        selected_thread: thread,
                        selected_frame: frame,
                        ..old(self).view
                    },
                    page: Page::Threads,
                    ..*old(self)
                }),
                ModuleAction::ConfigureSymbols => *final(self) == (CrashLens {
                    page: Page::Symbols,
                    ..*old(self)
                }),
            },
    {
        match action {
            ModuleAction::OpenFrame { thread, frame } => {
                self.view.selected_thread = thread;
                self.view.selected_frame = frame;
                self.page = Page::Threads;
            },
            ModuleAction::ConfigureSymbols => {
                self.page = Page::Symbols;
            },
        }
    }

    /// Carries out a request of the memory screen: the frame opens in the
    /// stack trace.
    pub fn apply_memory_action(&mut self, action: MemoryAction)
        ensures
            *final(self) == (CrashLens {
                view: AnalysisViewState {
                    selected_thread: action.thread,
                    selected_frame: action.frame,
                    ..old(self).view
                },
                page: Page::Threads,
                ..*old(self)
            }),
    {
        self.view.selected_thread = action.thread;
        self.view.selected_frame = action.frame;
        self.page = Page::Threads;
    }

    /// Records an error to show.
    pub fn show_error(&mut self, error: String)
        ensures
            *final(self) == (CrashLens { error: Some(error), ..*old(self) }),
    {
        self.error = Some(error);
    }
}

/// The first module named by `name`: the same name, or a name ending with it.
pub fn module_named(modules: &Vec<crate::report::ModuleRow>, name: &str) -> (r: Option<usize>)
    ensures
        match first_module_named(modules@, name@) {
            Some(i) => r matches Some(j) && j as int == i && i < modules@.len(),
            None => r is None,
        },
{
    let target = string_from(name);
    let chars = chars_of(name);
    let n = modules.len();
    let mut i: usize = 0;
    assert(modules@.skip(0) =~= modules@);
    while i < n
        invariant
            n == modules@.len(),
            i <= n,
            target@ == name@,
            chars@ == name@,
            first_module_named(modules@, name@) == (match first_module_named(
                modules@.skip(i as int),
                name@,
            ) {
                Some(j) => Some(j + i),
                None => None,
            }),
        decreases n - i,
    {
        proof {
            assert(modules@.skip(i as int).drop_first() =~= modules@.skip(i + 1));
        }
        let m = &modules[i];
        if m.name == target || ends_with_exec(&chars_of(m.name.as_str()), &chars) {
            return Some(i);
        }
        i = i + 1;
    }
    None
}

} // verus!
