use crashlens::coordinator::{module_named, CrashLens, Effect, Page};
use crashlens::panels::{
    crash_memory_relevance, crash_region_index, failure_confidence, failure_location, frame_counts,
    memory_conclusion, memory_selection, modules_missing_symbols, region_purpose, visible_modules,
    visible_streams, visible_threads,
};
use crashlens::report::{
    DumpReport, FrameRow, MemoryPermissions, MemoryRow, ModuleOwnership, ModuleRow, StreamRow,
    SymbolStatus, ThreadRow,
};
use crashlens::scanner::{FileEntry, ScanEvent};
use crashlens::screens::{MemoryAction, ModuleAction, ScreenAction};
use crashlens::state::AnalysisJob;

fn module(name: &str, ownership: ModuleOwnership, status: SymbolStatus) -> ModuleRow {
    ModuleRow {
        name: name.to_string(),
        base: String::new().into(),
        size: 0,
        code_id: String::new(),
        symbol_status: status,
        ownership,
        contains_fault: false,
    }
}

fn region(start: &str, size: usize) -> MemoryRow {
    MemoryRow {
        start: start.into(),
        size: size as u64,
        preview: String::new(),
        bytes: vec![0; size],
        permissions: MemoryPermissions::Recorded { readable: true, writable: true, executable: false },
        mapping_type: "Private".to_string(),
    }
}

fn thread(id: u32, name: &str, crashed: bool, stack_start: &str, frames: Vec<FrameRow>) -> ThreadRow {
    ThreadRow { id, name: name.to_string(), stack_start: stack_start.into(), stack_size: 0x40, crashed, frames }
}

fn stream(kind: &str) -> StreamRow {
    StreamRow { kind: kind.to_string(), size: 0, rva: 0 }
}

fn entry(path: &str, size: u64) -> FileEntry {
    FileEntry { path: path.to_string(), size }
}

fn shown(path: &str) -> DumpReport {
    DumpReport {
        path: path.to_string(),
        threads: vec![thread(1, "main", false, "", vec![]), thread(2, "worker", true, "", vec![])],
        modules: vec![
            module("/usr/lib/libc.so.6", ModuleOwnership::System, SymbolStatus::Loaded),
            module("/opt/app/bin/app", ModuleOwnership::ApplicationOrThirdParty, SymbolStatus::Missing),
        ],
        ..Default::default()
    }
}

fn job(path: &str) -> AnalysisJob {
    let (_sender, receiver) = std::sync::mpsc::channel();
    AnalysisJob::new(path.to_string(), receiver)
}

#[test]
fn panel_filters_match_ids_names_and_kinds_ignoring_case() {
    let report = DumpReport {
        threads: vec![
            thread(12, "Render", false, "", vec![]),
            thread(7, "IO", false, "", vec![]),
            thread(312, "main", true, "", vec![]),
        ],
        modules: vec![
            module("libGL.so", ModuleOwnership::System, SymbolStatus::Loaded),
            module("app", ModuleOwnership::ApplicationOrThirdParty, SymbolStatus::Loaded),
        ],
        streams: vec![stream("ThreadList"), stream("MemoryList"), stream("SystemInfo")],
        ..Default::default()
    };
    assert_eq!(visible_threads(&report, ""), vec![0, 1, 2]);
    assert_eq!(visible_threads(&report, "12"), vec![0, 2]);
    assert_eq!(visible_threads(&report, "rEnD"), vec![0]);
    assert_eq!(visible_threads(&report, "zzz"), Vec::<usize>::new());
    assert_eq!(visible_modules(&report, "GL"), vec![0]);
    assert_eq!(visible_modules(&report, ""), vec![0, 1]);
    assert_eq!(visible_streams(&report, "list"), vec![0, 1]);
    assert_eq!(visible_streams(&report, "SYSTEM"), vec![2]);
}

#[test]
fn frame_counts_give_missing_symbols_and_application_frames() {
    let report = DumpReport {
        threads: vec![thread(
            1,
            "main",
            true,
            "",
            vec![
                FrameRow { module: "app".to_string(), missing_symbols: true, ..Default::default() },
                FrameRow { module: "libc.so.6".to_string(), ..Default::default() },
                FrameRow { module: "app".to_string(), ..Default::default() },
            ],
        )],
        modules: vec![
            module("/opt/app", ModuleOwnership::ApplicationOrThirdParty, SymbolStatus::Missing),
            module("/usr/lib/libc.so.6", ModuleOwnership::System, SymbolStatus::Loaded),
            module("helper", ModuleOwnership::ApplicationOrThirdParty, SymbolStatus::Missing),
        ],
        ..Default::default()
    };
    assert_eq!(frame_counts(&report, 0), (1, 2));
    assert_eq!(modules_missing_symbols(&report), 2);
}

#[test]
fn the_likely_failure_names_the_top_crashed_frame() {
    let mut report = DumpReport {
        crash_reason: "SIGSEGV".to_string(),
        crash_address: "0x8".into(),
        threads: vec![
            thread(1, "main", false, "", vec![FrameRow { function: "idle".to_string(), ..Default::default() }]),
            thread(2, "worker", true, "", vec![FrameRow {
                function: "parse".to_string(),
                module: "app".to_string(),
                trust: "context".to_string(),
                ..Default::default()
            }]),
        ],
        ..Default::default()
    };
    assert_eq!(failure_location(&report), "parse");
    assert_eq!(failure_confidence(&report), "probable null-pointer access \u{b7} confidence context");

    report.threads[1].frames[0].function = String::new();
    assert_eq!(failure_location(&report), "app");
    report.threads[1].frames[0].module = String::new();
    report.threads[1].frames[0].instruction = "0x1f".into();
    assert_eq!(failure_location(&report), "0x000000000000001f");
    report.threads[1].frames[0].trust = String::new();
    assert_eq!(failure_confidence(&report), "probable null-pointer access \u{b7} confidence Not available");

    let empty = DumpReport::default();
    assert_eq!(failure_location(&empty), "No crashing frame recovered");
    assert_eq!(failure_confidence(&empty), "cause requires frame-level investigation \u{b7} confidence unknown");
}

#[test]
fn memory_conclusions_follow_the_captured_regions() {
    let mut report = DumpReport {
        crash_address: "0x2010".into(),
        threads: vec![thread(4, "main", true, "0x1000", vec![])],
        memory: vec![region("0x1000", 0x40)],
        ..Default::default()
    };
    assert_eq!(memory_conclusion(&report), (false, true));
    assert_eq!(crash_region_index(&report), Some(0));
    assert_eq!(region_purpose(&report, &report.memory[0]), "CRASHED THREAD STACK");
    let (level, title, _) = crash_memory_relevance(&report);
    assert_eq!((level, title), ("HIGH", "Stack memory for the crashed thread"));

    report.memory.push(region("0x2000", 0x20));
    assert_eq!(memory_conclusion(&report), (true, true));
    assert_eq!(crash_region_index(&report), Some(0));
    assert_eq!(region_purpose(&report, &report.memory[1]), "FAULT ADDRESS");

    let nothing = DumpReport { crash_address: "0x10".into(), memory: vec![region("0x9000", 8)], ..Default::default() };
    assert_eq!(memory_conclusion(&nothing), (false, false));
    assert_eq!(crash_region_index(&nothing), None);
    assert_eq!(region_purpose(&nothing, &nothing.memory[0]), "OTHER CAPTURED MEMORY");
    let (level, title, advice) = crash_memory_relevance(&nothing);
    assert_eq!(level, "UNKNOWN");
    assert_eq!(title, "No crash-linked memory was captured");
    assert_eq!(advice, "Use the crashing stack and modules; this dump cannot support memory-level conclusions.");
}

#[test]
fn region_purpose_counts_referencing_frame_values() {
    let report = DumpReport {
        threads: vec![thread(
            3,
            "main",
            false,
            "",
            vec![
                FrameRow { instruction: "0x5004".into(), ..Default::default() },
                FrameRow { instruction: "0x5008".into(), ..Default::default() },
            ],
        )],
        memory: vec![region("0x5000", 0x10)],
        ..Default::default()
    };
    assert_eq!(region_purpose(&report, &report.memory[0]), "REFERENCED BY 2 FRAME VALUES");
}

#[test]
fn memory_selection_prefers_the_fault_then_references() {
    let report = DumpReport {
        crash_address: "0x3004".into(),
        threads: vec![thread(1, "main", false, "", vec![FrameRow { instruction: "0x4004".into(), ..Default::default() }])],
        memory: vec![region("0x1000", 8), region("0x4000", 8), region("0x3000", 8)],
        ..Default::default()
    };
    assert_eq!(memory_selection(&report, &vec![0, 1, 2], None), 2);
    assert_eq!(memory_selection(&report, &vec![0, 1], None), 1);
    assert_eq!(memory_selection(&report, &vec![0], None), 0);
    assert_eq!(memory_selection(&report, &vec![0, 1, 2], Some(1)), 1);
    assert_eq!(memory_selection(&report, &vec![0, 1, 2], Some(9)), 2);
}

#[test]
fn a_finished_analysis_is_shown_from_its_summary() {
    let mut app = CrashLens::with_directory("/dumps".to_string());
    assert!(app.report.is_none());
    assert_eq!(app.page, Page::Summary);
    app.open_page(Page::Memory);
    app.begin_analysis(job("/dumps/a.dmp"));
    assert!(app.analysis_job.is_some());
    let next = app.receive_analysis(Ok(shown("/dumps/a.dmp")));
    assert_eq!(next, None);
    assert!(app.analysis_job.is_none());
    assert_eq!(app.page, Page::Summary);
    assert_eq!(app.report.as_ref().unwrap().path, "/dumps/a.dmp");
    assert_eq!(app.view.selected_thread, 1);
    assert_eq!(app.crash_history.len(), 1);

    app.receive_analysis(Ok(shown("/dumps/b.dmp")));
    app.receive_analysis(Ok(shown("/dumps/a.dmp")));
    let paths: Vec<&str> = app.crash_history.iter().map(|r| r.path.as_str()).collect();
    assert_eq!(paths, vec!["/dumps/b.dmp", "/dumps/a.dmp"]);
}

#[test]
fn a_failed_analysis_keeps_the_report_and_drops_the_queued_comparison() {
    let mut app = CrashLens::with_directory("/dumps".to_string());
    app.receive_analysis(Ok(shown("/dumps/a.dmp")));
    app.comparison.queued_path = Some("/dumps/b.dmp".to_string());
    let next = app.receive_analysis(Err("not a minidump".to_string()));
    assert_eq!(next, None);
    assert_eq!(app.error.as_deref(), Some("not a minidump"));
    assert!(app.comparison.queued_path.is_none());
    assert_eq!(app.report.as_ref().unwrap().path, "/dumps/a.dmp");
    assert_eq!(app.crash_history.len(), 1);
}

#[test]
fn comparing_two_selected_dumps_queues_the_second() {
    let mut app = CrashLens::with_directory("/dumps".to_string());
    assert_eq!(app.compare_selected(), None);
    app.comparison.selected_paths = vec!["/dumps/a.dmp".to_string(), "/dumps/b.dmp".to_string()];
    let first = app.compare_selected();
    assert_eq!(first.as_deref(), Some("/dumps/a.dmp"));
    assert!(app.comparison.selected_paths.is_empty());
    assert_eq!(app.comparison.queued_path.as_deref(), Some("/dumps/b.dmp"));

    let next = app.receive_analysis(Ok(shown("/dumps/a.dmp")));
    assert_eq!(next.as_deref(), Some("/dumps/b.dmp"));
    assert_eq!(app.page, Page::Compare);
    assert_eq!(app.comparison.path, "/dumps/b.dmp");
    app.begin_comparison(job("/dumps/b.dmp"));
    app.receive_comparison(Ok(shown("/dumps/b.dmp")));
    assert!(app.comparison.job.is_none());
    assert_eq!(app.comparison.report.as_ref().unwrap().path, "/dumps/b.dmp");
    app.receive_comparison(Err("unreadable".to_string()));
    assert_eq!(app.error.as_deref(), Some("unreadable"));
    assert_eq!(app.comparison.report.as_ref().unwrap().path, "/dumps/b.dmp");
}

#[test]
fn the_library_lists_a_directory_or_its_error() {
    let mut app = CrashLens::with_directory("  ~/crashes ".to_string());
    assert_eq!(app.location_target(Some("/home/ada")), "/home/ada/crashes");
    assert_eq!(app.location_target(None), "~/crashes");
    app.browse("/var/crash".to_string());
    assert_eq!(app.directory, "/var/crash");

    app.comparison.selected_paths = vec!["/x.dmp".to_string()];
    app.directory_listed("/var/crash", Ok(vec![entry("/var/crash/a.dmp", 1), entry("/var/crash/c.dmp", 2)]));
    assert!(app.comparison.selected_paths.is_empty());
    assert!(app.error.is_none());
    let paths: Vec<&str> = app.library.files.iter().map(|f| f.path.as_str()).collect();
    assert_eq!(paths, vec!["/var/crash/c.dmp", "/var/crash/a.dmp"]);

    app.directory_listed("/root", Err("permission denied".to_string()));
    assert!(app.library.files.is_empty());
    assert_eq!(app.error.as_deref(), Some("Cannot open /root: permission denied"));
}

#[test]
fn a_system_scan_collects_batches_and_orders_them_when_finished() {
    let mut app = CrashLens::with_directory("/".to_string());
    let (_sender, receiver) = std::sync::mpsc::channel();
    app.begin_system_scan(receiver);
    assert!(app.scan.is_some());
    assert_eq!(app.library.scan_location.as_deref(), Some("/"));
    assert!(!app.scan_event(ScanEvent::FoundBatch(vec![entry("/b.dmp", 1), entry("/a.dmp", 2)])));
    assert!(!app.scan_event(ScanEvent::Progress { path: "/var".to_string(), directories: 12 }));
    assert_eq!(app.library.scanned_directories, 12);
    assert!(!app.scan_event(ScanEvent::FoundBatch(vec![entry("/a.dmp", 3)])));
    assert!(app.scan_event(ScanEvent::Finished));
    app.finish_system_scan();
    assert!(app.scan.is_none());
    assert!(app.library.scan_location.is_none());
    assert_eq!(app.library.files, vec![entry("/a.dmp", 2), entry("/b.dmp", 1)]);
}

#[test]
fn screen_actions_open_pages_and_request_work() {
    let mut app = CrashLens::with_directory("/dumps".to_string());
    assert_eq!(app.apply_screen_action(ScreenAction::ReanalyseWithSymbols, None), None);
    app.receive_analysis(Ok(shown("/dumps/a.dmp")));
    assert_eq!(app.apply_screen_action(ScreenAction::OpenThreads, None), None);
    assert_eq!(app.page, Page::Threads);
    assert_eq!(app.apply_screen_action(ScreenAction::OpenModule("app".to_string()), None), None);
    assert_eq!(app.page, Page::Modules);
    assert_eq!(app.view.selected_module, 1);
    app.open_page(Page::Summary);
    app.apply_screen_action(ScreenAction::OpenModule("missing.dll".to_string()), None);
    assert_eq!(app.page, Page::Summary);
    assert_eq!(app.view.selected_module, 1);
    assert_eq!(
        app.apply_screen_action(ScreenAction::ReanalyseWithSymbols, None),
        Some(Effect::Analyse("/dumps/a.dmp".to_string()))
    );
    assert_eq!(app.page, Page::Symbols);
    app.comparison.path = " ~/b.dmp ".to_string();
    assert_eq!(
        app.apply_screen_action(ScreenAction::LoadComparison, Some("/home/ada")),
        Some(Effect::AnalyseComparison("/home/ada/b.dmp".to_string()))
    );
    assert_eq!(app.page, Page::Compare);
    assert_eq!(
        app.apply_screen_action(ScreenAction::OpenPath("/dumps/a.dmp".to_string()), None),
        Some(Effect::Reveal("/dumps/a.dmp".to_string()))
    );
    assert_eq!(app.page, Page::Compare);

    app.apply_module_action(ModuleAction::OpenFrame { thread: 1, frame: 3 });
    assert_eq!((app.view.selected_thread, app.view.selected_frame, app.page), (1, 3, Page::Threads));
    app.apply_module_action(ModuleAction::ConfigureSymbols);
    assert_eq!(app.page, Page::Symbols);
    app.apply_memory_action(MemoryAction { thread: 0, frame: 2 });
    assert_eq!((app.view.selected_thread, app.view.selected_frame, app.page), (0, 2, Page::Threads));
    app.show_error("boom".to_string());
    assert_eq!(app.error.as_deref(), Some("boom"));
    app.close_report();
    assert!(app.report.is_none());
}

#[test]
fn modules_are_found_by_name_or_by_their_last_component() {
    let modules = vec![
        module("/usr/lib/libc.so.6", ModuleOwnership::System, SymbolStatus::Loaded),
        module("app", ModuleOwnership::ApplicationOrThirdParty, SymbolStatus::Loaded),
        module("/opt/app", ModuleOwnership::ApplicationOrThirdParty, SymbolStatus::Loaded),
    ];
    assert_eq!(module_named(&modules, "libc.so.6"), Some(0));
    assert_eq!(module_named(&modules, "app"), Some(1));
    assert_eq!(module_named(&modules, "nothing"), None);
}
