use std::collections::BTreeMap;
use crashlens::memory::{AddressTarget, DecodedPointer};
use crashlens::memory_view::{
    pointer_destinations, region_references, region_relevance, stack_thread_for_region, BrowserDetail,
    MemoryAnalysisCache, MemoryMode,
};
use crashlens::report::{
    CpuArchitecture, DumpReport, FrameRow, MemoryPermissions, MemoryRow, ModuleOwnership, ModuleRow,
    PointerSize, SymbolStatus, ThreadRow, VirtualAddress,
};
use crashlens::screens::{
    compact_path, field_meaning, has_crash_evidence, is_system_module, recommendation,
    related_frames, stream_purpose, value_or_unknown,
};
use crashlens::session::{AnalysisViewState, ComparisonState, InvestigationStatus};
use crashlens::view_model::{
    investigation_insights, ComparisonAnalysis, CrashEvidence, ModulePresence,
};

fn module(name: &str) -> ModuleRow {
    ModuleRow {
        name: name.to_string(),
        base: String::new().into(),
        size: 0,
        code_id: String::new(),
        symbol_status: SymbolStatus::NotReferenced,
        ownership: ModuleOwnership::ApplicationOrThirdParty,
        contains_fault: false,
    }
}

fn region(start: &str, size: usize) -> MemoryRow {
    MemoryRow {
        start: start.into(),
        size: size as u64,
        preview: String::new(),
        bytes: vec![0; size],
        permissions: MemoryPermissions::Recorded { readable: true, writable: true, executable: false },
        mapping_type: "Private".to_string(),
    }
}

fn thread(id: u32, crashed: bool, stack_start: &str, frames: Vec<FrameRow>) -> ThreadRow {
    ThreadRow { id, name: String::new(), stack_start: stack_start.into(), stack_size: 0x40, crashed, frames }
}

#[test]
fn builds_complete_evidence_chain_from_related_records() {
    let report = DumpReport {
        crash_reason: "EXCEPTION_ACCESS_VIOLATION".to_string(),
        crash_address: "0x1010".into(),
        threads: vec![ThreadRow {
            id: 7,
            name: "render".to_string(),
            stack_start: String::new().into(),
            stack_size: 0,
            crashed: true,
            frames: vec![FrameRow {
                function: "draw".to_string(),
                module: "app.dll".to_string(),
                source_file: "src/render.rs".to_string(),
                source_line: Some(88),
                trust: "context".to_string(),
                ..Default::default()
            }],
        }],
        modules: vec![ModuleRow { symbol_status: SymbolStatus::Loaded, ..module("app.dll") }],
        ..Default::default()
    };
    let evidence = CrashEvidence::from_report(&report);
    assert_eq!(evidence.steps.len(), 5);
    assert_eq!(evidence.steps[1].value, "render (thread 7)");
    assert!(evidence.steps[2].value.contains("draw"));
    assert!(evidence.steps[3].value.contains("app.dll \u{b7} Application"));
    assert_eq!(evidence.steps[4].value, "src/render.rs:88");
    assert!(!evidence.needs_symbols);
}

#[test]
fn describes_missing_evidence_without_panicking() {
    let evidence = CrashEvidence::from_report(&DumpReport::default());
    assert_eq!(evidence.steps[1].value, "Not identified");
    assert_eq!(evidence.steps[2].value, "No frame recovered");
    assert_eq!(evidence.steps[3].value, "No matching loaded module");
}

#[test]
fn insights_expose_fault_module_and_missing_symbols() {
    let mut report = DumpReport::default();
    report.modules.push(ModuleRow { symbol_status: SymbolStatus::Missing, contains_fault: true, ..module("app.dll") });
    report.threads.push(ThreadRow {
        id: 1,
        name: String::new(),
        stack_start: String::new().into(),
        stack_size: 0,
        crashed: true,
        frames: vec![FrameRow { missing_symbols: true, ..Default::default() }],
    });
    let insights = investigation_insights(&report);
    assert!(insights.iter().any(|item| item.title.contains("app.dll")));
    assert!(insights.iter().any(|item| item.priority == "BLOCKER"));
}

#[test]
fn comparison_separates_changed_fields_and_module_sets() {
    let mut left = DumpReport { crash_reason: "A".to_string(), architecture: CpuArchitecture::X86_64, ..Default::default() };
    left.modules.push(module("left.dll"));
    let mut right = DumpReport { crash_reason: "B".to_string(), architecture: CpuArchitecture::X86_64, ..Default::default() };
    right.modules.push(module("right.dll"));
    let comparison = ComparisonAnalysis::new(&left, &right);
    assert!(comparison.changed.iter().any(|field| field.field == "Crash reason"));
    assert!(comparison.unchanged.iter().any(|field| field.field == "Architecture"));
    assert_eq!(comparison.only_current_modules[0].name, "left.dll");
    assert_eq!(comparison.only_current_modules[0].path, "left.dll");
    assert_eq!(comparison.only_comparison_modules[0].name, "right.dll");
    assert_eq!(comparison.only_comparison_modules[0].path, "right.dll");
}

#[test]
fn comparison_treats_same_module_at_a_new_path_as_changed() {
    let left = DumpReport { modules: vec![module("/Framework/147/App")], ..Default::default() };
    let right = DumpReport { modules: vec![module("/Framework/145/App")], ..Default::default() };
    let comparison = ComparisonAnalysis::new(&left, &right);
    assert_eq!(comparison.changed_modules.len(), 1);
    assert_eq!(comparison.changed_modules[0].name, "App");
    assert!(comparison.only_current_modules.is_empty());
    assert!(comparison.only_comparison_modules.is_empty());
}

#[test]
fn comparing_a_report_with_itself_changes_nothing() {
    let report = DumpReport {
        crash_reason: "SIGABRT".to_string(),
        modules: vec![module("/a/x.so"), module("/b/y.so"), module("/c/x.so")],
        threads: vec![thread(2, true, "0x10", vec![FrameRow { module: "x.so".to_string(), ..Default::default() }])],
        ..Default::default()
    };
    let comparison = ComparisonAnalysis::new(&report, &report);
    assert!(comparison.changed.is_empty());
    assert_eq!(comparison.unchanged.len(), 6);
    assert!(comparison.same_signature);
    assert!(comparison.changed_modules.is_empty());
    assert!(comparison.only_current_modules.is_empty());
    assert_eq!(comparison.current_stack, vec!["0  x.so!\u{2014}".to_string()]);
    assert_eq!(comparison.current_stack, comparison.comparison_stack);
}

#[test]
fn module_sets_are_listed_by_name_with_the_last_path_kept() {
    let left = DumpReport {
        modules: vec![module("/z/beta"), module("/a/alpha"), module("/q/beta"), module("/m/Gamma")],
        ..Default::default()
    };
    let right = DumpReport::default();
    let comparison = ComparisonAnalysis::new(&left, &right);
    let names: Vec<&str> = comparison.only_current_modules.iter().map(|m| m.name.as_str()).collect();
    assert_eq!(names, vec!["Gamma", "alpha", "beta"]);
    assert_eq!(comparison.only_current_modules[2].path, "/q/beta");
    assert_eq!(comparison.changed.iter().map(|f| f.field).collect::<Vec<_>>(), vec!["Module count"]);
    assert!(comparison.changed.iter().all(|f| f.current == "4" && f.comparison == "0"));
}

#[test]
fn top_stack_lists_at_most_six_frames() {
    let frames: Vec<FrameRow> = (0..9)
        .map(|i| FrameRow { index: i, module: "m".to_string(), function: format!("f{i}"), ..Default::default() })
        .collect();
    let report = DumpReport { threads: vec![thread(1, false, "0x0", Vec::new()), thread(2, true, "0x0", frames)], ..Default::default() };
    let comparison = ComparisonAnalysis::new(&report, &DumpReport::default());
    assert_eq!(comparison.current_stack.len(), 6);
    assert_eq!(comparison.current_stack[5], "5  m!f5");
    assert!(comparison.comparison_stack.is_empty());
    assert!(!comparison.same_signature);
}

#[test]
fn finds_instruction_and_register_references_inside_region() {
    let region = region("0x1000", 0x100);
    let report = DumpReport {
        threads: vec![ThreadRow {
            id: 9,
            name: String::new(),
            stack_start: String::new().into(),
            stack_size: 0,
            crashed: true,
            frames: vec![FrameRow {
                instruction: "0x1010".into(),
                registers: vec![("rsp".to_string(), "0x1020".to_string())],
                ..Default::default()
            }],
        }],
        ..Default::default()
    };
    assert_eq!(region_references(&report, &region).len(), 2);
    assert!(crashlens::memory::contains(&region, Some(0x10ff)));
    assert!(!crashlens::memory::contains(&region, Some(0x1100)));
}

#[test]
fn region_references_describe_each_value() {
    let region = region("0x1000", 0x100);
    let report = DumpReport {
        threads: vec![ThreadRow {
            id: 9,
            frames: vec![FrameRow {
                index: 3,
                instruction: "0x1010".into(),
                registers: vec![("rsp".to_string(), "0x1020".to_string()), ("rax".to_string(), "0x5".to_string())],
                ..Default::default()
            }],
            ..thread(9, false, "", Vec::new())
        }],
        ..Default::default()
    };
    let refs = region_references(&report, &region);
    assert_eq!(refs[0].description, "Thread 9 frame 3 instruction 0x0000000000001010");
    assert_eq!(refs[1].description, "Thread 9 frame 3 register rsp = 0x1020");
    assert_eq!((refs[1].thread, refs[1].frame), (0, 0));
}

#[test]
fn relevance_puts_the_fault_first_and_unknown_last() {
    let report = DumpReport { crash_address: "0x1008".into(), ..Default::default() };
    let fault = region("0x1000", 16);
    assert_eq!(region_relevance(&report, &fault, 0, &[]).0, "HIGH");
    let other = region("0x9000", 16);
    assert_eq!(region_relevance(&report, &other, 0, &["Stack for thread 3 (crashed)".to_string()]).1, "Stack memory for the crashed thread");
    let (priority, _, detail) = region_relevance(&report, &other, 2, &[]);
    assert_eq!(priority, "RELEVANT");
    assert!(detail.starts_with("2 recovered"));
    assert_eq!(region_relevance(&report, &other, 0, &["Mapped to module a".to_string()]).0, "CONTEXT");
    assert_eq!(region_relevance(&report, &other, 0, &["Stack for thread 4".to_string()]).0, "LOW");
    assert_eq!(region_relevance(&report, &other, 0, &[]).0, "UNKNOWN");
}

#[test]
fn stack_regions_name_their_thread() {
    let report = DumpReport { threads: vec![thread(5, false, "0x4000", Vec::new()), thread(6, true, "0x1010", Vec::new())], ..Default::default() };
    assert_eq!(stack_thread_for_region(&report, &region("0x1000", 0x40)), Some((1, 6, true)));
    assert_eq!(stack_thread_for_region(&report, &region("0x8000", 0x40)), None);
}

#[test]
fn filtered_regions_put_the_fault_first_and_keep_dump_order() {
    let report = DumpReport {
        crash_address: "0x3008".into(),
        threads: vec![thread(1, true, "0x1000", Vec::new())],
        memory: vec![region("0x1000", 16), region("0x2000", 16), region("0x3000", 16), region("0x1008", 8)],
        ..Default::default()
    };
    let mut cache = MemoryAnalysisCache::default();
    assert!(cache.refresh_filter(&report, "", false));
    assert_eq!(cache.matches, vec![2, 0, 3]);
    assert!(!cache.refresh_filter(&report, "", false));
    assert!(cache.refresh_filter(&report, "", true));
    assert_eq!(cache.matches, vec![2, 0, 3, 1]);
    assert!(cache.refresh_filter(&report, "0x2004", false));
    assert_eq!(cache.matches, vec![1]);
    cache.mode = MemoryMode::Browser;
    cache.clear();
    assert!(cache.matches.is_empty());
    assert!(cache.mode == MemoryMode::Overview);
    assert!(cache.browser_detail == BrowserDetail::Connection);
}

#[test]
fn the_map_summary_groups_regions_once() {
    let report = DumpReport {
        crash_address: "0x3008".into(),
        threads: vec![thread(1, false, "0x1000", Vec::new())],
        modules: vec![ModuleRow { base: "0x2000".into(), size: 16, ..module("lib") }],
        memory: vec![region("0x1000", 16), region("0x2000", 16), region("0x3000", 16), region("0x9000", 4)],
        ..Default::default()
    };
    let mut cache = MemoryAnalysisCache::default();
    cache.refresh_map(&report);
    let summary = cache.map_summary.as_ref().unwrap();
    assert_eq!(summary.crash_region, Some(2));
    assert_eq!(summary.groups.iter().map(|g| g.regions).collect::<Vec<_>>(), vec![1, 1, 1, 1]);
    assert_eq!(summary.groups[3].bytes, 4);
    cache.refresh_map(&DumpReport::default());
    assert_eq!(cache.map_summary.as_ref().unwrap().crash_region, Some(2));
}

#[test]
fn selecting_a_region_decodes_it_once() {
    let mut bytes = 0x2000u64.to_le_bytes().to_vec();
    bytes.extend_from_slice(b"readable text");
    let report = DumpReport {
        pointer_size: Some(PointerSize::Bytes8),
        memory: vec![MemoryRow { bytes: bytes.clone(), size: bytes.len() as u64, ..region("0x1000", 0) }, region("0x2000", 8)],
        ..Default::default()
    };
    let mut cache = MemoryAnalysisCache::default();
    cache.refresh_region(&report, &report.memory[0]);
    assert_eq!(cache.selected_start, VirtualAddress::new(0x1000));
    assert_eq!(cache.pointers.len(), 1);
    assert!(cache.strings.iter().any(|s| s.contains("readable text")));
    cache.strings.clear();
    cache.refresh_region(&report, &report.memory[0]);
    assert!(cache.strings.is_empty());
}

#[test]
fn finds_frames_that_reference_a_module() {
    let module = ModuleRow { symbol_status: SymbolStatus::Loaded, ..module("app.dll") };
    let report = DumpReport {
        threads: vec![ThreadRow {
            id: 1,
            name: String::new(),
            stack_start: String::new().into(),
            stack_size: 0,
            crashed: true,
            frames: vec![FrameRow { module: "app.dll".to_string(), ..Default::default() }],
        }],
        modules: vec![module.clone()],
        ..Default::default()
    };
    assert_eq!(related_frames(&report, &module), vec![(0, 0)]);
}

#[test]
fn explains_common_internal_streams() {
    assert!(stream_purpose("ExceptionStream").contains("fault address"));
    assert!(stream_purpose("ModuleListStream").contains("libraries"));
    assert!(stream_purpose("Memory64ListStream").contains("memory"));
    assert_eq!(stream_purpose("7"), "Additional producer-specific dump data");
}

#[test]
fn empty_values_have_a_consistent_fallback() {
    assert_eq!(value_or_unknown(""), "Not available");
    assert_eq!(value_or_unknown("present"), "present");
}

#[test]
fn reset_selects_crashed_thread_and_clears_transient_state() {
    let report = DumpReport { threads: vec![thread(0, false, "", Vec::new()), thread(0, true, "", Vec::new())], ..Default::default() };
    let mut state = AnalysisViewState {
        filter: "stale".to_string(),
        selected_frame: 7,
        global_query: "old".to_string(),
        ..Default::default()
    };
    state.reset_for(&report);
    assert_eq!(state.selected_thread, 1);
    assert_eq!(state.selected_frame, 0);
    assert_eq!(state.selected_memory, None);
    assert!(state.filter.is_empty());
    assert!(state.global_query.is_empty());
}

#[test]
fn recommendations_rank_the_faulting_module_first() {
    let faulting = ModuleRow { contains_fault: true, symbol_status: SymbolStatus::Missing, ..module("a") };
    assert!(recommendation(&faulting, 0).starts_with("Highest priority"));
    let loaded = ModuleRow { contains_fault: true, symbol_status: SymbolStatus::Loaded, ..module("a") };
    assert!(recommendation(&loaded, 0).starts_with("High priority"));
    assert!(recommendation(&module("a"), 2).starts_with("Application code"));
    let system = ModuleRow { ownership: ModuleOwnership::System, ..module("a") };
    assert!(recommendation(&system, 2).starts_with("Low direct relevance"));
}

#[test]
fn comparison_screen_helpers() {
    assert_eq!(compact_path("/Users/me/Library/app/bin/tool"), "app/bin/tool");
    assert_eq!(compact_path("/a"), "//a");
    assert_eq!(compact_path("./x/./y//z"), "x/y/z");
    assert_eq!(compact_path("./x"), "./x");
    assert_eq!(compact_path(""), "");
    assert_eq!(field_meaning("Crash reason"), "Exception type differs");
    assert_eq!(field_meaning("Other"), "Value changed");
    let system = ModulePresence { name: "a".to_string(), path: "/a".to_string(), ownership: ModuleOwnership::System };
    assert!(is_system_module(&system));
    let report = DumpReport {
        crash_thread: Some(1),
        crash_reason: "SIGSEGV".to_string(),
        threads: vec![thread(1, true, "", vec![FrameRow::default()])],
        ..Default::default()
    };
    assert!(has_crash_evidence(&report));
    let manual = DumpReport { crash_reason: "no EXCEPTION stream".to_string(), ..report.clone() };
    assert!(!has_crash_evidence(&manual));
    assert!(!has_crash_evidence(&DumpReport::default()));
}

#[test]
fn statuses_and_comparison_state() {
    let names: Vec<&str> = InvestigationStatus::all().iter().map(|s| s.display()).collect();
    assert_eq!(names, vec!["New", "Investigating", "Resolved", "Ignored"]);
    let mut state = ComparisonState { path: "b.dmp".to_string(), report: Some(std::sync::Arc::new(DumpReport::default())), ..Default::default() };
    state.clear_result();
    assert!(state.report.is_none());
    assert_eq!(state.path, "b.dmp");
}

#[test]
fn pointer_destinations_are_grouped_in_target_order() {
    let to = |target: AddressTarget| DecodedPointer { address: 0, value: 1, target, chain: vec![1] };
    let module = |name: &str, offset: u64| AddressTarget::Module { name: name.to_string(), offset };
    let pointers = vec![
        to(module("b", 0)),
        to(AddressTarget::Null),
        to(AddressTarget::ThreadStack { thread_id: 5 }),
        to(module("a", 8)),
        to(AddressTarget::ThreadStack { thread_id: 5 }),
        to(AddressTarget::CapturedRegion { start: VirtualAddress::new(0x10) }),
        to(AddressTarget::CapturedRegion { start: VirtualAddress::unknown() }),
        to(module("a", 4)),
    ];
    let grouped = pointer_destinations(&pointers);
    let mut expected = BTreeMap::<AddressTarget, usize>::new();
    for pointer in &pointers {
        *expected.entry(pointer.target.clone()).or_default() += 1;
    }
    assert_eq!(grouped, expected.into_iter().collect::<Vec<_>>());
    assert_eq!(grouped[1], (AddressTarget::ThreadStack { thread_id: 5 }, 2));
    assert_eq!(grouped.len(), 7);
    assert!(pointer_destinations(&Vec::new()).is_empty());
}
