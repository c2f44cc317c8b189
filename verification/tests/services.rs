use crashlens::export::{bundle_files, display_tags, render_bundle_readme, render_markdown, render_stack};
use crashlens::investigation::{crash_signature, excerpt, likely_cause, remap_source_path, search};
use crashlens::memory::{
    classify_address, contains, decoded_pointers, decoded_pointers_fit, extract_strings, matches_query, parse_address,
    region_roles, register_findings, AddressTarget,
};
use crashlens::report::{
    CpuArchitecture, DumpReport, FrameRow, MemoryPermissions, MemoryRow, ModuleOwnership, ModuleRow,
    OperatingSystem, PointerSize, SymbolStatus, ThreadRow, VirtualAddress,
};
use crashlens::scanner::{is_dump_path, progress_due, worker_count, ScanWork, WorkStep};

fn report(reason: &str, address: &str) -> DumpReport {
    DumpReport { crash_reason: reason.to_string(), crash_address: address.into(), ..Default::default() }
}

fn export_report() -> DumpReport {
    DumpReport {
        path: "/private/build/secret/crash.dmp".to_string(),
        crash_reason: "SIGSEGV".to_string(),
        crash_address: "0x0".into(),
        operating_system: OperatingSystem::Linux,
        architecture: CpuArchitecture::X86_64,
        threads: vec![ThreadRow {
            id: 1,
            name: "main".to_string(),
            stack_start: "0x1000".into(),
            stack_size: 32,
            crashed: true,
            frames: vec![FrameRow {
                module: "app".to_string(),
                function: "crash".to_string(),
                source_file: "/private/build/secret/src/main.rs".to_string(),
                source_line: Some(42),
                trust: "cfi".to_string(),
                ..Default::default()
            }],
        }],
        ..Default::default()
    }
}

fn region(start: &str, bytes: Vec<u8>) -> MemoryRow {
    MemoryRow {
        start: start.into(),
        size: bytes.len() as u64,
        preview: String::new(),
        bytes,
        permissions: MemoryPermissions::Recorded { readable: true, writable: true, executable: false },
        mapping_type: "Private".to_string(),
    }
}

#[test]
fn identifies_null_pointer_access() {
    assert_eq!(likely_cause(&report("EXCEPTION_ACCESS_VIOLATION", "0x00000010")), "probable null-pointer access");
}

#[test]
fn identifies_stack_overflow() {
    assert_eq!(likely_cause(&report("EXCEPTION_STACK_OVERFLOW", "0x10000")), "probable recursion or stack exhaustion");
}

#[test]
fn signature_uses_top_three_crashed_frames() {
    let mut report = report("SIGSEGV", "0x0");
    report.threads.push(ThreadRow {
        id: 7,
        name: String::new(),
        stack_start: String::new().into(),
        stack_size: 0,
        crashed: true,
        frames: (0..4)
            .map(|index| FrameRow { module: "app".to_string(), function: format!("fn{index}"), ..Default::default() })
            .collect(),
    });
    let signature = crash_signature(&report);
    assert!(signature.contains("app!fn0 \u{2192} app!fn1 \u{2192} app!fn2"));
    assert!(!signature.contains("fn3"));
}

#[test]
fn remaps_only_matching_source_roots() {
    assert_eq!(remap_source_path("C:/build/app/src/main.rs", "C:/build/app", "/local/app"), "/local/app/src/main.rs");
    assert_eq!(remap_source_path("/other/main.rs", "C:/build/app", "/local/app"), "/other/main.rs");
}

#[test]
fn source_excerpt_marks_target_and_respects_radius() {
    let text = excerpt("one\ntwo\nthree\nfour\nfive\n", 3, 1);
    assert!(!text.contains("one"));
    assert!(text.contains("two"));
    assert!(text.contains(">     3  three"));
    assert!(text.contains("four"));
    assert!(!text.contains("five"));
}

#[test]
fn search_matches_frames_case_insensitively() {
    let mut report = report("SIGSEGV", "0x0");
    report.threads.push(ThreadRow {
        id: 1,
        name: "Main Thread".to_string(),
        stack_start: String::new().into(),
        stack_size: 0,
        crashed: true,
        frames: vec![FrameRow {
            module: "Application.dll".to_string(),
            function: "RestoreSession".to_string(),
            ..Default::default()
        }],
    });
    let hits = search(&report, "restore");
    assert_eq!(hits.len(), 1);
    assert_eq!(hits[0].kind, "Stack frame");
    assert!(search(&report, "MAIN THREAD").iter().any(|hit| hit.kind == "Thread"));
    assert!(search(&report, "   ").is_empty());
}

#[test]
fn sanitized_markdown_removes_parent_paths() {
    let text = render_markdown(&export_report(), "notes", "New", "renderer", true);
    assert!(text.contains("`crash.dmp`"));
    assert!(text.contains("main.rs:42"));
    assert!(!text.contains("/private/build/secret"));
}

#[test]
fn plain_stack_marks_crashing_thread() {
    let text = render_stack(&export_report());
    assert!(text.contains("Thread 1 (crashed)"));
    assert!(text.contains("app!crash"));
}

#[test]
fn bundle_contains_readme_and_processor_json() {
    let mut report = export_report();
    report.path = "/tmp/sample.dmp".to_string();
    report.processor_json = "{\"status\":\"OK\"}".to_string();
    let files = bundle_files(&report, "investigated", "Resolved", "renderer");
    let names: Vec<&str> = files.iter().map(|(name, _)| name.as_str()).collect();
    assert_eq!(names, vec!["README.md", "report.md", "stack.txt", "analysis.json"]);
    assert!(files[0].1.contains("Resolved"));
    assert!(files[0].1.contains("renderer"));
    assert_eq!(files[3].1, report.processor_json);
    assert_eq!(files[2].1, render_stack(&report));
}

#[test]
fn markdown_export_writes_rendered_report() {
    let text = render_markdown(&export_report(), "important note", "Investigating", "startup, renderer", false);
    assert!(text.contains("important note"));
    assert!(text.contains("Investigating"));
    assert!(text.contains("startup, renderer"));
    assert!(text.contains("/private/build/secret/crash.dmp"));
}

#[test]
fn blank_tags_read_as_none() {
    assert_eq!(display_tags("  "), "None");
    assert_eq!(display_tags(" a, b "), "a, b");
    let readme = render_bundle_readme(&export_report(), "n", "New", "");
    assert!(readme.contains("- Tags: None"));
    assert!(readme.contains("- Reason: `SIGSEGV`"));
}

#[test]
fn extracts_ascii_and_utf16_strings() {
    let mut bytes = b"hello world\0".to_vec();
    bytes.extend("wide".encode_utf16().flat_map(u16::to_le_bytes));
    let strings = extract_strings(&bytes, 10);
    assert!(strings.iter().any(|value| value.contains("hello world")));
    assert!(strings.iter().any(|value| value.contains("wide")));
}

#[test]
fn decodes_and_classifies_pointer_targets() {
    let pointer = 0x2008_u64.to_le_bytes().to_vec();
    let report = DumpReport {
        architecture: CpuArchitecture::X86_64,
        pointer_size: Some(PointerSize::Bytes8),
        memory: vec![region("0x1000", pointer.clone()), region("0x2000", vec![0; 32])],
        ..Default::default()
    };
    let pointers = decoded_pointers(&report, &report.memory[0], 10);
    assert_eq!(pointers[0].value, 0x2008);
    assert!(matches!(
        pointers[0].target,
        AddressTarget::CapturedRegion { start } if start == VirtualAddress::new(0x2000)
    ));
    assert_eq!(pointers[0].chain, vec![0x2008]);
}

#[test]
fn decodes_32_bit_pointers_using_report_metadata() {
    let report = DumpReport {
        pointer_size: Some(PointerSize::Bytes4),
        memory: vec![region("0x1000", 0x2008_u32.to_le_bytes().to_vec()), region("0x2000", vec![0; 32])],
        ..Default::default()
    };
    let pointers = decoded_pointers(&report, &report.memory[0], 10);
    assert_eq!(pointers.len(), 1);
    assert_eq!(pointers[0].value, 0x2008);
}

#[test]
fn unknown_pointer_width_disables_decoding() {
    let report = DumpReport { memory: vec![region("0x1000", 0x2008_u64.to_le_bytes().to_vec())], ..Default::default() };
    assert!(decoded_pointers(&report, &report.memory[0], 10).is_empty());
}

#[test]
fn zero_filled_memory_is_not_reported_as_pointers() {
    let report = DumpReport {
        architecture: CpuArchitecture::Arm64,
        pointer_size: Some(PointerSize::Bytes8),
        memory: vec![region("0x1000", vec![0; 64])],
        ..Default::default()
    };
    assert!(decoded_pointers(&report, &report.memory[0], 10).is_empty());
}

#[test]
fn identifies_stack_and_module_roles() {
    let memory = region("0x1000", vec![0; 64]);
    let report = DumpReport {
        threads: vec![ThreadRow {
            id: 7,
            name: String::new(),
            stack_start: "0x1000".into(),
            stack_size: 32,
            crashed: true,
            frames: vec![FrameRow::default()],
        }],
        modules: vec![ModuleRow {
            name: "app".to_string(),
            base: "0x1020".into(),
            size: 32,
            code_id: String::new(),
            symbol_status: SymbolStatus::NotReferenced,
            ownership: ModuleOwnership::ApplicationOrThirdParty,
            contains_fault: false,
        }],
        ..Default::default()
    };
    let roles = region_roles(&report, &memory);
    assert!(roles.iter().any(|role| role.contains("thread 7")));
    assert!(roles.iter().any(|role| role.contains("module app")));
}

#[test]
fn searches_addresses_and_text_bytes() {
    let memory = region("0x1000", b"secret token".to_vec());
    assert!(matches_query(&memory, "0x1005"));
    assert!(matches_query(&memory, "TOKEN"));
    assert!(!matches_query(&memory, "missing"));
}

#[test]
fn region_bounds_are_half_open() {
    let memory = region("0x1000", vec![0; 0x100]);
    assert!(contains(&memory, Some(0x1000)));
    assert!(contains(&memory, Some(0x10ff)));
    assert!(!contains(&memory, Some(0x1100)));
    assert!(!contains(&memory, None));
    assert_eq!(parse_address("0x2a"), Some(42));
    assert_eq!(parse_address(&VirtualAddress::unknown()), None);
}

#[test]
fn addresses_resolve_to_the_strongest_owner() {
    let report = DumpReport {
        threads: vec![ThreadRow {
            id: 4,
            name: String::new(),
            stack_start: "0x5000".into(),
            stack_size: 0x100,
            crashed: false,
            frames: Vec::new(),
        }],
        memory: vec![region("0x9000", vec![0; 16])],
        ..Default::default()
    };
    assert_eq!(classify_address(&report, 0), Some(AddressTarget::Null));
    assert_eq!(classify_address(&report, 0x10), None);
    assert_eq!(classify_address(&report, 0x5010), Some(AddressTarget::ThreadStack { thread_id: 4 }));
    assert_eq!(classify_address(&report, 0x9004), Some(AddressTarget::CapturedRegion { start: VirtualAddress::new(0x9000) }));
    assert_eq!(classify_address(&report, 0x7777_0000), None);
    assert!(register_findings(&report).is_empty());
}

#[test]
fn recognizes_dump_extensions_case_insensitively() {
    assert!(is_dump_path("crash.dmp"));
    assert!(is_dump_path("crash.MDMP"));
    assert!(!is_dump_path("crash.txt"));
    assert!(!is_dump_path("dmp"));
    assert!(!is_dump_path(".dmp"));
    assert!(is_dump_path("/a/b/c.Dmp/"));
}

#[test]
fn empty_root_set_finishes_without_deadlock() {
    let mut work = ScanWork::new(Vec::new());
    assert!(work.finished);
    assert_eq!(work.next_step(false), WorkStep::Stop);
}

#[test]
fn scan_work_reads_directories_in_order_and_ends_when_idle() {
    let mut work = ScanWork::new(vec!["/".to_string()]);
    assert_eq!(work.next_step(false), WorkStep::Read("/".to_string()));
    assert_eq!(work.next_step(false), WorkStep::Wait);
    work.complete(vec!["/a".to_string(), "/b".to_string()]);
    assert!(!work.finished);
    assert_eq!(work.next_step(false), WorkStep::Read("/a".to_string()));
    assert_eq!(work.next_step(true), WorkStep::Stop);
    work.complete(Vec::new());
    assert_eq!(work.next_step(false), WorkStep::Read("/b".to_string()));
    work.complete(Vec::new());
    assert!(work.finished);
    assert_eq!(work.next_step(false), WorkStep::Stop);
    assert!(progress_due(256));
    assert!(!progress_due(255));
    assert_eq!(worker_count(Some(1)), 2);
    assert_eq!(worker_count(Some(32)), 8);
    assert_eq!(worker_count(None), 4);
}

#[test]
fn sanitized_reports_ignore_directories() {
    let first = export_report();
    let mut second = export_report();
    second.path = "/home/ada/downloads/crash.dmp".to_string();
    second.threads[0].frames[0].source_file = "/work/tree/main.rs".to_string();
    let a = render_markdown(&first, "notes", "New", "renderer", true);
    let b = render_markdown(&second, "notes", "New", "renderer", true);
    assert_eq!(a, b);
    assert!(!b.contains("/home/ada"));
    assert_ne!(
        render_markdown(&first, "notes", "New", "renderer", false),
        render_markdown(&second, "notes", "New", "renderer", false)
    );
}

#[test]
fn pointer_chains_stop_at_cycles_and_at_three_links() {
    let word = |value: u64| value.to_le_bytes().to_vec();
    let cyclic = DumpReport {
        pointer_size: Some(PointerSize::Bytes8),
        memory: vec![region("0x1000", word(0x2000)), region("0x2000", word(0x3000)), region("0x3000", word(0x2000))],
        ..Default::default()
    };
    let pointers = decoded_pointers(&cyclic, &cyclic.memory[0], 10);
    assert_eq!(pointers[0].chain, vec![0x2000, 0x3000]);

    let long = DumpReport {
        pointer_size: Some(PointerSize::Bytes8),
        memory: vec![
            region("0x1000", word(0x2000)),
            region("0x2000", word(0x3000)),
            region("0x3000", word(0x4000)),
            region("0x4000", word(0x1000)),
        ],
        ..Default::default()
    };
    let pointers = decoded_pointers(&long, &long.memory[0], 10);
    assert_eq!(pointers[0].chain, vec![0x2000, 0x3000, 0x4000]);
}

#[test]
fn regions_at_the_top_of_the_address_space_decode_while_their_pointers_fit() {
    let word = |value: u64| value.to_le_bytes().to_vec();
    let top = "0xfffffffffffffff8";
    let mut bytes = word(0x1000);
    bytes.extend(word(0x1000));
    let report = DumpReport {
        pointer_size: Some(PointerSize::Bytes8),
        memory: vec![region(top, bytes), region("0x1000", word(0))],
        ..Default::default()
    };
    assert!(decoded_pointers_fit(&report, &report.memory[0], 1));
    let pointers = decoded_pointers(&report, &report.memory[0], 1);
    assert_eq!(pointers.len(), 1);
    assert_eq!(pointers[0].address, 0xffff_ffff_ffff_fff8);
    assert!(!decoded_pointers_fit(&report, &report.memory[0], 2));

    let mut tail = word(0x1000);
    tail.extend(word(0));
    let quiet = DumpReport {
        pointer_size: Some(PointerSize::Bytes8),
        memory: vec![region(top, tail), region("0x1000", word(0))],
        ..Default::default()
    };
    assert!(decoded_pointers_fit(&quiet, &quiet.memory[0], 24));
    assert_eq!(decoded_pointers(&quiet, &quiet.memory[0], 24).len(), 1);
    assert!(decoded_pointers_fit(&report, &report.memory[1], 24));
}
