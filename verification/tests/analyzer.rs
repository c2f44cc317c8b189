use crashlens::analyzer::{
    add_call_stacks, analyse_dump, classify_module, frame_from_record, hex_preview, human_bytes,
    module_symbol_status, report_from_facts, system_facts, AnalysisError, CrashFacts, DumpFacts, FrameRecord,
    ModuleFacts, RegionFacts, RegionInfo, StreamFacts, SystemFacts, ThreadFacts, ThreadRecord,
    UnwindOutcome,
};
use crashlens::report::{
    CpuArchitecture, DumpReport, FrameRow, MemoryPermissions, ModuleOwnership, ModuleRow,
    OperatingSystem, PointerSize, SymbolStatus, ThreadRow, VirtualAddress,
};

fn minidump(streams: &[(u32, Vec<u8>)]) -> Vec<u8> {
    let mut bytes = Vec::new();
    bytes.extend_from_slice(&0x504d_444du32.to_le_bytes());
    bytes.extend_from_slice(&42899u32.to_le_bytes());
    bytes.extend_from_slice(&(streams.len() as u32).to_le_bytes());
    bytes.extend_from_slice(&32u32.to_le_bytes());
    bytes.extend_from_slice(&0u32.to_le_bytes());
    bytes.extend_from_slice(&0u32.to_le_bytes());
    bytes.extend_from_slice(&0u64.to_le_bytes());
    let mut rva = 32 + 12 * streams.len() as u32;
    for (kind, data) in streams {
        bytes.extend_from_slice(&kind.to_le_bytes());
        bytes.extend_from_slice(&(data.len() as u32).to_le_bytes());
        bytes.extend_from_slice(&rva.to_le_bytes());
        rva += data.len() as u32;
    }
    for (_, data) in streams {
        bytes.extend_from_slice(data);
    }
    bytes
}

fn system_info(architecture: u16, platform: u32) -> Vec<u8> {
    let mut data = Vec::new();
    data.extend_from_slice(&architecture.to_le_bytes());
    data.extend_from_slice(&[0u8; 4]);
    data.extend_from_slice(&[1u8, 1u8]);
    data.extend_from_slice(&[0u8; 12]);
    data.extend_from_slice(&platform.to_le_bytes());
    data.extend_from_slice(&[0u8; 8]);
    data.extend_from_slice(&[0u8; 24]);
    data
}

#[test]
fn formats_file_sizes() {
    assert_eq!(human_bytes(0), "0 B");
    assert_eq!(human_bytes(1023), "1023 B");
    assert_eq!(human_bytes(1024), "1.0 KB");
    assert_eq!(human_bytes(1_572_864), "1.5 MB");
    assert_eq!(human_bytes(1_073_741_824), "1.0 GB");
}

#[test]
fn classifies_system_and_application_modules() {
    assert_eq!(classify_module("/System/Library/AppKit"), ModuleOwnership::System);
    assert_eq!(classify_module("C:\\Windows\\System32\\kernel32.dll"), ModuleOwnership::System);
    assert_eq!(classify_module("/Applications/MyApp/app.dll"), ModuleOwnership::ApplicationOrThirdParty);
}

#[test]
fn hex_preview_contains_addresses_hex_and_ascii() {
    let preview = hex_preview(b"Hello\0world", 0x1000);
    assert!(preview.starts_with("0000000000001000"));
    assert!(preview.contains("48 65 6c 6c 6f"));
    assert!(preview.contains("Hello.world"));
}

#[test]
fn parses_processor_frames_with_optional_fields() {
    let record = FrameRecord {
        frame: Some(2),
        offset: Some("0x1234".to_string()),
        module: Some("app".to_string()),
        function: Some("crash".to_string()),
        function_offset: None,
        file: Some("src/main.rs".to_string()),
        line: Some(42),
        trust: Some("cfi".to_string()),
        missing_symbols: None,
        registers: Some(vec![("rip".to_string(), Some("0x1234".to_string()))]),
    };
    let frame = frame_from_record(&record);
    assert_eq!(frame.index, 2);
    assert_eq!(frame.function, "crash");
    assert_eq!(frame.source_line, Some(42));
    assert_eq!(frame.registers, vec![("rip".to_string(), "0x1234".to_string())]);
}

#[test]
fn rejects_non_minidump_files() {
    let result = analyse_dump("/tmp/invalid.dmp", 14, b"not a minidump");
    assert!(matches!(result, Err(AnalysisError::NotMinidump)));
}

#[test]
fn human_bytes_matches_floating_point_formatting() {
    const UNITS: [&str; 5] = ["B", "KB", "MB", "GB", "TB"];
    let expected = |value: u64| {
        let mut number = value as f64;
        let mut unit = 0;
        while number >= 1024.0 && unit < UNITS.len() - 1 {
            number /= 1024.0;
            unit += 1;
        }
        if unit == 0 {
            format!("{} {}", value, UNITS[unit])
        } else {
            format!("{number:.1} {}", UNITS[unit])
        }
    };
    let mut samples = vec![
        1024u64, 1075, 1126, 1177, 1536, 1587, 10_240, 1_048_575, 1_048_576, 5_242_880,
        1_099_511_627_775, 1_099_511_627_776, 9_007_199_254_740_993, 9_007_199_254_740_995,
        u64::MAX, u64::MAX - 1, 1 << 63, (1 << 53) + 1,
    ];
    let mut x: u64 = 0x9e37_79b9_7f4a_7c15;
    for _ in 0..3000 {
        x ^= x << 13;
        x ^= x >> 7;
        x ^= x << 17;
        samples.push(x >> (x % 64));
    }
    for k in 0..20u64 {
        samples.push(1024 + 51 * k + k / 2);
        samples.push((1024 << 10) * (k + 1) + 52_428 * k);
    }
    for value in samples {
        assert_eq!(human_bytes(value), expected(value), "value {value}");
    }
}

#[test]
fn module_ownership_ignores_ascii_case() {
    assert_eq!(classify_module("/USR/LIB/libc.so"), ModuleOwnership::System);
    assert_eq!(classify_module("c:\\windows\\system32\\ntdll.dll"), ModuleOwnership::System);
    assert_eq!(classify_module("/usr/local/lib/libz.so"), ModuleOwnership::ApplicationOrThirdParty);
}

#[test]
fn hex_preview_is_bounded_and_pads_short_lines() {
    let preview = hex_preview(&[0x41u8; 200], 0x10);
    assert_eq!(preview.lines().count(), 8);
    assert!(preview.lines().nth(7).unwrap().starts_with("0000000000000080"));
    let short = hex_preview(&[0x7fu8, 0x20], 0);
    assert_eq!(short, format!("0000000000000000  7f 20 {} ..", "   ".repeat(14)));
    assert_eq!(hex_preview(&[], 5), "");
    let wrapped = hex_preview(&[0u8; 32], u64::MAX - 7);
    assert!(wrapped.lines().nth(1).unwrap().starts_with("0000000000000008"));
}

#[test]
fn an_empty_minidump_reports_each_missing_stream() {
    let bytes = minidump(&[]);
    let report = analyse_dump("/dumps/empty.dmp", bytes.len() as u64, &bytes).unwrap();
    assert_eq!(report.path, "/dumps/empty.dmp");
    assert_eq!(report.file_size, 32);
    assert_eq!(report.format, "Little endian minidump");
    assert_eq!(report.architecture, CpuArchitecture::Unknown);
    assert_eq!(report.crash_reason, "No exception stream");
    assert_eq!(report.crash_address, VirtualAddress::unknown());
    assert_eq!(
        report.diagnostics,
        vec![
            "System information stream is missing".to_string(),
            "No exception stream; this may be a manually captured dump".to_string(),
            "Thread list stream is missing".to_string(),
            "Module list stream is missing".to_string(),
        ]
    );
    assert!(report.streams.is_empty());
}

#[test]
fn system_information_gives_architecture_and_platform() {
    let bytes = minidump(&[(7, system_info(9, 0x8201))]);
    let report = analyse_dump("linux.dmp", 0, &bytes).unwrap();
    assert_eq!(report.architecture, CpuArchitecture::X86_64);
    assert_eq!(report.pointer_size, Some(PointerSize::Bytes8));
    assert_eq!(report.operating_system, OperatingSystem::Linux);
    assert_eq!(report.streams.len(), 1);
    assert_eq!(report.streams[0].kind, "7");
    assert_eq!(report.streams[0].size, 56);
    assert_eq!(report.streams[0].rva, 44);
    assert_eq!(report.diagnostics.len(), 3);
    let unknown = analyse_dump("odd.dmp", 0, &minidump(&[(7, system_info(0x7777, 3))])).unwrap();
    assert_eq!(unknown.architecture, CpuArchitecture::Unknown);
    assert_eq!(unknown.pointer_size, None);
    assert_eq!(unknown.operating_system, OperatingSystem::Windows);
    assert_eq!(unknown.diagnostics[0], "Pointer decoding is unavailable for architecture Unknown");
}

fn facts() -> DumpFacts {
    DumpFacts {
        endian: "Big".to_string(),
        system: Some(SystemFacts {
            architecture: CpuArchitecture::Arm64,
            pointer_size: Some(PointerSize::Bytes8),
            operating_system: OperatingSystem::Android,
        }),
        crash: Some(CrashFacts { thread_id: 7, detail: Some(("SIGSEGV".to_string(), 0x1010)) }),
        threads: Some(vec![
            ThreadFacts { id: 3, stack_start: 0x8000, stack_size: 64 },
            ThreadFacts { id: 7, stack_start: 0x9000, stack_size: 32 },
        ]),
        modules: Some(vec![
            ModuleFacts { code_file: "/system/lib/libc.so".to_string(), base: 0x1000, size: 0x100, code_id: None },
            ModuleFacts { code_file: "/data/app.so".to_string(), base: 0x2000, size: 0x10, code_id: Some("abc".to_string()) },
        ]),
        memory: Some(vec![
            RegionFacts {
                base: 0x9000,
                size: 4,
                bytes: vec![0x61, 0, 0x62, 0xff],
                info: Some(RegionInfo {
                    readable: true,
                    writable: true,
                    executable: false,
                    kind: "MEM_PRIVATE".to_string(),
                    state: "MEM_COMMIT".to_string(),
                }),
            },
            RegionFacts { base: 0xa000, size: 0, bytes: Vec::new(), info: None },
        ]),
        streams: vec![StreamFacts { stream_type: 3, size: 12, rva: 100 }],
    }
}

#[test]
fn report_rows_are_built_from_the_dump_facts() {
    let report = report_from_facts("/dumps/a.dmp", 99, &facts());
    assert_eq!(report.format, "Big endian minidump");
    assert_eq!(report.crash_reason, "SIGSEGV");
    assert_eq!(report.crash_address.value(), Some(0x1010));
    assert_eq!(report.crash_thread, Some(7));
    assert!(report.diagnostics.is_empty());
    assert!(!report.threads[0].crashed);
    assert!(report.threads[1].crashed);
    assert_eq!(report.threads[1].stack_start.value(), Some(0x9000));
    assert_eq!(report.modules[0].ownership, ModuleOwnership::System);
    assert!(report.modules[0].contains_fault);
    assert_eq!(report.modules[0].code_id, "\u{2014}");
    assert!(!report.modules[1].contains_fault);
    assert_eq!(report.modules[1].code_id, "abc");
    assert_eq!(report.modules[1].symbol_status, SymbolStatus::NotReferenced);
    assert_eq!(
        report.memory[0].permissions,
        MemoryPermissions::Recorded { readable: true, writable: true, executable: false }
    );
    assert_eq!(report.memory[0].mapping_type, "MEM_PRIVATE \u{b7} MEM_COMMIT");
    assert!(report.memory[0].preview.ends_with("a.b."));
    assert_eq!(report.memory[1].mapping_type, "Not recorded");
    assert_eq!(report.memory[1].permissions, MemoryPermissions::NotRecorded);
    assert_eq!(report.streams[0].kind, "3");
}

#[test]
fn a_crash_without_system_information_keeps_the_default_reason() {
    let mut f = facts();
    f.system = None;
    f.crash = Some(CrashFacts { thread_id: 3, detail: None });
    f.threads = None;
    let report = report_from_facts("x", 0, &f);
    assert_eq!(report.crash_reason, "No exception stream");
    assert_eq!(report.crash_thread, Some(3));
    assert!(report.modules.iter().all(|m| !m.contains_fault));
    assert_eq!(
        report.diagnostics,
        vec!["System information stream is missing".to_string(), "Thread list stream is missing".to_string()]
    );
}

fn frame_record(module: &str, function: &str, missing: Option<bool>) -> FrameRecord {
    FrameRecord {
        frame: None,
        offset: None,
        module: Some(module.to_string()),
        function: Some(function.to_string()),
        function_offset: None,
        file: None,
        line: None,
        trust: None,
        missing_symbols: missing,
        registers: None,
    }
}

#[test]
fn walked_stacks_name_threads_and_grade_module_symbols() {
    let mut report = report_from_facts("/dumps/a.dmp", 99, &facts());
    let threads = vec![
        ThreadRecord { thread_id: Some(7), thread_name: Some("render".to_string()), frames: Some(vec![frame_record("app.so", "draw", None)]) },
        ThreadRecord { thread_id: Some(3 + (1 << 32)), thread_name: None, frames: Some(vec![frame_record("libc.so", "", Some(true))]) },
        ThreadRecord { thread_id: None, thread_name: Some("ignored".to_string()), frames: None },
        ThreadRecord { thread_id: Some(99), thread_name: Some("absent".to_string()), frames: None },
    ];
    add_call_stacks(&mut report, UnwindOutcome::Walked { json: "{}".to_string(), threads: Some(threads) });
    assert_eq!(report.processor_json, "{}");
    assert_eq!(report.threads[1].name, "render");
    assert_eq!(report.threads[1].frames[0].function, "draw");
    assert_eq!(report.threads[0].name, "");
    assert!(report.threads[0].frames[0].missing_symbols);
    assert_eq!(report.modules[0].symbol_status, SymbolStatus::Missing);
    assert_eq!(report.modules[1].symbol_status, SymbolStatus::Loaded);
}

#[test]
fn failed_walks_are_reported_and_unreadable_output_changes_nothing() {
    let mut report = DumpReport::default();
    add_call_stacks(&mut report, UnwindOutcome::NoRuntime);
    add_call_stacks(&mut report, UnwindOutcome::Failed);
    add_call_stacks(&mut report, UnwindOutcome::Unreadable);
    assert_eq!(
        report.diagnostics,
        vec![
            "Could not start the stack unwinder".to_string(),
            "Stack unwinding was not available for this dump".to_string(),
        ]
    );
    add_call_stacks(&mut report, UnwindOutcome::Walked { json: "[]".to_string(), threads: None });
    assert_eq!(report.processor_json, "[]");
}

#[test]
fn symbol_status_follows_the_frames_that_name_a_module() {
    let module = ModuleRow {
        name: "/app/core.dll".to_string(),
        base: VirtualAddress::unknown(),
        size: 0,
        code_id: String::new(),
        symbol_status: SymbolStatus::NotReferenced,
        ownership: ModuleOwnership::ApplicationOrThirdParty,
        contains_fault: false,
    };
    let thread = |frames: Vec<FrameRow>| ThreadRow {
        id: 1,
        name: String::new(),
        stack_start: VirtualAddress::unknown(),
        stack_size: 0,
        crashed: false,
        frames,
    };
    let frame = |module: &str, function: &str| FrameRow {
        module: module.to_string(),
        function: function.to_string(),
        ..Default::default()
    };
    assert_eq!(module_symbol_status(&module, &vec![thread(vec![frame("other.dll", "f")])]), SymbolStatus::NotReferenced);
    assert_eq!(module_symbol_status(&module, &vec![thread(vec![frame("core.dll", "")])]), SymbolStatus::AddressesOnly);
    assert_eq!(module_symbol_status(&module, &vec![thread(vec![frame("core.dll", "run")])]), SymbolStatus::Loaded);
}

#[test]
fn pointer_size_follows_the_architecture() {
    for code in 0u16..=0x20 {
        let facts = system_facts(code, 0);
        let expected = match facts.architecture {
            CpuArchitecture::X86
            | CpuArchitecture::Ppc
            | CpuArchitecture::Sparc
            | CpuArchitecture::Arm
            | CpuArchitecture::Mips => Some(PointerSize::Bytes4),
            CpuArchitecture::Unknown => None,
            _ => Some(PointerSize::Bytes8),
        };
        assert_eq!(facts.pointer_size, expected);
    }
    assert_eq!(system_facts(0, 0).architecture, CpuArchitecture::X86);
    assert_eq!(system_facts(9, 0).pointer_size, Some(PointerSize::Bytes8));
    assert_eq!(system_facts(0x7777, 0).pointer_size, None);
}

#[test]
fn analysis_errors_name_the_dump() {
    assert_eq!(AnalysisError::NotMinidump.message("/tmp/x.dmp"), "Could not parse /tmp/x.dmp as a minidump");
    let error = analyse_dump("/tmp/x.dmp", 3, b"not").unwrap_err();
    assert_eq!(error.message("/tmp/x.dmp"), "Could not parse /tmp/x.dmp as a minidump");
}
