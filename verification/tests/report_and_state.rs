use crashlens::report::{DumpReport, MemoryPermissions, VirtualAddress};
use crashlens::scanner::FileEntry;
use crashlens::state::{
    expand_home, set_comparison_selected, take_comparison_pair, AnalysisJob, LibraryState,
    SymbolSettings,
};
use std::sync::mpsc;

fn entry(path: &str) -> FileEntry {
    FileEntry { path: path.to_string(), size: 1 }
}

#[test]
fn virtual_address_round_trips_without_losing_numeric_value() {
    let address: VirtualAddress = "0x1234abcd".into();

    assert_eq!(address.value(), Some(0x1234_abcd));
    assert_eq!(address.display(), "0x000000001234abcd");
    assert_eq!(VirtualAddress::from("invalid"), VirtualAddress::unknown());
}

#[test]
fn memory_permissions_have_a_stable_display_form() {
    let permissions = MemoryPermissions::Recorded { readable: true, writable: false, executable: true };

    assert_eq!(permissions.display(), "R-X");
    assert_eq!(MemoryPermissions::NotRecorded.display(), "Not recorded");
}

#[test]
fn analysis_job_keeps_subject_and_delivers_once() {
    let (sender, receiver) = mpsc::channel();
    let job = AnalysisJob::new("crash.dmp".to_string(), receiver);
    assert_eq!(job.path, "crash.dmp");
    assert!(job.poll().is_none());
    sender.send(Ok(DumpReport::default())).unwrap();
    assert!(job.poll().unwrap().is_ok());
    assert!(job.poll().is_none());
}

#[test]
fn library_scan_deduplicates_and_sorts_results() {
    let mut library = LibraryState::default();
    library.begin_scan("/");
    library.found_batch(vec![entry("/z.dmp"), entry("/a.dmp"), entry("/z.dmp")]);
    library.progress("/Users".to_string(), 42);
    assert_eq!(library.scanned_directories, 42);
    library.finish_scan();
    assert_eq!(
        library.files.iter().map(|f| f.path.as_str()).collect::<Vec<_>>(),
        vec!["/a.dmp", "/z.dmp"]
    );
    assert!(library.scan_location.is_none());
}

#[test]
fn batched_scan_results_are_deduplicated_when_finished() {
    let mut library = LibraryState::default();
    library.begin_scan("/");
    library.found_batch(vec![entry("/b.dmp"), entry("/a.dmp"), entry("/b.dmp")]);
    library.finish_scan();
    assert_eq!(library.files.len(), 2);
    assert_eq!(library.files[0].path, "/a.dmp");
}

#[test]
fn symbol_config_trims_entries_and_expands_home() {
    let settings = SymbolSettings {
        local_paths: " ~/symbols \n\n /opt/symbols ".to_string(),
        server_urls: " https://one/ \n\nhttps://two/ ".to_string(),
        ..Default::default()
    };
    let config = settings.config(Some("/Users/test"), "/tmp");
    assert_eq!(config.local_paths, vec!["/Users/test/symbols".to_string(), "/opt/symbols".to_string()]);
    assert_eq!(config.server_urls, vec!["https://one/", "https://two/"]);
    assert_eq!(config.cache_dir, "/Users/test/Library/Caches/CrashLens/symbols");
}

#[test]
fn expand_home_does_not_rewrite_unrelated_paths() {
    let home = Some("/Users/test");
    assert_eq!(expand_home("~other/file", home), "~other/file");
    assert_eq!(expand_home("/tmp/file", home), "/tmp/file");
}

#[test]
fn leaves_absolute_paths_untouched() {
    assert_eq!(expand_home("/tmp/crashes", Some("/Users/test")), "/tmp/crashes");
}

#[test]
fn comparison_selection_is_unique_and_limited_to_two() {
    let mut selection: Vec<String> = Vec::new();
    set_comparison_selected(&mut selection, "a.dmp", true);
    set_comparison_selected(&mut selection, "a.dmp", true);
    set_comparison_selected(&mut selection, "b.dmp", true);
    set_comparison_selected(&mut selection, "c.dmp", true);
    assert_eq!(selection, vec!["a.dmp".to_string(), "b.dmp".to_string()]);
    set_comparison_selected(&mut selection, "a.dmp", false);
    assert_eq!(selection, vec!["b.dmp".to_string()]);
}

#[test]
fn taking_comparison_pair_clears_selection_for_next_comparison() {
    let mut selection = vec!["first.dmp".to_string(), "second.dmp".to_string()];
    let pair = take_comparison_pair(&mut selection).unwrap();
    assert_eq!(pair, ("first.dmp".to_string(), "second.dmp".to_string()));
    assert!(selection.is_empty());
}

#[test]
fn address_display_parses_back_to_the_same_value() {
    for value in [0u64, 1, 0x10, 0xdead_beef, u64::MAX] {
        let shown = VirtualAddress::new(value).display();
        assert_eq!(VirtualAddress::parse(&shown), Some(value));
    }
    assert_eq!(VirtualAddress::unknown().display(), "\u{2014}");
    assert_eq!(VirtualAddress::parse("  0x0x1f "), Some(0x1f));
}

#[test]
fn expand_home_replaces_a_leading_tilde() {
    assert_eq!(expand_home("~", Some("/home/me")), "/home/me");
    assert_eq!(expand_home("~/dumps", Some("/home/me")), "/home/me/dumps");
    assert_eq!(expand_home("~/dumps", None), "~/dumps");
}

#[test]
fn symbol_cache_falls_back_to_the_temporary_directory() {
    let config = SymbolSettings::default().config(None, "/tmp");
    assert!(config.local_paths.is_empty());
    assert_eq!(config.cache_dir, "/tmp/Library/Caches/CrashLens/symbols");
}

#[test]
fn replacing_the_library_orders_paths_from_last_to_first() {
    let mut library = LibraryState::default();
    library.replace(vec![entry("/a.dmp"), entry("/c.dmp"), entry("/b.dmp")]);
    assert_eq!(
        library.files.iter().map(|f| f.path.as_str()).collect::<Vec<_>>(),
        vec!["/c.dmp", "/b.dmp", "/a.dmp"]
    );
}

#[test]
fn selecting_a_third_dump_is_refused() {
    let mut selection = vec!["a.dmp".to_string(), "b.dmp".to_string()];
    set_comparison_selected(&mut selection, "c.dmp", true);
    assert_eq!(selection.len(), 2);
    let mut single = vec!["a.dmp".to_string()];
    assert!(take_comparison_pair(&mut single).is_none());
    assert_eq!(single, vec!["a.dmp".to_string()]);
}

#[test]
fn replacing_the_library_keeps_the_listing_order_of_equal_paths() {
    let mut library = LibraryState::default();
    let first = FileEntry { path: "/b.dmp".to_string(), size: 1 };
    let second = FileEntry { path: "/b.dmp".to_string(), size: 2 };
    library.replace(vec![first.clone(), entry("/a.dmp"), second.clone(), entry("/c.dmp")]);
    let sizes: Vec<(&str, u64)> = library.files.iter().map(|f| (f.path.as_str(), f.size)).collect();
    assert_eq!(sizes, vec![("/c.dmp", 1), ("/b.dmp", 1), ("/b.dmp", 2), ("/a.dmp", 1)]);
}

#[test]
fn finishing_a_scan_twice_changes_nothing() {
    let mut library = LibraryState::default();
    library.begin_scan("/");
    library.found_batch(vec![entry("/c.dmp"), entry("/a.dmp"), FileEntry { path: "/c.dmp".to_string(), size: 7 }]);
    library.finish_scan();
    let once = library.files.clone();
    library.finish_scan();
    assert_eq!(library.files, once);
    assert_eq!(once, vec![entry("/a.dmp"), entry("/c.dmp")]);
}
