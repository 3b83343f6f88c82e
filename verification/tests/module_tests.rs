use re_utilities::memory::ProcessMemory;
use re_utilities::module::{Module, ScanError};
use re_utilities::patcher::Patcher;

const BASE: usize = 0x1000;

fn sample_module() -> Module {
    let image = vec![0x90u8, 0x90, 0xE8, 0x10, 0x00, 0x00, 0x00, 0x55, 0x8B, 0xE8, 0x20, 0x00,
        0x00, 0x00, 0xC3];
    Module::new(7, BASE, Some(String::from("/opt/game/libgame.so")), image)
}

#[test]
fn scan_returns_first_match_absolute() {
    let mut m = sample_module();
    let addr = m.scan("E8").unwrap();
    assert_eq!(addr, BASE + 2);
}

#[test]
fn scan_caching_idempotence() {
    let mut m = sample_module();
    assert_eq!(m.search_count(), 0);
    let a1 = m.scan("55 8B").unwrap();
    assert_eq!(m.search_count(), 1);
    let a2 = m.scan("55 8B").unwrap();
    assert_eq!(a1, a2);
    // the second call answered from the cache: no byte search ran
    assert_eq!(m.search_count(), 1);
}

#[test]
fn scan_rejects_invalid_pattern_before_searching() {
    let mut m = sample_module();
    assert_eq!(m.scan("55 8"), Err(ScanError::InvalidPattern));
    assert_eq!(m.search_count(), 0);
}

#[test]
fn scan_not_found_searches_again() {
    let mut m = sample_module();
    assert_eq!(m.scan("AA BB CC"), Err(ScanError::NotFound));
    assert_eq!(m.scan("AA BB CC"), Err(ScanError::NotFound));
    // failures are not cached
    assert_eq!(m.search_count(), 2);
}

#[test]
fn relative_callsite_resolves_displacement() {
    let mut m = sample_module();
    // the first E8 is at offset 2; its 4 displacement bytes (0x10) start at
    // offset 3, so the target is base + 3 + 4 + 0x10
    let addr = m.scan_for_relative_callsite("E8 10", 1).unwrap();
    assert_eq!(addr, BASE + 3 + 4 + 0x10);
}

#[test]
fn relative_callsite_is_cached() {
    let mut m = sample_module();
    let a1 = m.scan_for_relative_callsite("E8 10", 1).unwrap();
    assert_eq!(m.search_count(), 1);
    let a2 = m.scan_for_relative_callsite("E8 10", 1).unwrap();
    assert_eq!(a1, a2);
    assert_eq!(m.search_count(), 1);
}

#[test]
fn relative_callsite_negative_displacement() {
    // displacement -8 encoded little-endian
    let image = vec![0x90u8, 0x90, 0x90, 0x90, 0x90, 0x90, 0x90, 0x90, 0xE8, 0xF8, 0xFF, 0xFF,
        0xFF, 0xC3];
    let mut m = Module::new(1, BASE, None, image);
    let addr = m.scan_for_relative_callsite("E8 F8", 1).unwrap();
    // target = base + 9 + 4 - 8
    assert_eq!(addr, BASE + 5);
}

#[test]
fn relative_callsite_out_of_range_read() {
    // pattern matches right at the end: no 4 displacement bytes after it
    let image = vec![0x90u8, 0xE8];
    let mut m = Module::new(1, BASE, None, image);
    assert_eq!(
        m.scan_for_relative_callsite("E8", 1),
        Err(ScanError::OutOfRange)
    );
}

#[test]
fn scan_after_ptr_skips_earlier_occurrence() {
    let image = vec![0x10u8, 0x20, 0x30, 0x00, 0x10, 0x20, 0x30];
    let mut m = Module::new(1, BASE, None, image);
    let first = m.scan("10 20 30").unwrap();
    assert_eq!(first, BASE);
    let later = m.scan_after_ptr(BASE + 1, "10 20 30").unwrap();
    assert_eq!(later, BASE + 4);
}

#[test]
fn backup_image_freezes_scan_source() {
    let mut m = sample_module();
    m.backup_image();
    let snap = m.as_bytes().to_vec();
    assert_eq!(snap[2], 0xE8);
    let addr = m.scan("55 8B").unwrap();
    assert_eq!(addr, BASE + 7);
}

#[test]
fn address_translation_round_trip() {
    let m = sample_module();
    assert_eq!(m.base(), BASE);
    assert_eq!(m.rel_to_abs_addr(0x10), BASE + 0x10);
    assert_eq!(m.abs_to_rel_addr(BASE + 0x10), 0x10);
    assert_eq!(m.rel_to_abs_addr_isize(4), BASE + 4);
    assert_eq!(m.handle(), 7);
}

#[test]
fn path_helpers_split_at_last_separator() {
    let m = sample_module();
    assert_eq!(m.path(), Some("/opt/game/libgame.so"));
    assert_eq!(m.filename(), Some(String::from("libgame.so")));
    assert_eq!(m.directory(), Some(String::from("/opt/game")));
}

#[test]
fn path_helpers_with_backslashes_and_none() {
    let m = Module::new(
        1,
        BASE,
        Some(String::from("C:\\game\\mod.dll")),
        vec![0u8; 4],
    );
    assert_eq!(m.filename(), Some(String::from("mod.dll")));
    assert_eq!(m.directory(), Some(String::from("C:\\game")));

    let bare = Module::new(1, BASE, Some(String::from("mod.dll")), vec![0u8; 4]);
    assert_eq!(bare.filename(), Some(String::from("mod.dll")));
    // a bare relative name has an empty parent, as Path::parent gives
    assert_eq!(bare.directory(), Some(String::from("")));

    let unknown = Module::new(1, BASE, None, vec![0u8; 4]);
    assert_eq!(unknown.path(), None);
    assert_eq!(unknown.filename(), None);
    assert_eq!(unknown.directory(), None);
}

#[test]
fn path_helpers_follow_component_rules() {
    let with = |p: &str| Module::new(1, BASE, Some(String::from(p)), vec![0u8; 4]);
    // a root has neither file name nor parent
    assert_eq!(with("/").filename(), None);
    assert_eq!(with("/").directory(), None);
    // trailing separators are ignored
    assert_eq!(with("a/b/").filename(), Some(String::from("b")));
    assert_eq!(with("a/b/").directory(), Some(String::from("a")));
    // `..` is not a file name; `.` stands for the directory itself
    assert_eq!(with("a/..").filename(), None);
    assert_eq!(with("a/..").directory(), Some(String::from("a")));
    assert_eq!(with("a/.").filename(), Some(String::from("a")));
    assert_eq!(with("a/.").directory(), Some(String::from("")));
    assert_eq!(with(".").filename(), None);
    assert_eq!(with(".").directory(), Some(String::from("")));
    // an absolute path keeps its root as the parent
    assert_eq!(with("/a").filename(), Some(String::from("a")));
    assert_eq!(with("/a").directory(), Some(String::from("/")));
    assert_eq!(with("./a").directory(), Some(String::from(".")));
}

#[test]
fn refresh_image_links_live_bytes_to_patched_memory() {
    let image = vec![0x90u8, 0x55, 0x8B, 0xEC, 0xC3];
    let mut m = Module::new(1, BASE, None, image.clone());
    let mut mem = ProcessMemory::new(BASE, image);
    let mut patcher = Patcher::new();

    // freeze a snapshot first, then patch the module's span in memory
    m.backup_image();
    patcher.patch(&mut mem, BASE + 1, &[0xAA, 0xBB]);
    m.refresh_image(&mem);

    // the snapshot keeps scans on the pre-patch bytes
    assert_eq!(m.scan("AA BB"), Err(ScanError::NotFound));
    assert_eq!(m.scan("55 8B"), Ok(BASE + 1));
    // retaking the snapshot from the refreshed live image shows the patch
    m.backup_image();
    assert_eq!(m.scan("AA BB"), Ok(BASE + 1));
}
