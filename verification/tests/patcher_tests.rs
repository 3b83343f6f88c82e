use re_utilities::memory::ProcessMemory;
use re_utilities::patcher::Patcher;

const BASE: usize = 0x4000;

fn sample_memory() -> ProcessMemory {
    ProcessMemory::new(BASE, (0u8..16).collect())
}

fn bytes_at(mem: &ProcessMemory, addr: usize, len: usize) -> Vec<u8> {
    mem.read_bytes(addr, len)
}

#[test]
fn patch_unpatch_round_trip() {
    let mut mem = sample_memory();
    let mut p = Patcher::new();
    let original = bytes_at(&mem, BASE + 4, 3);
    p.patch(&mut mem, BASE + 4, &[0xAA, 0xBB, 0xCC]);
    assert_eq!(bytes_at(&mem, BASE + 4, 3), vec![0xAA, 0xBB, 0xCC]);
    assert_eq!(p.unpatch(&mut mem, BASE + 4), Some(()));
    assert_eq!(bytes_at(&mem, BASE + 4, 3), original);
    assert_eq!(p.recorded_len(BASE + 4), None);
}

#[test]
fn double_patch_preserves_true_original() {
    let mut mem = sample_memory();
    let mut p = Patcher::new();
    let original = bytes_at(&mem, BASE + 2, 2);
    p.patch(&mut mem, BASE + 2, &[0x11, 0x11]);
    p.patch(&mut mem, BASE + 2, &[0x22, 0x22]);
    assert_eq!(bytes_at(&mem, BASE + 2, 2), vec![0x22, 0x22]);
    assert_eq!(p.unpatch(&mut mem, BASE + 2), Some(()));
    // the bytes before the first patch are back, not the first replacement
    assert_eq!(bytes_at(&mem, BASE + 2, 2), original);
}

#[test]
fn unpatch_missing_address_reports_not_found() {
    let mut mem = sample_memory();
    let mut p = Patcher::new();
    assert_eq!(p.unpatch(&mut mem, BASE + 1), None);
    assert_eq!(bytes_at(&mem, BASE, 16), (0u8..16).collect::<Vec<u8>>());
}

#[test]
fn teardown_restores_in_reverse_insertion_order() {
    let mut mem = sample_memory();
    let mut p = Patcher::new();
    let full_original = bytes_at(&mem, BASE, 16);
    // two overlapping patches: byte 2 belongs to both ranges, so restore
    // order is observable in the final contents
    p.patch(&mut mem, BASE, &[0x41, 0x41, 0x41]);
    p.patch(&mut mem, BASE + 2, &[0x42, 0x42, 0x42]);
    p.restore_all(&mut mem);
    // the second patch's original bytes went back first, then the first
    // patch's; forward order would leave 0x41 at offset 2
    assert_eq!(bytes_at(&mem, BASE, 16), full_original);
}

#[test]
fn teardown_in_forward_order_would_differ() {
    let mut mem = sample_memory();
    let mut p = Patcher::new();
    p.patch(&mut mem, BASE, &[0x41, 0x41, 0x41]);
    // the second patch records [0x41, 3, 4] as its original
    p.patch(&mut mem, BASE + 2, &[0x42, 0x42, 0x42]);
    // removing the first patch first restores [0,1,2] but byte 2 is then
    // clobbered when the second patch restores its recorded 0x41
    assert_eq!(p.unpatch(&mut mem, BASE), Some(()));
    assert_eq!(p.unpatch(&mut mem, BASE + 2), Some(()));
    assert_eq!(bytes_at(&mem, BASE, 5), vec![0, 1, 0x41, 3, 4]);
}

#[test]
fn safe_write_bypasses_ledger() {
    let mut mem = sample_memory();
    let mut p = Patcher::new();
    p.safe_write(&mut mem, BASE + 1, &[0x99]);
    assert_eq!(bytes_at(&mem, BASE + 1, 1), vec![0x99]);
    assert_eq!(p.recorded_len(BASE + 1), None);
    p.restore_all(&mut mem);
    assert_eq!(bytes_at(&mem, BASE + 1, 1), vec![0x99]);
}

#[test]
fn call_redirect_round_trip() {
    // a near call at S originally targeting T
    let s = BASE + 3;
    let t = BASE + 3 + 5 + 0x20;
    let mut image = vec![0x90u8; 16];
    image[3] = 0xE8;
    let disp = (t as i64 - s as i64 - 5) as i32;
    image[4..8].copy_from_slice(&disp.to_le_bytes());
    let mut mem = ProcessMemory::new(BASE, image);
    let mut p = Patcher::new();

    let d = BASE;
    let orig = p.replace_call_destination(&mut mem, s, d);
    assert_eq!(orig, t);
    // the five bytes now encode a call to D
    let bytes = mem.read_bytes(s, 5);
    assert_eq!(bytes[0], 0xE8);
    let new_disp = i32::from_le_bytes([bytes[1], bytes[2], bytes[3], bytes[4]]);
    let resolved = (s as i64 + 5 + new_disp as i64) as usize;
    assert_eq!(resolved, d);
    // reverting the redirect restores the original call
    assert_eq!(p.unpatch(&mut mem, s), Some(()));
    let restored = mem.read_bytes(s, 5);
    assert_eq!(restored[0], 0xE8);
    let back = i32::from_le_bytes([restored[1], restored[2], restored[3], restored[4]]);
    assert_eq!((s as i64 + 5 + back as i64) as usize, t);
}

#[test]
fn call_redirect_out_of_range_is_refused() {
    let s = BASE + 3;
    let mut image = vec![0x90u8; 16];
    image[3] = 0xE8;
    let mut mem = ProcessMemory::new(BASE, image);
    let mut p = Patcher::new();
    let before = mem.read_bytes(BASE, 16);
    // a destination farther than a 32-bit displacement can reach
    let d = s + 0x1_0000_0000;
    assert_eq!(p.try_replace_call_destination(&mut mem, s, d), None);
    assert_eq!(mem.read_bytes(BASE, 16), before);
    // a reachable destination goes through
    assert!(p.try_replace_call_destination(&mut mem, s, BASE).is_some());
}
