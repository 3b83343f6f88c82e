use std::cell::RefCell;

use re_utilities::detour_binder::{NonstaticDetourBinder, StaticDetourBinder};
use re_utilities::hook_library::{HookAction, HookError, HookLibraries, HookLibrary};
use re_utilities::memory::ProcessMemory;
use re_utilities::module::Module;
use re_utilities::patcher::Patcher;

const MOD_BASE: usize = 0x1000;
const MEM_BASE: usize = 0x4000;

fn sample_module() -> Module {
    let image = vec![0x90u8, 0x55, 0x8B, 0xEC, 0xC3, 0x00, 0x00, 0x00];
    Module::new(7, MOD_BASE, None, image)
}

fn sample_memory() -> ProcessMemory {
    ProcessMemory::new(MEM_BASE, (0u8..32).collect())
}

#[test]
fn enable_disable_symmetry() {
    let mut module = sample_module();
    let mut patcher = Patcher::new();
    let mut mem = sample_memory();
    let original = mem.read_bytes(MEM_BASE, 32);

    let lib = HookLibrary::new()
        .with_binder(StaticDetourBinder::from_address(String::from("fixed_hook"), 0x2000))
        .with_binder(StaticDetourBinder::from_signature(
            String::from("sig_hook"),
            String::from("55 8B EC"),
        ))
        .with_runtime_binder(NonstaticDetourBinder::new(0x3000))
        .with_patch(MEM_BASE + 4, &[0xAA, 0xBB])
        .with_patch(MEM_BASE + 10, &[0xCC]);
    let mut lib = lib;

    let dispatch = |_a: HookAction| true;
    lib.init(&mut module, dispatch).unwrap();
    assert_eq!(lib.binders()[0].bound_address(), Some(0x2000));
    assert_eq!(lib.binders()[1].bound_address(), Some(MOD_BASE + 1));

    lib.set_enabled(&mut patcher, &mut mem, dispatch, true).unwrap();
    assert!(lib.binders()[0].is_enabled());
    assert!(lib.binders()[1].is_enabled());
    assert!(lib.runtime_binders()[0].is_enabled());
    assert_eq!(mem.read_bytes(MEM_BASE + 4, 2), vec![0xAA, 0xBB]);
    assert_eq!(mem.read_bytes(MEM_BASE + 10, 1), vec![0xCC]);

    lib.set_enabled(&mut patcher, &mut mem, dispatch, false).unwrap();
    assert!(!lib.binders()[0].is_enabled());
    assert!(!lib.binders()[1].is_enabled());
    assert!(!lib.runtime_binders()[0].is_enabled());
    assert_eq!(mem.read_bytes(MEM_BASE, 32), original);
}

#[test]
fn empty_library_toggles_as_noop() {
    let mut patcher = Patcher::new();
    let mut mem = sample_memory();
    let original = mem.read_bytes(MEM_BASE, 32);
    let mut lib = HookLibrary::new();
    let dispatch = |_a: HookAction| true;
    assert!(lib.set_enabled(&mut patcher, &mut mem, dispatch, true).is_ok());
    assert!(lib.set_enabled(&mut patcher, &mut mem, dispatch, false).is_ok());
    assert_eq!(mem.read_bytes(MEM_BASE, 32), original);
}

#[test]
fn enable_order_is_binders_callbacks_patches_and_disable_reverses() {
    let mut patcher = Patcher::new();
    let mut mem = sample_memory();
    let log: RefCell<Vec<HookAction>> = RefCell::new(Vec::new());
    let dispatch = |a: HookAction| {
        log.borrow_mut().push(a);
        true
    };
    let mut lib = HookLibrary::new()
        .with_runtime_binder(NonstaticDetourBinder::new(0x3000))
        .with_callbacks(21, 22)
        .with_patch(MEM_BASE, &[0xFF]);

    lib.set_enabled(&mut patcher, &mut mem, dispatch, true).unwrap();
    assert_eq!(
        log.borrow().clone(),
        vec![HookAction::EnableDetour(0x3000), HookAction::RunEnable(21)]
    );
    log.borrow_mut().clear();

    lib.set_enabled(&mut patcher, &mut mem, dispatch, false).unwrap();
    // patches are removed first (no dispatch), then disable callbacks, then
    // the binders come off
    assert_eq!(
        log.borrow().clone(),
        vec![HookAction::RunDisable(22), HookAction::DisableDetour(0x3000)]
    );
}

#[test]
fn enable_before_bind_is_an_error() {
    let mut patcher = Patcher::new();
    let mut mem = sample_memory();
    let mut lib = HookLibrary::new().with_binder(StaticDetourBinder::from_signature(
        String::from("late_hook"),
        String::from("55 8B"),
    ));
    let dispatch = |_a: HookAction| true;
    let err = lib.set_enabled(&mut patcher, &mut mem, dispatch, true).unwrap_err();
    match err {
        HookError::NotBound { name } => assert_eq!(name, "late_hook"),
        _ => panic!("expected NotBound"),
    }
}

#[test]
fn failed_scan_surfaces_binder_name() {
    let mut module = sample_module();
    let mut lib = HookLibrary::new().with_binder(StaticDetourBinder::from_signature(
        String::from("missing_hook"),
        String::from("DE AD BE EF"),
    ));
    let dispatch = |_a: HookAction| true;
    let err = lib.init(&mut module, dispatch).unwrap_err();
    match err {
        HookError::BindFailed { name, .. } => assert_eq!(name, "missing_hook"),
        _ => panic!("expected BindFailed"),
    }
}

#[test]
fn failing_detour_leaves_partial_enable() {
    let mut patcher = Patcher::new();
    let mut mem = sample_memory();
    let original = mem.read_bytes(MEM_BASE, 32);
    let mut lib = HookLibrary::new()
        .with_runtime_binder(NonstaticDetourBinder::new(0x3000))
        .with_runtime_binder(NonstaticDetourBinder::new(0x3004))
        .with_patch(MEM_BASE, &[0xFF]);
    let dispatch = |a: HookAction| a != HookAction::EnableDetour(0x3004);
    let err = lib.set_enabled(&mut patcher, &mut mem, dispatch, true).unwrap_err();
    match err {
        HookError::ActionFailed { action } => {
            assert_eq!(action, HookAction::EnableDetour(0x3004));
        },
        _ => panic!("expected ActionFailed"),
    }
    // the first binder stayed enabled, the patches were never applied
    assert!(lib.runtime_binders()[0].is_enabled());
    assert!(!lib.runtime_binders()[1].is_enabled());
    assert_eq!(mem.read_bytes(MEM_BASE, 32), original);
    // disable unwinds the partial enable: the never-applied patch is simply
    // not found and skipped, not a failure of the whole sequence
    let dispatch_ok = |_a: HookAction| true;
    lib.set_enabled(&mut patcher, &mut mem, dispatch_ok, false).unwrap();
    assert!(!lib.runtime_binders()[0].is_enabled());
    assert!(!lib.runtime_binders()[1].is_enabled());
    assert_eq!(mem.read_bytes(MEM_BASE, 32), original);
}

#[test]
fn patch_outside_memory_fails_enable() {
    let mut patcher = Patcher::new();
    let mut mem = sample_memory();
    let mut lib = HookLibrary::new().with_patch(MEM_BASE + 31, &[0x01, 0x02]);
    let dispatch = |_a: HookAction| true;
    let err = lib.set_enabled(&mut patcher, &mut mem, dispatch, true).unwrap_err();
    match err {
        HookError::PatchFailed { address } => assert_eq!(address, MEM_BASE + 31),
        _ => panic!("expected PatchFailed"),
    }
}

#[test]
fn libraries_fan_out_and_report_flags() {
    let mut module = sample_module();
    let mut patcher = Patcher::new();
    let mut mem = sample_memory();
    let original = mem.read_bytes(MEM_BASE, 32);
    let lib1 = HookLibrary::new()
        .with_binder(StaticDetourBinder::from_address(String::from("one"), 0x2000))
        .with_patch(MEM_BASE + 1, &[0x11]);
    let lib2 = HookLibrary::new()
        .with_runtime_binder(NonstaticDetourBinder::new(0x3000))
        .with_patch(MEM_BASE + 8, &[0x22]);
    let dispatch = |_a: HookAction| true;
    let libs = HookLibraries::new(vec![lib1, lib2]);
    let mut libs = libs
        .init_and_enable(&mut module, &mut patcher, &mut mem, dispatch)
        .unwrap();
    assert_eq!(mem.read_bytes(MEM_BASE + 1, 1), vec![0x11]);
    assert_eq!(mem.read_bytes(MEM_BASE + 8, 1), vec![0x22]);
    libs.set_enabled(&mut patcher, &mut mem, dispatch, false).unwrap();
    assert_eq!(mem.read_bytes(MEM_BASE, 32), original);
}

#[test]
fn shutdown_runs_shutdown_callbacks_once() {
    let log: RefCell<Vec<HookAction>> = RefCell::new(Vec::new());
    let dispatch = |a: HookAction| {
        log.borrow_mut().push(a);
        true
    };
    let lib = HookLibrary::new().on_shutdown(77);
    lib.shutdown(dispatch).unwrap();
    assert_eq!(log.borrow().clone(), vec![HookAction::RunShutdown(77)]);
}

#[test]
fn init_runs_init_callbacks_after_binding() {
    let mut module = sample_module();
    let log: RefCell<Vec<HookAction>> = RefCell::new(Vec::new());
    let dispatch = |a: HookAction| {
        log.borrow_mut().push(a);
        true
    };
    let mut lib = HookLibrary::new().on_init(5).on_enable(6).on_disable(7);
    lib.init(&mut module, dispatch).unwrap();
    assert_eq!(log.borrow().clone(), vec![HookAction::RunInit(5)]);
}
