use oskernel::loader::{get_base_i, init_app_cx, load_plan, AppImage, LoadError};
use oskernel::logging::{init, level_color, LogLevel};

#[test]
fn slots_are_spaced_by_limit() {
    assert_eq!(get_base_i(0), 0x8040_0000);
    assert_eq!(get_base_i(3), 0x8046_0000);
}

#[test]
fn initial_context_on_kernel_stack() {
    let (addr, cx) = init_app_cx(2, 0x8030_2000, 0x8031_2000, 0x200);
    assert_eq!(addr, 0x8030_2000 - 272);
    assert_eq!(cx.sepc, 0x8044_0000);
    assert_eq!(cx.x[2], 0x8031_2000);
    assert_eq!(cx.sstatus, 0x200);
}

#[test]
fn load_plan_checks_sizes() {
    let plan = load_plan(&[0x8020_0000, 0x8020_0100, 0x8020_0300]).unwrap();
    assert_eq!(plan, vec![
        AppImage { src: 0x8020_0000, dst: 0x8040_0000, len: 0x100 },
        AppImage { src: 0x8020_0100, dst: 0x8042_0000, len: 0x200 },
    ]);
    assert_eq!(load_plan(&[0x1000, 0x1000 + 0x20001]), Err(LoadError::TooLarge));
    assert_eq!(load_plan(&[0x2000, 0x1000]), Err(LoadError::BadTable));
    assert_eq!(load_plan(&[0u64; 18]), Err(LoadError::TooManyApps));
    assert_eq!(load_plan(&[0x1000]).unwrap().len(), 0);
}

#[test]
fn log_level_from_setting() {
    assert_eq!(init(Some(&b"ERROR"[..])), LogLevel::Error);
    assert_eq!(init(Some(&b"WARN"[..])), LogLevel::Warn);
    assert_eq!(init(Some(&b"INFO"[..])), LogLevel::Info);
    assert_eq!(init(Some(&b"DEBUG"[..])), LogLevel::Debug);
    assert_eq!(init(Some(&b"TRACE"[..])), LogLevel::Trace);
    assert_eq!(init(Some(&b"trace"[..])), LogLevel::Off);
    assert_eq!(init(None), LogLevel::Off);
    assert_eq!(level_color(LogLevel::Error), 31);
    assert_eq!(level_color(LogLevel::Warn), 93);
    assert_eq!(level_color(LogLevel::Info), 34);
    assert_eq!(level_color(LogLevel::Debug), 32);
    assert_eq!(level_color(LogLevel::Trace), 90);
}
