use brain_opt::instruction::Register64;
use brain_opt::options::verbosity_name;
use brain_opt::target_abi::{linux, macos, Operations, ABI};

#[test]
fn abi_names() {
    assert_eq!(ABI::from_name("linux"), Some(ABI::Linux));
    assert_eq!(ABI::from_name("macos"), Some(ABI::MacOS));
    assert_eq!(ABI::from_name("windows"), None);
    assert_eq!(ABI::pick_default("linux"), Some(ABI::Linux));
    assert_eq!(ABI::pick_default("freebsd"), None);
    assert_eq!(ABI::variants(), vec!["linux", "macos"]);
}

#[test]
fn linker_info_and_header() {
    let info = ABI::Linux.operations().linker_info();
    assert_eq!(info.entrypoint, "main");
    assert_eq!(info.libraries, vec!["libc".to_string()]);
    assert_eq!(info.externs, vec!["read".to_string(), "write".to_string(), "exit".to_string()]);
    assert_eq!(info.linker_cmd, "clang");
    assert_eq!(info.linker_args, vec!["-no-pie".to_string()]);
    assert_eq!(info.to_assembly(), "extern read\nextern write\nextern exit\nglobal main\n");
    let info = macos::Interface::new().linker_info();
    assert_eq!(info.entrypoint, "_main");
    assert_eq!(info.object_format, "macho64");
    assert_eq!(info.linker_args, vec!["-lSystem".to_string(), "-macosx_version_min".to_string(), "10.10.0".to_string()]);
    assert_eq!(info.to_assembly(), "extern _read\nextern _write\nextern _exit\nglobal _main\n");
}

#[test]
fn operations_emit_calls() {
    let mut l = linux::Interface::new();
    assert!(l.startup().is_empty());
    let text: Vec<String> = l.exit().iter().map(|i| i.to_source()).collect();
    assert_eq!(text, vec!["add rsp, 30000", "xor rdi, rdi", "call exit"]);
    let text: Vec<String> = l.write_bytes(Register64::rbx, 3).iter().map(|i| i.to_source()).collect();
    assert_eq!(text, vec!["mov rdi, 1", "mov rsi, rbx", "mov rdx, 3", "call write"]);
    let mut m = macos::Interface::new();
    let text: Vec<String> = m.exit().iter().map(|i| i.to_source()).collect();
    assert_eq!(text, vec!["xor rdi, rdi", "call _exit"]);
    let text: Vec<String> = m.read_byte(Register64::rbx).iter().map(|i| i.to_source()).collect();
    assert_eq!(text[3], "call _read");
    assert_eq!(text[7], ".interface_macos0:");
}

#[test]
fn verbosity_levels() {
    assert_eq!(verbosity_name(0, true), "error");
    assert_eq!(verbosity_name(0, false), "warn");
    assert_eq!(verbosity_name(1, false), "info");
    assert_eq!(verbosity_name(2, false), "debug");
    assert_eq!(verbosity_name(9, false), "trace");
}
