use std::path::PathBuf;

use pyimporttime::launch::{is_python_shebang_line, resolve_executable_script, script_candidate};

#[test]
fn resolve_executable_script_falls_back_to_python() {
    let args = vec!["-c".to_string(), "print('hi')".to_string()];
    assert_eq!(script_candidate(&args), None);
    let (exe, exe_args) = resolve_executable_script("python3", &args, None);

    assert_eq!(PathBuf::from(exe), PathBuf::from("python3"));
    assert_eq!(exe_args, args);
}

#[test]
fn found_script_runs_with_remaining_args() {
    let args = vec!["tool".to_string(), "arg1".to_string()];
    assert_eq!(script_candidate(&args), Some("tool".to_string()));
    let (exe, exe_args) =
        resolve_executable_script("python", &args, Some("/usr/bin/tool".to_string()));
    assert_eq!(exe, "/usr/bin/tool");
    assert_eq!(exe_args, vec!["arg1".to_string()]);
    assert_eq!(script_candidate(&[]), None);
}

#[test]
fn shebang_detection() {
    assert!(is_python_shebang_line("#!/usr/bin/env python\n"));
    assert!(is_python_shebang_line("#!/opt/PYTHON3/bin/Python3"));
    assert!(!is_python_shebang_line("#!/bin/sh\n"));
    assert!(!is_python_shebang_line("print('python')"));
    assert!(!is_python_shebang_line(""));
}
