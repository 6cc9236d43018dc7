use rswc::args::{resolve_flags, ArgSet};
use rswc::counter::Flags;

fn custom_flags() -> Vec<String> {
    ["-l", "-c", "-w", "-m", "--lines", "--bytes", "--words", "--chars"]
        .iter()
        .map(|s| s.to_string())
        .collect()
}

fn strings(items: &[&str]) -> Vec<String> {
    items.iter().map(|s| s.to_string()).collect()
}

#[test]
fn test_single_valid_flag_and_file() {
    let args = strings(&["-l", "file.txt"]);
    let result = ArgSet::try_from(args, &custom_flags()).unwrap();
    assert_eq!(result.flags, vec!["-l"]);
    assert_eq!(result.file_paths, vec!["file.txt"]);
}

#[test]
fn test_combined_valid_flags() {
    let args = strings(&["-lc", "file.txt"]);
    let result = ArgSet::try_from(args, &custom_flags()).unwrap();
    assert_eq!(result.flags, vec!["-l", "-c"]);
    assert_eq!(result.file_paths, vec!["file.txt"]);
}

#[test]
fn test_invalid_combined_valid_flags() {
    let args = strings(&["-lz"]);
    let err = ArgSet::try_from(args, &custom_flags()).unwrap_err();
    assert_eq!(err, "rswc: invalid option -z");
}

#[test]
fn test_unknown_flag() {
    let args = strings(&["-z"]);
    let err = ArgSet::try_from(args, &custom_flags()).unwrap_err();
    assert_eq!(err, "rswc: unrecognized option -z");
}

#[test]
fn test_multiple_files() {
    let args = strings(&["-l", "file1.txt", "file2.txt"]);
    let result = ArgSet::try_from(args, &custom_flags()).unwrap();
    assert_eq!(result.flags, vec!["-l"]);
    assert_eq!(result.file_paths, vec!["file1.txt", "file2.txt"]);
}

#[test]
fn test_long_flag_equivalent() {
    let args = strings(&["--lines", "--bytes", "--chars", "--words", "file1.txt", "file2.txt"]);
    let result = ArgSet::try_from(args, &custom_flags()).unwrap();
    assert_eq!(result.flags, vec!["--lines", "--bytes", "--chars", "--words"]);
    assert_eq!(result.file_paths, vec!["file1.txt", "file2.txt"]);
}

#[test]
fn test_invalid_long_flag() {
    let args = strings(&["--byte"]);
    let err = ArgSet::try_from(args, &custom_flags()).unwrap_err();
    assert_eq!(err, "rswc: unrecognized option --byte");
}

#[test]
fn test_has_reports_parsed_flags() {
    let args = strings(&["-lw", "data.txt"]);
    let result = ArgSet::try_from(args, &custom_flags()).unwrap();
    assert!(result.has("-l"));
    assert!(result.has("-w"));
    assert!(!result.has("-c"));
    assert!(!result.has("--lines"));
}

#[test]
fn test_resolve_flags_explicit() {
    let args = strings(&["-l", "-m", "a.txt"]);
    let result = ArgSet::try_from(args, &custom_flags()).unwrap();
    let flags = resolve_flags(&result);
    assert_eq!(
        flags,
        Flags { lines: true, words: false, bytes: false, chars: true }
    );
}

#[test]
fn test_resolve_flags_default() {
    let args = strings(&["a.txt"]);
    let result = ArgSet::try_from(args, &custom_flags()).unwrap();
    let flags = resolve_flags(&result);
    assert_eq!(
        flags,
        Flags { lines: true, words: true, bytes: true, chars: false }
    );
}

#[test]
fn test_bare_dash_is_a_path() {
    let args = strings(&["-l", "-"]);
    let result = ArgSet::try_from(args, &custom_flags()).unwrap();
    assert_eq!(result.flags, vec!["-l"]);
    assert_eq!(result.file_paths, vec!["-"]);
}
