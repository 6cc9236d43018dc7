use rswc::counter::{Counts, Flags};
use rswc::render::{print_files_results, print_stdin_results, FileResult};

fn lwb_flags() -> Flags {
    Flags { lines: true, words: true, bytes: true, chars: false }
}

#[test]
fn test_print_results_from_mutli_files_with_large_numbers() {
    let flags = lwb_flags();

    let results = vec![
        FileResult::Success(
            "file1.txt".to_string(),
            Counts { lines: 2143500000, words: 17449200000, bytes: 102657000000, chars: 0 },
        ),
        FileResult::Success(
            "file2.txt".to_string(),
            Counts { lines: 2143500000, words: 17449200000, bytes: 102657000000, chars: 0 },
        ),
    ];

    let actual = print_files_results(&results, &flags);

    let expected = "\
            2143500000 17449200000 102657000000 file1.txt
2143500000 17449200000 102657000000 file2.txt
4287000000 34898400000 205314000000 total
";

    assert_eq!(actual, expected, "Output does not match");
}

#[test]
fn test_print_stdin_results_with_large_numbers() {
    let flags = lwb_flags();

    let counts = Counts { lines: 2143500000, words: 17449200000, bytes: 102657000000, chars: 0 };

    let actual = print_stdin_results(&counts, &flags);

    let expected = "\
            2143500000 17449200000 102657000000 -\n";

    assert_eq!(actual, expected, "Output does not match");
}

#[test]
fn test_two_files_with_total_row() {
    let flags = lwb_flags();
    let results = vec![
        FileResult::Success(
            "file1.txt".to_string(),
            Counts { lines: 5, words: 20, bytes: 120, chars: 0 },
        ),
        FileResult::Success(
            "file2.txt".to_string(),
            Counts { lines: 3, words: 10, bytes: 80, chars: 0 },
        ),
    ];
    let actual = print_files_results(&results, &flags);
    let expected = "      5      20     120 file1.txt\n      3      10      80 file2.txt\n      8      30     200 total\n";
    assert_eq!(actual, expected);
}

#[test]
fn test_single_file_has_no_total_row() {
    let flags = lwb_flags();
    let results = vec![FileResult::Success(
        "only.txt".to_string(),
        Counts { lines: 1, words: 2, bytes: 3, chars: 0 },
    )];
    let actual = print_files_results(&results, &flags);
    assert_eq!(actual, "      1       2       3 only.txt\n");
    assert!(!actual.contains("total"));
}

#[test]
fn test_stdin_zero_counts_single_row() {
    let flags = lwb_flags();
    let counts = Counts { lines: 0, words: 0, bytes: 0, chars: 0 };
    let actual = print_stdin_results(&counts, &flags);
    assert_eq!(actual, "      0       0       0 -\n");
    assert!(!actual.contains("total"));
}

#[test]
fn test_failure_row_excluded_from_total() {
    let flags = lwb_flags();
    let results = vec![
        FileResult::Success(
            "good.txt".to_string(),
            Counts { lines: 2, words: 4, bytes: 8, chars: 0 },
        ),
        FileResult::Failure(
            "missing.txt".to_string(),
            "No such file or directory (os error 2)".to_string(),
        ),
    ];
    let actual = print_files_results(&results, &flags);
    let expected = "      2       4       8 good.txt\nrswc: missing.txt: No such file or directory (os error 2) \n      2       4       8 total\n";
    assert_eq!(actual, expected);
    assert!(actual.contains("rswc: missing.txt: No such file or directory (os error 2) "));
}

#[test]
fn test_column_width_minimum_and_growth() {
    let flags = Flags { lines: true, words: false, bytes: false, chars: false };
    // A one-digit count is still padded to the minimum width of 7.
    let one = vec![
        FileResult::Success("a".to_string(), Counts { lines: 4, words: 0, bytes: 0, chars: 0 }),
        FileResult::Success("b".to_string(), Counts { lines: 9, words: 0, bytes: 0, chars: 0 }),
    ];
    let narrow = print_files_results(&one, &flags);
    assert_eq!(narrow, "      4 a\n      9 b\n     13 total\n");
    // A nine-digit maximum widens the column for every row.
    let two = vec![
        FileResult::Success("a".to_string(), Counts { lines: 4, words: 0, bytes: 0, chars: 0 }),
        FileResult::Success(
            "b".to_string(),
            Counts { lines: 123456789, words: 0, bytes: 0, chars: 0 },
        ),
    ];
    let wide = print_files_results(&two, &flags);
    assert_eq!(wide, "        4 a\n123456789 b\n123456793 total\n");
}

#[test]
fn test_enabled_fields_only_in_fixed_order() {
    let flags = Flags { lines: true, words: false, bytes: true, chars: true };
    let counts = Counts { lines: 1, words: 99, bytes: 12, chars: 10 };
    let actual = print_stdin_results(&counts, &flags);
    assert_eq!(actual, "      1      12      10 -\n");
}
