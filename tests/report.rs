use gitree::report::Report;

#[test]
fn report_zero_counts() {
    let report = Report::new();
    assert_eq!(report.to_string(), "0 directories, 0 files");
}

#[test]
fn report_singular_counts() {
    let mut report = Report::new();
    report.add(false, true);
    report.add(false, false);
    assert_eq!(report.to_string(), "1 directory, 1 file");
}

#[test]
fn report_plural_and_root_skipped() {
    let mut report = Report::new();
    report.add(true, true);
    for _ in 0..12 {
        report.add(false, true);
    }
    report.add(true, false);
    report.add(false, false);
    report.add(false, false);
    assert_eq!(report.num_dirs(), 12);
    assert_eq!(report.num_files(), 2);
    assert_eq!(report.to_string(), "12 directories, 2 files");
}

#[test]
fn report_large_numbers() {
    let mut report = Report::new();
    for _ in 0..1000 {
        report.add(false, false);
    }
    report.add(false, true);
    assert_eq!(report.to_string(), "1 directory, 1000 files");
}
