use sqlbridge::importer::{
    build_record, discover, fold_outcomes, job_verdict, record_json, Col, Discovery, EntryInfo,
    Importer, ImporterError, Job, JobOutcome, SqlFile,
};
use sqlbridge::Config;

fn test_config() -> Config {
    Config {
        oauth_id: b"id".to_vec(),
        oauth_secret: b"secret".to_vec(),
        tokenfile: b"./tokens.json".to_vec(),
        psql_url: b"postgresql://localhost/db".to_vec(),
        sqldir: b"./q".to_vec(),
        script_id: b"script".to_vec(),
        func_name: b"append_row".to_vec(),
        spreadsheet_url: b"https://sheets.example/1".to_vec(),
    }
}

fn entry(path: &[u8], is_dir: bool) -> EntryInfo {
    EntryInfo {
        path: path.to_vec(),
        is_dir,
    }
}

fn col(name: &[u8], text: &[u8]) -> Col {
    Col {
        name: name.to_vec(),
        text: text.to_vec(),
    }
}

#[test]
fn discovery_keeps_sql_files_and_skips_the_rest() {
    let entries = vec![
        entry(b"a.sql", false),
        entry(b"b.sql", false),
        entry(b"notes.txt", false),
        entry(b"sub", true),
    ];
    let Discovery { sql_paths, skipped } = discover(&entries);
    assert_eq!(sql_paths, vec![b"a.sql".to_vec(), b"b.sql".to_vec()]);
    assert_eq!(skipped, vec![b"notes.txt".to_vec()]);
}

#[test]
fn discovery_of_nothing_yields_nothing() {
    let Discovery { sql_paths, skipped } = discover(&Vec::new());
    assert!(sql_paths.is_empty());
    assert!(skipped.is_empty());
}

#[test]
fn job_keeps_the_path_prefix_in_the_sheet_label() {
    let job = Job::new(&b"./q/users.sql".to_vec(), b"SELECT 1".to_vec()).unwrap();
    assert_eq!(job.sheet, b"./q/users".to_vec());
    assert_eq!(job.sql, b"SELECT 1".to_vec());
}

#[test]
fn non_sql_filename_is_a_job_error() {
    assert_eq!(
        Job::new(&b"notes.txt".to_vec(), Vec::new()).err(),
        Some(ImporterError::Job)
    );
    assert_eq!(
        Job::new(&b".sql".to_vec(), Vec::new()).err(),
        Some(ImporterError::Job)
    );
}

#[test]
fn one_row_becomes_the_expected_parameters() {
    let job = Job::new(&b"./q/users.sql".to_vec(), b"SELECT 1 AS n, 'x' AS s".to_vec()).unwrap();
    let rows = vec![vec![col(b"n", b"1"), col(b"s", b"x")]];
    let params = job.run(&b"https://sheets.example/1".to_vec(), &rows);
    assert_eq!(params.len(), 3);
    assert_eq!(params[0], b"https://sheets.example/1".to_vec());
    assert_eq!(params[1], b"./q/users".to_vec());
    assert_eq!(params[2], b"{\"n\":\"1\",\"s\":\"x\"}".to_vec());
}

#[test]
fn zero_rows_send_the_empty_record() {
    let job = Job::new(&b"empty.sql".to_vec(), b"SELECT 1 WHERE false".to_vec()).unwrap();
    let params = job.run(&b"url".to_vec(), &Vec::new());
    assert_eq!(params[2], b"{}".to_vec());
}

#[test]
fn later_rows_overwrite_earlier_columns() {
    let job = Job::new(&b"multi.sql".to_vec(), b"SELECT k".to_vec()).unwrap();
    let rows = vec![vec![col(b"k", b"a")], vec![col(b"k", b"b")]];
    let params = job.run(&b"url".to_vec(), &rows);
    assert_eq!(params[2], b"{\"k\":\"b\"}".to_vec());
}

#[test]
fn overwritten_column_keeps_its_place() {
    let rows = vec![
        vec![col(b"a", b"1"), col(b"b", b"2")],
        vec![col(b"b", b"3")],
    ];
    let rec = build_record(&rows);
    let json = record_json(&rec);
    assert_eq!(json, b"{\"a\":\"1\",\"b\":\"3\"}".to_vec());
}

#[test]
fn record_json_escapes_text() {
    let rec = vec![col(b"q\"k", b"a\\b\nc\x1f")];
    let json = record_json(&rec);
    assert_eq!(
        json,
        b"{\"q\\\"k\":\"a\\\\b\\nc\\u001f\"}".to_vec()
    );
}

#[test]
fn importer_builds_one_job_per_sql_file() {
    let files = vec![
        SqlFile {
            path: b"./q/a.sql".to_vec(),
            contents: b"SELECT a".to_vec(),
        },
        SqlFile {
            path: b"./q/readme.md".to_vec(),
            contents: b"notes".to_vec(),
        },
        SqlFile {
            path: b"./q/b.sql".to_vec(),
            contents: b"SELECT b".to_vec(),
        },
    ];
    let imp = Importer::new(test_config(), files);
    assert_eq!(imp.jobs.len(), 2);
    assert_eq!(imp.jobs[0].sheet, b"./q/a".to_vec());
    assert_eq!(imp.jobs[0].sql, b"SELECT a".to_vec());
    assert_eq!(imp.jobs[1].sheet, b"./q/b".to_vec());
}

#[test]
fn missing_directory_means_zero_jobs() {
    let imp = Importer::new(test_config(), Vec::new());
    assert!(imp.jobs.is_empty());
}

#[test]
fn remote_failures_do_not_abort_the_run() {
    let outcomes = vec![JobOutcome::RemoteFailed, JobOutcome::RemoteSucceeded];
    let (executed, err) = fold_outcomes(&outcomes);
    assert_eq!(executed, 2);
    assert_eq!(err, None);
}

#[test]
fn database_failure_aborts_before_later_jobs() {
    let outcomes = vec![JobOutcome::DbFailed, JobOutcome::RemoteSucceeded];
    let (executed, err) = fold_outcomes(&outcomes);
    assert_eq!(executed, 1);
    assert_eq!(err, Some(ImporterError::Database));
}

#[test]
fn verdict_aborts_only_on_database_failure() {
    assert_eq!(
        job_verdict(&JobOutcome::DbFailed),
        Some(ImporterError::Database)
    );
    assert_eq!(job_verdict(&JobOutcome::RemoteFailed), None);
    assert_eq!(job_verdict(&JobOutcome::RemoteSucceeded), None);
}
