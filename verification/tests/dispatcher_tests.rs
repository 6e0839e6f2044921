use signature_scrubber::config::Config;
use signature_scrubber::dirwalker::{DirEntryInfo, DirectoryWalker};
use signature_scrubber::dispatcher::{
    completed_line, dispatch, started_line, Dispatch, FileTask, LogSink,
};
use signature_scrubber::limiter::WalkStep;
use signature_scrubber::processor::{replace_stream, ReplacementOutcome};

fn task(path: &str, extension: &str) -> FileTask {
    FileTask { path: path.to_string(), extension: extension.to_string() }
}

#[test]
fn file_with_listed_extension_is_processed() {
    let config = Config::default();
    assert_eq!(dispatch(&task("a.txt", "txt"), &config), Dispatch::Process);
    assert_eq!(dispatch(&task("a.res", "res"), &config), Dispatch::Process);
    assert_eq!(dispatch(&task("a.req", "req"), &config), Dispatch::Process);
}

#[test]
fn file_with_other_extension_is_skipped() {
    let config = Config::default();
    assert_eq!(dispatch(&task("b.bin", "bin"), &config), Dispatch::Skip);
    assert_eq!(dispatch(&task("noext", ""), &config), Dispatch::Skip);
    assert_eq!(dispatch(&task("a.txt.bak", "bak"), &config), Dispatch::Skip);
}

#[test]
fn extension_is_matched_case_sensitively() {
    let config = Config::default();
    assert_eq!(dispatch(&task("A.TXT", "TXT"), &config), Dispatch::Skip);
    assert_eq!(dispatch(&task("a.Txt", "Txt"), &config), Dispatch::Skip);
}

#[test]
fn dispatch_goes_by_the_extension_not_the_path() {
    let config = Config::default();
    assert_eq!(dispatch(&task("whatever", "txt"), &config), Dispatch::Process);
    assert_eq!(dispatch(&task("a.txt", "bin"), &config), Dispatch::Skip);
}

#[test]
fn file_task_takes_the_extension_from_the_path() {
    let t = FileTask::from_path("dir/a.txt");
    assert_eq!(t.path, "dir/a.txt");
    assert_eq!(t.extension, "txt");
    assert_eq!(FileTask::from_path("dir/archive.tar.gz").extension, "gz");
    assert_eq!(FileTask::from_path("dir.d/noext").extension, "");
    assert_eq!(FileTask::from_path(".hidden").extension, "");
    assert_eq!(FileTask::from_path("UPPER.TXT").extension, "TXT");
    assert_eq!(FileTask::from_path("").extension, "");
}

#[test]
fn started_line_names_the_file() {
    let line = started_line("dir/a.txt");
    assert_eq!(line.sink, LogSink::Standard);
    assert_eq!(line.text, "処理を開始しました: dir/a.txt ...");
}

#[test]
fn success_is_reported_in_the_standard_log() {
    let line = completed_line("dir/a.txt", &ReplacementOutcome::Success);
    assert_eq!(line.sink, LogSink::Standard);
    assert_eq!(line.text, "dir/a.txt の処理を正常完了しました。");
}

#[test]
fn decode_failure_is_reported_in_the_error_log() {
    let outcome = ReplacementOutcome::DecodeFailure("invalid utf-8".to_string());
    let line = completed_line("dir/a.txt", &outcome);
    assert_eq!(line.sink, LogSink::Error);
    assert_eq!(
        line.text,
        "dir/a.txt は処理が正しく完了しませんでした。ファイルの文字エンコードがSJISまたはUTF-8でない可能性があります。\n    詳細な理由:invalid utf-8"
    );
}

#[test]
fn io_failure_is_reported_in_the_error_log() {
    let outcome = ReplacementOutcome::IoFailure("permission denied".to_string());
    let line = completed_line("x.txt", &outcome);
    assert_eq!(line.sink, LogSink::Error);
    assert!(line.text.starts_with("x.txt は処理が正しく完了しませんでした。"));
    assert!(line.text.ends_with("詳細な理由:permission denied"));
}

#[test]
fn one_matching_file_and_one_foreign_file() {
    // A directory with `a.txt`, which holds the signature, and `b.bin`,
    // whose extension is not listed.
    let mut config = Config::default();
    config.replace_str = "REPLACEMENT".to_string();
    let signature = "SIGNATURE";
    let a_txt = b"prefix SIGNATURE suffix".to_vec();
    let b_bin = vec![0u8, 0xff, 0xfe, b'S', b'I', b'G', 0x0d, 0x80];
    let read = |path: &str| -> Vec<u8> {
        if path == "root/a.txt" { a_txt.clone() } else { b_bin.clone() }
    };

    let mut dw = DirectoryWalker::new("root", 100).unwrap();
    let mut standard_log: Vec<String> = Vec::new();
    let mut error_log: Vec<String> = Vec::new();
    let mut written: Vec<(String, Vec<u8>)> = Vec::new();
    while let Some(_next) = dw.pop() {
        let listing = vec![
            DirEntryInfo { path: "root/a.txt".to_string(), is_dir: false },
            DirEntryInfo { path: "root/b.bin".to_string(), is_dir: false },
        ];
        for step in dw.dir_walk_async(&listing) {
            let path = match step {
                WalkStep::Spawn(path) => path,
                WalkStep::AwaitOne => continue,
            };
            let task = FileTask::from_path(&path);
            if dispatch(&task, &config) == Dispatch::Skip {
                continue;
            }
            standard_log.push(started_line(&path).text);
            let outcome = match replace_stream(&read(&path), signature, &config.replace_str) {
                Ok(bytes) => {
                    written.push((path.clone(), bytes));
                    ReplacementOutcome::Success
                }
                Err(e) => ReplacementOutcome::DecodeFailure(e.reason),
            };
            let line = completed_line(&path, &outcome);
            match line.sink {
                LogSink::Standard => standard_log.push(line.text),
                LogSink::Error => error_log.push(line.text),
            }
        }
    }
    assert_eq!(written, vec![("root/a.txt".to_string(), b"prefix REPLACEMENT suffix".to_vec())]);
    assert_eq!(
        standard_log,
        vec![
            "処理を開始しました: root/a.txt ...".to_string(),
            "root/a.txt の処理を正常完了しました。".to_string(),
        ]
    );
    assert!(error_log.is_empty());
    assert!(standard_log.iter().all(|l| !l.contains("b.bin")));
}

#[test]
fn extension_of_a_bare_name_is_what_follows_its_last_dot() {
    assert_eq!(FileTask::from_path("a.txt").extension, "txt");
    assert_eq!(FileTask::from_path("a.b.c").extension, "c");
    assert_eq!(FileTask::from_path("a.").extension, "");
    assert_eq!(FileTask::from_path("a..b").extension, "b");
    assert_eq!(FileTask::from_path("..a").extension, "a");
    assert_eq!(FileTask::from_path(".a.b").extension, "b");
    assert_eq!(FileTask::from_path("...").extension, "");
    assert_eq!(FileTask::from_path("日本語.テキスト").extension, "テキスト");
    assert_eq!(FileTask::from_path("a b.t x").extension, "t x");
}

#[test]
fn bare_name_without_an_inner_dot_has_no_extension() {
    for name in ["README", ".hidden", ".", "..", "x"] {
        assert_eq!(FileTask::from_path(name).extension, "", "{:?}", name);
    }
}

#[test]
fn file_task_from_name_takes_the_extension_from_the_name() {
    let t = FileTask::from_name("root/a.txt", "a.txt");
    assert_eq!(t.path, "root/a.txt");
    assert_eq!(t.extension, "txt");
    let t = FileTask::from_name("root.d/README", "README");
    assert_eq!(t.path, "root.d/README");
    assert_eq!(t.extension, "");
    assert_eq!(FileTask::from_name("x/.hidden", ".hidden").extension, "");
    assert_eq!(FileTask::from_name("x/archive.tar.gz", "archive.tar.gz").extension, "gz");
}

#[test]
fn listed_file_is_processed_and_unlisted_file_is_skipped_by_name() {
    let config = Config::default();
    assert_eq!(dispatch(&FileTask::from_name("root/a.txt", "a.txt"), &config), Dispatch::Process);
    assert_eq!(dispatch(&FileTask::from_name("root/README", "README"), &config), Dispatch::Skip);
    assert_eq!(dispatch(&FileTask::from_name("root/a.TXT", "a.TXT"), &config), Dispatch::Skip);
    assert_eq!(dispatch(&FileTask::from_name("root/txt", "txt"), &config), Dispatch::Skip);
}
