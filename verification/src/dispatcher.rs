//! What is done with one file, and what is written to the logs about it.
//!
//! A file whose extension is not in the configured set is passed over in
//! silence. Any other file is announced in the standard log, rewritten once,
//! and reported: in the standard log where the rewriting succeeded, in the
//! error log, with the reason, where it failed.

use crate::config::Config;
use crate::processor::ReplacementOutcome;
use vstd::prelude::*;
use vstd::string::StringExecFns;

verus! {

/// A file that was met in a listing, for as long as it takes to decide
/// what is done with it.
#[derive(Debug)]
pub struct FileTask {
    pub path: String,
    /// The extension of the file's name, without the dot; empty where the
    /// name has none.
    pub extension: String,
}

/// No character of `ext` is a dot.
pub open spec fn dotless(ext: Seq<char>) -> bool {
    forall|i: int| 0 <= i < ext.len() ==> ext[i] != '.'
}

/// `ext` stands in `path` right behind a dot.
pub open spec fn follows_a_dot(path: Seq<char>, ext: Seq<char>) -> bool {
    exists|i: int|
        0 <= i && i + 1 + ext.len() <= path.len() && path[i] == '.' && #[trigger] path.subrange(
            i + 1,
            i + 1 + ext.len(),
        ) == ext
}

/// `name` is the bare name of a file, as every platform reads it: it is not
/// empty, and it holds none of the characters that part a path into
/// components anywhere: slash, backslash and colon.
pub open spec fn plain_name(name: Seq<char>) -> bool {
    &&& name.len() > 0
    &&& forall|i: int|
        0 <= i < name.len() ==> name[i] != '/' && name[i] != '\\' && name[i] != ':'
}

/// The index of the last dot of `name`, or -1 where it holds none.
pub open spec fn last_dot(name: Seq<char>) -> int
    decreases name.len(),
{
    if name.len() == 0 {
        -1
    } else if name.last() == '.' {
        name.len() - 1
    } else {
        last_dot(name.drop_last())
    }
}

/// The extension of the bare file name `name`: what follows its last dot.
/// There is none where the name holds no dot, where its only dot leads it,
/// and for the name `..`.
pub open spec fn name_extension(name: Seq<char>) -> Option<Seq<char>> {
    if last_dot(name) <= 0 || name == seq!['.', '.'] {
        None
    } else {
        Some(name.skip(last_dot(name) + 1))
    }
}

/// The extension that a task is given where `found` is what was found in a
/// path: none counts as the empty extension.
pub open spec fn or_empty(found: Option<Seq<char>>) -> Seq<char> {
    match found {
        Some(ext) => ext,
        None => Seq::empty(),
    }
}

/// `std::path::Path::extension` on `path`, as a string. How a path falls
/// into components is the platform's affair. What holds everywhere is that
/// the extension is the part of the file name behind its last dot: it
/// holds no dot itself and stands in the path right behind one. A bare
/// file name is one component on every platform, so that for such a name
/// the extension is known: none where the name holds no dot, where its
/// only dot leads it, or where the name is `.` or `..`, and else what
/// follows the last dot.
#[verifier::external_body]
fn extension_of(path: &str) -> (r: Option<String>)
    ensures
        r matches Some(ext) ==> dotless(ext@) && follows_a_dot(path@, ext@),
        plain_name(path@) ==> (match name_extension(path@) {
            Some(e) => r matches Some(ext) && ext@ == e,
            None => r is None,
        }),
{
    std::path::Path::new(path).extension().map(|e| e.to_string_lossy().into_owned())
}

/// The extension that the platform finds in `path`, empty where it finds
/// none.
fn extension_or_empty(path: &str) -> (extension: String)
    ensures
        dotless(extension@),
        extension@.len() > 0 ==> follows_a_dot(path@, extension@),
        plain_name(path@) ==> extension@ == or_empty(name_extension(path@)),
{
    match extension_of(path) {
        Some(extension) => extension,
        None => String::new(),
    }
}

impl FileTask {
    /// The task for the file at `path`, with the extension that the
    /// platform finds in the path. Where the path is a bare file name, the
    /// extension is that of the name.
    pub fn from_path(path: &str) -> (task: FileTask)
        ensures
            task.path@ == path@,
            dotless(task.extension@),
            task.extension@.len() > 0 ==> follows_a_dot(path@, task.extension@),
            plain_name(path@) ==> task.extension@ == or_empty(name_extension(path@)),
    {
        FileTask { path: path.to_owned(), extension: extension_or_empty(path) }
    }

    /// The task for the file at `path` whose name, as its directory lists
    /// it, is `name`: the extension is taken from the name, so that it does
    /// not hang on how the platform parts the path.
    pub fn from_name(path: &str, name: &str) -> (task: FileTask)
        ensures
            task.path@ == path@,
            dotless(task.extension@),
            task.extension@.len() > 0 ==> follows_a_dot(name@, task.extension@),
            plain_name(name@) ==> task.extension@ == or_empty(name_extension(name@)),
    {
        FileTask { path: path.to_owned(), extension: extension_or_empty(name) }
    }
}

/// What is done with a file.
#[derive(Debug, Clone, Copy, PartialEq, Eq, Structural)]
pub enum Dispatch {
    /// The file is left alone, and no log speaks of it.
    Skip,
    /// The file is announced and rewritten.
    Process,
}

/// Decides what is done with a file: it is processed exactly if its
/// extension, as it is written, is in the configured set.
pub fn dispatch(task: &FileTask, config: &Config) -> (decision: Dispatch)
    ensures
        decision == if config.search_ext@.contains(task.extension@) {
            Dispatch::Process
        } else {
            Dispatch::Skip
        },
{
    if config.search_ext.contains(task.extension.as_str()) {
        Dispatch::Process
    } else {
        Dispatch::Skip
    }
}

/// The log that a line goes to.
#[derive(Debug, Clone, Copy, PartialEq, Eq, Structural)]
pub enum LogSink {
    /// The log of what was begun and what succeeded.
    Standard,
    /// The log of what failed.
    Error,
}

/// One line for one of the logs, without the line break that ends it.
#[derive(Debug)]
pub struct LogLine {
    pub sink: LogSink,
    pub text: String,
}

/// The line that announces the file at `path`.
pub open spec fn started_text(path: Seq<char>) -> Seq<char> {
    "処理を開始しました: "@ + path + " ..."@
}

/// The line that reports the success of the file at `path`.
pub open spec fn succeeded_text(path: Seq<char>) -> Seq<char> {
    path + " の処理を正常完了しました。"@
}

/// The line that reports the failure of the file at `path`, with its reason.
pub open spec fn failed_text(path: Seq<char>, reason: Seq<char>) -> Seq<char> {
    path
        + " は処理が正しく完了しませんでした。ファイルの文字エンコードがSJISまたはUTF-8でない可能性があります。\n    詳細な理由:"@
        + reason
}

/// The line that is written before the file at `path` is rewritten.
pub fn started_line(path: &str) -> (line: LogLine)
    ensures
        line.sink == LogSink::Standard,
        line.text@ == started_text(path@),
{
    let mut text = "処理を開始しました: ".to_owned();
    text.append(path);
    text.append(" ...");
    LogLine { sink: LogSink::Standard, text }
}

/// The line that is written once the rewriting of the file at `path` has
/// ended: a success goes to the standard log, a failure of either kind to
/// the error log, with its reason.
pub fn completed_line(path: &str, outcome: &ReplacementOutcome) -> (line: LogLine)
    ensures
        match outcome {
            ReplacementOutcome::Success => line.sink == LogSink::Standard && line.text@
                == succeeded_text(path@),
            ReplacementOutcome::DecodeFailure(reason) => line.sink == LogSink::Error && line.text@
                == failed_text(path@, reason@),
            ReplacementOutcome::IoFailure(reason) => line.sink == LogSink::Error && line.text@
                == failed_text(path@, reason@),
        },
{
    match outcome {
        ReplacementOutcome::Success => {
            let mut text = path.to_owned();
            text.append(" の処理を正常完了しました。");
            LogLine { sink: LogSink::Standard, text }
        },
        ReplacementOutcome::DecodeFailure(reason) => failed_line(path, reason.as_str()),
        ReplacementOutcome::IoFailure(reason) => failed_line(path, reason.as_str()),
    }
}

/// The line for the error log about the file at `path`.
fn failed_line(path: &str, reason: &str) -> (line: LogLine)
    ensures
        line.sink == LogSink::Error,
        line.text@ == failed_text(path@, reason@),
{
    let mut text = path.to_owned();
    text.append(
        " は処理が正しく完了しませんでした。ファイルの文字エンコードがSJISまたはUTF-8でない可能性があります。\n    詳細な理由:",
    );
    text.append(reason);
    LogLine { sink: LogSink::Error, text }
}

} // verus!
