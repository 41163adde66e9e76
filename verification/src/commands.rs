use vstd::prelude::*;

use crate::strings::{chars_of, same_chars, string_of};
use crate::text::extend_chars;

verus! {

/// What opening or saving a workbook file answers.
pub struct FileOpenResult {
    pub success: bool,
    pub path: Option<String>,
    pub error: Option<String>,
}

/// What the desktop application reports about the machine it runs on.
pub struct SystemInfo {
    pub os: String,
    pub arch: String,
    pub memory_mb: u64,
}

/// Why saving a workbook failed, with the system's message.
pub enum SaveFailure {
    /// The file could not be created.
    Create(String),
    /// The file was created but the data could not be written.
    Write(String),
}

/// The file extensions of workbooks.
pub open spec fn workbook_extension(ext: Option<String>) -> bool {
    match ext {
        Some(e) => e@ == "xlsx"@ || e@ == "icalc"@,
        None => false,
    }
}

/// A failed answer with the message `m`.
pub open spec fn failed_with(r: FileOpenResult, m: Seq<char>) -> bool {
    &&& !r.success
    &&& r.path is None
    &&& r.error matches Some(e) && e@ == m
}

/// A successful answer for `path`.
pub open spec fn succeeded_for(r: FileOpenResult, path: Seq<char>) -> bool {
    &&& r.success
    &&& r.path matches Some(p) && p@ == path
    &&& r.error is None
}

fn text_plus(prefix: &str, rest: &str) -> (r: String)
    ensures
        r@ == prefix@ + rest@,
{
    let mut v = chars_of(prefix);
    let w = chars_of(rest);
    extend_chars(&mut v, &w);
    string_of(&v)
}

fn is_workbook_extension(ext: &Option<String>) -> (b: bool)
    ensures
        b == workbook_extension(*ext),
{
    match ext {
        Some(e) => {
            let have = chars_of(e.as_str());
            let xlsx = chars_of("xlsx");
            let icalc = chars_of("icalc");
            same_chars(&have, &xlsx) || same_chars(&have, &icalc)
        },
        None => false,
    }
}

/// The answer to opening the workbook at `path`, given whether the file
/// exists and its extension: a missing file, or one that is neither `.xlsx`
/// nor `.icalc`, fails with a message; otherwise the path is accepted.
pub fn open_xlsx_file(path: String, exists: bool, extension: Option<String>) -> (r: FileOpenResult)
    ensures
        !exists ==> failed_with(r, "File not found: "@ + path@),
        exists && workbook_extension(extension) ==> succeeded_for(r, path@),
        exists && !workbook_extension(extension) ==> failed_with(
            r,
            "Invalid file type. Expected .xlsx or .icalc"@,
        ),
{
    if !exists {
        let message = text_plus("File not found: ", path.as_str());
        return FileOpenResult { success: false, path: None, error: Some(message) };
    }
    if is_workbook_extension(&extension) {
        FileOpenResult { success: true, path: Some(path), error: None }
    } else {
        FileOpenResult {
            success: false,
            path: None,
            error: Some("Invalid file type. Expected .xlsx or .icalc".to_owned()),
        }
    }
}

/// The answer to saving a workbook at `path`, given how the writing went:
/// success with the path, or a failure whose message says which step failed
/// and why.
pub fn save_xlsx_file(path: String, outcome: Result<(), SaveFailure>) -> (r: FileOpenResult)
    ensures
        match outcome {
            Ok(()) => succeeded_for(r, path@),
            Err(SaveFailure::Create(m)) => failed_with(r, "Failed to create file: "@ + m@),
            Err(SaveFailure::Write(m)) => failed_with(r, "Failed to write file: "@ + m@),
        },
{
    match outcome {
        Ok(()) => FileOpenResult { success: true, path: Some(path), error: None },
        Err(SaveFailure::Create(m)) => {
            let message = text_plus("Failed to create file: ", m.as_str());
            FileOpenResult { success: false, path: None, error: Some(message) }
        },
        Err(SaveFailure::Write(m)) => {
            let message = text_plus("Failed to write file: ", m.as_str());
            FileOpenResult { success: false, path: None, error: Some(message) }
        },
    }
}

/// The system information for the operating system and architecture given;
/// the memory size is not measured and reads zero.
pub fn get_system_info(os: String, arch: String) -> (r: SystemInfo)
    ensures
        r.os@ == os@,
        r.arch@ == arch@,
        r.memory_mb == 0,
{
    SystemInfo { os, arch, memory_mb: 0 }
}

} // verus!
