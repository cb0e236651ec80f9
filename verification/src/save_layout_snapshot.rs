//! Snapshots in files and on the clipboard.
use vstd::prelude::*;
use vstd::string::StringExecFns;

use crate::ipc::FileWrite;
use crate::layout_snapshot::LayoutSnapshot;
use crate::text;

verus! {

/// Why a snapshot file gave no snapshot.
#[derive(Clone, Copy, Debug, PartialEq, Eq, Structural)]
pub enum SnapshotFileError {
    Unreadable,
    /// The file does not hold a snapshot.
    Unparsable,
}

/// The error for a snapshot file.
pub open spec fn file_error(path: Seq<char>, error: SnapshotFileError) -> Seq<char> {
    match error {
        SnapshotFileError::Unreadable => "Failed to read "@ + path,
        SnapshotFileError::Unparsable => "Failed to parse "@ + path,
    }
}

/// Takes in what was read from the file `path`.
pub fn read_layout_snapshot_file(
    path: &str,
    file: Result<LayoutSnapshot, SnapshotFileError>,
) -> (r: Result<LayoutSnapshot, String>)
    ensures
        match (file, r) {
            (Ok(snapshot), Ok(read)) => read == snapshot,
            (Err(error), Err(message)) => message@ == file_error(path@, error),
            _ => false,
        },
{
    match file {
        Ok(snapshot) => Ok(snapshot),
        Err(SnapshotFileError::Unreadable) => {
            let mut out = "Failed to read ".to_owned();
            out.append(path);
            Err(out)
        },
        Err(SnapshotFileError::Unparsable) => {
            let mut out = "Failed to parse ".to_owned();
            out.append(path);
            Err(out)
        },
    }
}

/// The error where a snapshot could not be written.
pub fn write_failed_message(path: &str) -> (r: String)
    ensures
        r@ == "Failed to write "@ + path@,
{
    let mut out = "Failed to write ".to_owned();
    out.append(path);
    out
}

/// What to write after the user picked a file; nothing if they did not.
pub fn save_layout_snapshot_with_dialog(picked: Option<String>, json: String) -> (r: Option<
    FileWrite,
>)
    ensures
        r == match picked {
            Some(path) => Some(FileWrite { path, contents: json }),
            None => None,
        },
{
    match picked {
        Some(path) => Some(FileWrite { path, contents: json }),
        None => None,
    }
}

/// Why the clipboard did not take a text.
#[derive(Clone, Copy, Debug, PartialEq, Eq, Structural)]
pub enum ClipboardError {
    NotOpened,
    NotSet,
}

/// Takes in whether the clipboard took the snapshot `json`: the message for the
/// user, which counts bytes, or the error.
pub fn copy_layout_snapshot_to_clipboard(
    json: &str,
    clipboard: Result<(), ClipboardError>,
) -> (r: Result<String, String>)
    ensures
        match (clipboard, r) {
            (Ok(()), Ok(message)) => message@ == "Copied layout snapshot to clipboard ("@
                + text::decimal(vstd::utf8::encode_utf8(json@).len() as usize as nat) + " bytes)."@,
            (Err(ClipboardError::NotOpened), Err(message)) => message@
                == "Failed to open system clipboard."@,
            (Err(ClipboardError::NotSet), Err(message)) => message@ == "Failed to set clipboard text."@,
            _ => false,
        },
{
    match clipboard {
        Ok(()) => {
            let mut out = "Copied layout snapshot to clipboard (".to_owned();
            text::push_decimal(&mut out, json.len() as u64);
            out.append(" bytes).");
            Ok(out)
        },
        Err(ClipboardError::NotOpened) => Err("Failed to open system clipboard.".to_owned()),
        Err(ClipboardError::NotSet) => Err("Failed to set clipboard text.".to_owned()),
    }
}

/// The snapshot text on the clipboard, without white space around it. Text that
/// does not begin like an object is refused.
pub fn clipboard_snapshot_text(content: &str) -> (r: Result<String, String>)
    ensures
        ({
            let trimmed = text::trim(content@);
            match r {
                Ok(kept) => trimmed.len() > 0 && trimmed[0] == '{' && kept@ == trimmed,
                Err(message) => !(trimmed.len() > 0 && trimmed[0] == '{') && message@
                    == "Clipboard does not look like layout snapshot JSON (expected '{')."@,
            }
        }),
{
    let trimmed = text::trim_text(content);
    let chars = text::chars_of(trimmed.as_str());
    if chars.len() > 0 && chars[0] == '{' {
        Ok(trimmed)
    } else {
        Err("Clipboard does not look like layout snapshot JSON (expected '{').".to_owned())
    }
}

/// The name of the file through which a clipboard snapshot reaches the server,
/// for the process `pid`.
pub fn clipboard_file_name(pid: u32) -> (r: String)
    ensures
        r@ == "glazewm-clipboard-layout-"@ + text::decimal(pid as nat) + ".json"@,
{
    let mut out = "glazewm-clipboard-layout-".to_owned();
    text::push_decimal(&mut out, pid as u64);
    out.append(".json");
    out
}

} // verus!
