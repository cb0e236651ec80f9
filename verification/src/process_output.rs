//! Reading what `netstat`, `tasklist` and `taskkill` print.
use vstd::prelude::*;
use vstd::string::StringExecFns;

use crate::text;

verus! {

// ---------------------------------------------------------------------------
// Bytes and case
// ---------------------------------------------------------------------------

/// What `String::from_utf8_lossy` makes of bytes.
pub uninterp spec fn lossy_utf8(bytes: Seq<u8>) -> Seq<char>;

/// What `str::to_lowercase` makes of a text.
pub uninterp spec fn lowercase_of(s: Seq<char>) -> Seq<char>;

pub open spec fn ascii_bytes(bytes: Seq<u8>) -> bool {
    forall|i: int| 0 <= i < bytes.len() ==> #[trigger] bytes[i] < 128
}

pub open spec fn ascii_text(s: Seq<char>) -> bool {
    forall|i: int| 0 <= i < s.len() ==> text::is_ascii_char(#[trigger] s[i])
}

/// `String::from_utf8_lossy`: the text that the bytes encode, with a replacement
/// character for what is not UTF-8. Seven-bit bytes are the characters of the
/// same number; beyond them the text keeps its name.
#[verifier::external_body]
fn decode_lossy(bytes: &[u8]) -> (r: String)
    ensures
        r@ == lossy_utf8(bytes@),
        ascii_bytes(bytes@) ==> r@ == bytes@.map_values(|b: u8| b as char),
{
    String::from_utf8_lossy(bytes).into_owned()
}

/// `str::to_lowercase`: the lower-case form of a text. For seven-bit text that
/// is the form of each character; beyond it the result keeps its name.
#[verifier::external_body]
fn lowercase_text(s: &str) -> (r: String)
    ensures
        r@ == lowercase_of(s@),
        ascii_text(s@) ==> r@ == s@.map_values(|c: char| text::ascii_lower(c)),
{
    s.to_lowercase()
}

// ---------------------------------------------------------------------------
// Task list
// ---------------------------------------------------------------------------

/// A line of the task list that lists a process: not blank, and not a notice.
pub open spec fn lists_process(line: Seq<char>) -> bool {
    text::trim(line).len() > 0 && !"INFO:"@.is_prefix_of(text::trim(line))
}

/// The process number in a line of comma-separated values: its second field.
pub open spec fn line_pid(line: Seq<char>) -> Option<u32> {
    let parts = text::fields(text::trim(line), ',');
    if lists_process(line) && parts.len() >= 2 {
        text::parse_u32(text::unquoted(parts[1]))
    } else {
        None
    }
}

/// The process numbers in the lines of a task list, in order.
pub open spec fn image_pids(lines: Seq<Seq<char>>) -> Seq<u32>
    decreases lines.len(),
{
    if lines.len() == 0 {
        Seq::empty()
    } else {
        match line_pid(lines.last()) {
            Some(pid) => image_pids(lines.drop_last()).push(pid),
            None => image_pids(lines.drop_last()),
        }
    }
}

/// Whether a line of the task list shows the process `pid`: in quotes anywhere,
/// or as its second field.
pub open spec fn shows_pid(line: Seq<char>, pid: u32) -> bool {
    let trimmed = text::trim(line);
    let parts = text::fields(trimmed, ',');
    &&& lists_process(line)
    &&& (text::has_substring(trimmed, seq!['"'] + text::decimal(pid as nat) + seq!['"']) || (
    parts.len() >= 2 && text::unquoted(parts[1]) == text::decimal(pid as nat)))
}

/// Whether a task list shows the process `pid`.
pub open spec fn lists_pid(lines: Seq<Seq<char>>, pid: u32) -> bool {
    exists|i: int| 0 <= i < lines.len() && #[trigger] shows_pid(lines[i], pid)
}

fn line_lists_process(trimmed: &str, Ghost(line): Ghost<Seq<char>>) -> (r: bool)
    requires
        trimmed@ == text::trim(line),
    ensures
        r == lists_process(line),
{
    trimmed.unicode_len() > 0 && !text::starts_with_text(trimmed, "INFO:")
}

fn read_line_pid(line: &str) -> (r: Option<u32>)
    ensures
        r == line_pid(line@),
{
    let trimmed = text::trim_text(line);
    if !line_lists_process(trimmed.as_str(), Ghost(line@)) {
        return None;
    }
    let parts = text::fields_of(trimmed.as_str(), ',');
    assert(text::views(parts@).len() == parts@.len());
    if parts.len() < 2 {
        return None;
    }
    let field = text::unquote_text(parts[1].as_str());
    assert(text::views(parts@)[1] == parts@[1]@);
    text::parse_u32_text(field.as_str())
}

/// The process numbers in the text of a task list.
pub fn image_pids_in(output: &str) -> (r: Vec<u32>)
    ensures
        r@ == image_pids(text::lines(output@)),
{
    let lines = text::lines_of(output);
    let ghost all = text::views(lines@);
    let mut out: Vec<u32> = Vec::new();
    let mut i: usize = 0;
    assert(out@ =~= image_pids(all.take(0)));
    while i < lines.len()
        invariant
            all == text::views(lines@),
            i <= lines@.len(),
            out@ == image_pids(all.take(i as int)),
        decreases lines@.len() - i,
    {
        assert(all.take(i + 1).drop_last() =~= all.take(i as int));
        assert(all.take(i + 1).last() == lines@[i as int]@);
        if let Some(pid) = read_line_pid(lines[i].as_str()) {
            out.push(pid);
        }
        i = i + 1;
    }
    assert(all.take(i as int) =~= all);
    out
}

/// The process numbers that `tasklist` prints for an image name.
pub fn pids_for_image_name(stdout: &[u8]) -> (r: Vec<u32>)
    ensures
        r@ == image_pids(text::lines(lossy_utf8(stdout@))),
{
    let output = decode_lossy(stdout);
    image_pids_in(output.as_str())
}

fn line_shows_pid(line: &str, pid: u32) -> (r: bool)
    ensures
        r == shows_pid(line@, pid),
{
    let trimmed = text::trim_text(line);
    if !line_lists_process(trimmed.as_str(), Ghost(line@)) {
        return false;
    }
    let digits = text::decimal_string(pid as u64);
    let mut quoted = "".to_owned();
    quoted.push('"');
    quoted.append(digits.as_str());
    quoted.push('"');
    proof {
        reveal_strlit("");
        assert(quoted@ =~= seq!['"'] + text::decimal(pid as nat) + seq!['"']);
    }
    if text::contains_text(trimmed.as_str(), quoted.as_str()) {
        return true;
    }
    let parts = text::fields_of(trimmed.as_str(), ',');
    assert(text::views(parts@).len() == parts@.len());
    if parts.len() < 2 {
        return false;
    }
    let field = text::unquote_text(parts[1].as_str());
    assert(text::views(parts@)[1] == parts@[1]@);
    text::same_text(field.as_str(), digits.as_str())
}

/// Whether the text of a task list shows the process `pid`.
pub fn lists_pid_in(output: &str, pid: u32) -> (r: bool)
    ensures
        r == lists_pid(text::lines(output@), pid),
{
    let lines = text::lines_of(output);
    let ghost all = text::views(lines@);
    let mut i: usize = 0;
    while i < lines.len()
        invariant
            all == text::views(lines@),
            all == text::lines(output@),
            i <= lines@.len(),
            forall|j: int| 0 <= j < i ==> !#[trigger] shows_pid(all[j], pid),
        decreases lines@.len() - i,
    {
        assert(all[i as int] == lines@[i as int]@);
        if line_shows_pid(lines[i].as_str(), pid) {
            assert(shows_pid(all[i as int], pid));
            return true;
        }
        i = i + 1;
    }
    false
}

/// Whether the process `pid` exists, by what `tasklist` prints. Where that could
/// not be run, the process counts as alive.
pub fn process_exists(pid: u32, stdout: Option<&[u8]>) -> (r: bool)
    ensures
        r == (stdout is None || lists_pid(text::lines(lossy_utf8(stdout->0@)), pid)),
{
    match stdout {
        None => true,
        Some(bytes) => {
            let output = decode_lossy(bytes);
            lists_pid_in(output.as_str(), pid)
        },
    }
}

// ---------------------------------------------------------------------------
// Listening sockets
// ---------------------------------------------------------------------------

/// Whether `address` stands in a line as a whole, that is not as a part of an
/// address with a longer host or port number.
pub open spec fn names_address(line: Seq<char>, address: Seq<char>) -> bool {
    exists|i: int| #[trigger] stands_whole(line, address, i)
}

/// Whether `address` stands in a line at `i`, with neither a digit nor a dot
/// before it and no further digit.
pub open spec fn stands_whole(line: Seq<char>, address: Seq<char>, i: int) -> bool {
    &&& text::occurs_at(line, address, i)
    &&& i == 0 || !(text::is_ascii_digit(line[i - 1]) || line[i - 1] == '.')
    &&& i + address.len() == line.len() || !text::is_ascii_digit(line[i + address.len()])
}

/// Whether a line shows a socket that listens on `port` of the local machine or
/// of every interface.
pub open spec fn listens_on(line: Seq<char>, port: u32) -> bool {
    let number = text::decimal(port as nat);
    &&& text::has_substring(text::upper_text(line), "LISTEN"@)
    &&& (names_address(line, "127.0.0.1:"@ + number) || names_address(line, "0.0.0.0:"@ + number)
        || names_address(line, "[::1]:"@ + number) || names_address(line, "[::]:"@ + number))
}

/// The process that a line shows listening on `port`: its last word. Number zero
/// stands for no process.
pub open spec fn listener_pid(line: Seq<char>, port: u32) -> Option<u32> {
    let words = text::words(line);
    if listens_on(line, port) && words.len() > 0 && text::parse_u32(words.last()) is Some
        && text::parse_u32(words.last())->0 != 0 {
        text::parse_u32(words.last())
    } else {
        None
    }
}

/// The processes that listen on `port`, each once, in the order of the lines.
pub open spec fn listener_pids(lines: Seq<Seq<char>>, port: u32) -> Seq<u32>
    decreases lines.len(),
{
    if lines.len() == 0 {
        Seq::empty()
    } else {
        let before = listener_pids(lines.drop_last(), port);
        match listener_pid(lines.last(), port) {
            Some(pid) => if before.contains(pid) {
                before
            } else {
                before.push(pid)
            },
            None => before,
        }
    }
}

fn line_names_address(line: &[char], address: &str) -> (r: bool)
    ensures
        r == names_address(line@, address@),
{
    let needle = text::chars_of(address);
    if needle.len() > line.len() {
        return false;
    }
    let last: usize = line.len() - needle.len();
    let mut i: usize = 0;
    loop
        invariant
            needle@ == address@,
            needle@.len() <= line@.len() <= usize::MAX,
            last == line@.len() - needle@.len(),
            i <= last,
            forall|j: int| 0 <= j < i ==> !#[trigger] stands_whole(line@, address@, j),
        decreases last - i,
    {
        let mut k: usize = 0;
        while k < needle.len() && line[i + k] == needle[k]
            invariant
                i + needle@.len() <= line@.len() <= usize::MAX,
                k <= needle@.len(),
                forall|j: int| 0 <= j < k ==> line@[i + j] == needle@[j],
            decreases needle@.len() - k,
        {
            k = k + 1;
        }
        if k == needle.len() {
            assert(line@.subrange(i as int, i + needle@.len()) =~= needle@);
            let end: usize = i + needle.len();
            let starts = i == 0 || !('0' <= line[i - 1] && line[i - 1] <= '9' || line[i - 1]
                == '.');
            if starts && (end == line.len() || !('0' <= line[end] && line[end] <= '9')) {
                assert(stands_whole(line@, address@, i as int));
                return true;
            }
        } else {
            assert(!text::occurs_at(line@, address@, i as int)) by {
                assert(line@.subrange(i as int, i + needle@.len())[k as int] == line@[i + k]);
            }
        }
        assert(!stands_whole(line@, address@, i as int));
        if i == last {
            assert(forall|j: int| #[trigger] stands_whole(line@, address@, j) ==> 0 <= j <= last);
            return false;
        }
        i = i + 1;
    }
}

fn address_on(host: &str, port: u32) -> (r: String)
    ensures
        r@ == host@ + text::decimal(port as nat),
{
    let mut out = host.to_owned();
    text::push_decimal(&mut out, port as u64);
    out
}

fn read_listener_pid(line: &str, port: u32) -> (r: Option<u32>)
    ensures
        r == listener_pid(line@, port),
{
    let upper = text::to_upper_text(line);
    if !text::contains_text(upper.as_str(), "LISTEN") {
        return None;
    }
    let chars = text::chars_of(line);
    let local = address_on("127.0.0.1:", port);
    let any = address_on("0.0.0.0:", port);
    let local6 = address_on("[::1]:", port);
    let any6 = address_on("[::]:", port);
    if !(line_names_address(&chars, local.as_str()) || line_names_address(&chars, any.as_str())
        || line_names_address(&chars, local6.as_str()) || line_names_address(
        &chars,
        any6.as_str(),
    )) {
        return None;
    }
    let words = text::words_of(&chars);
    let ghost all = text::views(words@);
    assert(all.len() == words@.len());
    if words.len() == 0 {
        return None;
    }
    assert(all.last() == words@[words@.len() - 1]@);
    match text::parse_u32_text(words[words.len() - 1].as_str()) {
        Some(pid) => if pid == 0 {
            None
        } else {
            Some(pid)
        },
        None => None,
    }
}

fn has_number(list: &[u32], n: u32) -> (r: bool)
    ensures
        r == list@.contains(n),
{
    let mut i: usize = 0;
    while i < list.len()
        invariant
            i <= list@.len(),
            forall|j: int| 0 <= j < i ==> list@[j] != n,
        decreases list@.len() - i,
    {
        if list[i] == n {
            assert(list@[i as int] == n);
            return true;
        }
        i = i + 1;
    }
    false
}

/// The processes that a table of connections shows listening on `port`.
pub fn listener_pids_in(output: &str, port: u32) -> (r: Vec<u32>)
    ensures
        r@ == listener_pids(text::lines(output@), port),
{
    let lines = text::lines_of(output);
    let ghost all = text::views(lines@);
    let mut out: Vec<u32> = Vec::new();
    let mut i: usize = 0;
    assert(out@ =~= listener_pids(all.take(0), port));
    while i < lines.len()
        invariant
            all == text::views(lines@),
            i <= lines@.len(),
            out@ == listener_pids(all.take(i as int), port),
        decreases lines@.len() - i,
    {
        assert(all.take(i + 1).drop_last() =~= all.take(i as int));
        assert(all.take(i + 1).last() == lines@[i as int]@);
        if let Some(pid) = read_listener_pid(lines[i].as_str(), port) {
            if !has_number(&out, pid) {
                out.push(pid);
            }
        }
        i = i + 1;
    }
    assert(all.take(i as int) =~= all);
    out
}

/// The processes that `netstat` shows listening on `port`.
pub fn listener_pids_on_port(stdout: &[u8], port: u32) -> (r: Vec<u32>)
    ensures
        r@ == listener_pids(text::lines(lossy_utf8(stdout@)), port),
{
    let output = decode_lossy(stdout);
    listener_pids_in(output.as_str(), port)
}

/// Whether a port has a ghost: a listening socket whose process is gone. `pids`
/// are the listeners, if they could be found out, and `live` the processes that
/// exist.
pub fn port_has_ghost_listener(pids: Option<&[u32]>, live: &[u32]) -> (r: bool)
    ensures
        r == (pids is Some && exists|i: int|
            0 <= i < pids->0@.len() && !live@.contains(#[trigger] pids->0@[i])),
{
    match pids {
        None => false,
        Some(list) => {
            let mut i: usize = 0;
            while i < list.len()
                invariant
                    pids == Some(list),
                    i <= list@.len(),
                    forall|j: int| 0 <= j < i ==> live@.contains(#[trigger] list@[j]),
                decreases list@.len() - i,
            {
                if !has_number(live, list[i]) {
                    assert(!live@.contains(pids->0@[i as int]));
                    return true;
                }
                i = i + 1;
            }
            false
        },
    }
}

// ---------------------------------------------------------------------------
// Ending a process
// ---------------------------------------------------------------------------

/// What the lower-case output of `taskkill` says: the process was ended, it was
/// not there, or neither.
pub open spec fn kill_result(success: bool, output: Seq<char>) -> Option<bool> {
    if success || text::has_substring(output, "success"@) || text::has_substring(
        output,
        "terminated"@,
    ) {
        Some(true)
    } else if text::has_substring(output, "not found"@) || text::has_substring(
        output,
        "not running"@,
    ) || text::has_substring(output, "no running instance"@) || text::has_substring(
        output,
        "could not find"@,
    ) {
        Some(false)
    } else {
        None
    }
}

/// The exit code of a process that ended by itself.
pub open spec fn exit_form(code: Option<i32>) -> Seq<char> {
    match code {
        Some(n) => "Some("@ + text::signed_decimal(n as int) + ")"@,
        None => "None"@,
    }
}

/// The error where `taskkill` says neither.
pub open spec fn kill_error(pid: u32, code: Option<i32>, output: Seq<char>) -> Seq<char> {
    "taskkill PID "@ + text::decimal(pid as nat) + " exit="@ + exit_form(code) + ": "@ + output
}

/// Reads the lower-case output of `taskkill`.
pub fn kill_result_in(success: bool, output: &str) -> (r: Option<bool>)
    ensures
        r == kill_result(success, output@),
{
    if success || text::contains_text(output, "success") || text::contains_text(
        output,
        "terminated",
    ) {
        Some(true)
    } else if text::contains_text(output, "not found") || text::contains_text(
        output,
        "not running",
    ) || text::contains_text(output, "no running instance") || text::contains_text(
        output,
        "could not find",
    ) {
        Some(false)
    } else {
        None
    }
}

/// The error where `taskkill` says neither.
pub fn kill_error_message(pid: u32, code: Option<i32>, output: &str) -> (r: String)
    ensures
        r@ == kill_error(pid, code, output@),
{
    let mut shown = "None".to_owned();
    if let Some(n) = code {
        shown = "Some(".to_owned();
        text::push_signed(&mut shown, n);
        shown.append(")");
    }
    let mut out = "taskkill PID ".to_owned();
    text::push_decimal(&mut out, pid as u64);
    out.append(" exit=");
    out.append(shown.as_str());
    out.append(": ");
    out.append(output);
    out
}

/// The output of `taskkill`, in lower case.
pub open spec fn kill_output(stdout: Seq<u8>, stderr: Seq<u8>) -> Seq<char> {
    lowercase_of(lossy_utf8(stdout)) + lowercase_of(lossy_utf8(stderr))
}

/// Whether `taskkill` ended the process `pid`, by its exit and its output;
/// `false` means that there was no such process.
pub fn taskkill_pid(
    pid: u32,
    success: bool,
    code: Option<i32>,
    stdout: &[u8],
    stderr: &[u8],
) -> (r: Result<bool, String>)
    ensures
        match (r, kill_result(success, kill_output(stdout@, stderr@))) {
            (Ok(killed), Some(expected)) => killed == expected,
            (Err(message), None) => message@ == kill_error(
                pid,
                code,
                kill_output(stdout@, stderr@),
            ),
            _ => false,
        },
{
    let out_text = decode_lossy(stdout);
    let err_text = decode_lossy(stderr);
    let mut combined = lowercase_text(out_text.as_str());
    let rest = lowercase_text(err_text.as_str());
    combined.append(rest.as_str());
    match kill_result_in(success, combined.as_str()) {
        Some(killed) => Ok(killed),
        None => Err(kill_error_message(pid, code, combined.as_str())),
    }
}

// ---------------------------------------------------------------------------
// Laws
// ---------------------------------------------------------------------------

/// Each listener is listed once, and none is process zero.
pub proof fn law_listeners_are_distinct(lines: Seq<Seq<char>>, port: u32)
    ensures
        listener_pids(lines, port).no_duplicates(),
        !listener_pids(lines, port).contains(0),
    decreases lines.len(),
{
    if lines.len() > 0 {
        law_listeners_are_distinct(lines.drop_last(), port);
    }
}

/// The listeners are the processes of the lines that show one, and no others.
pub proof fn law_listeners_are_those_shown(lines: Seq<Seq<char>>, port: u32, pid: u32)
    ensures
        listener_pids(lines, port).contains(pid) <==> exists|i: int|
            0 <= i < lines.len() && listener_pid(#[trigger] lines[i], port) == Some(pid),
    decreases lines.len(),
{
    if lines.len() > 0 {
        let rest = lines.drop_last();
        let before = listener_pids(rest, port);
        let all = listener_pids(lines, port);
        law_listeners_are_those_shown(rest, port, pid);
        if all.contains(pid) {
            let n = choose|n: int| 0 <= n < all.len() && all[n] == pid;
            if n < before.len() {
                assert(before[n] == pid);
                let i = choose|i: int|
                    0 <= i < rest.len() && listener_pid(#[trigger] rest[i], port) == Some(pid);
                assert(lines[i] == rest[i]);
            } else {
                assert(listener_pid(lines[lines.len() - 1], port) == Some(pid));
            }
        }
        if exists|i: int|
            0 <= i < lines.len() && listener_pid(#[trigger] lines[i], port) == Some(pid) {
            let i = choose|i: int|
                0 <= i < lines.len() && listener_pid(#[trigger] lines[i], port) == Some(pid);
            if i < rest.len() {
                assert(rest[i] == lines[i]);
                let n = choose|n: int| 0 <= n < before.len() && before[n] == pid;
                assert(all[n] == pid);
            } else if before.contains(pid) {
                let n = choose|n: int| 0 <= n < before.len() && before[n] == pid;
                assert(all[n] == pid);
            } else {
                assert(all[before.len() as int] == pid);
            }
        }
    }
}

/// A line that shows the state of a listener and names the port on the local machine or
/// on every interface is that of a listener on the port, wherever the address stands;
/// its last word is the process.
pub proof fn law_listener_line_is_read(before: Seq<char>, after: Seq<char>, port: u32, any: bool)
    requires
        before.len() > 0 ==> !text::is_ascii_digit(before.last()) && before.last() != '.',
        after.len() > 0 ==> !text::is_ascii_digit(after[0]),
        ({
            let address = if any {
                "0.0.0.0:"@
            } else {
                "127.0.0.1:"@
            };
            let line = before + address + text::decimal(port as nat) + after;
            text::has_substring(text::upper_text(line), "LISTEN"@)
        }),
    ensures
        ({
            let address = if any {
                "0.0.0.0:"@
            } else {
                "127.0.0.1:"@
            };
            let line = before + address + text::decimal(port as nat) + after;
            &&& listens_on(line, port)
            &&& listener_pid(line, port) is Some ==> listener_pid(line, port) == text::parse_u32(
                text::words(line).last(),
            ) && listener_pid(line, port) != Some(0u32)
        }),
{
    let address = if any {
        "0.0.0.0:"@
    } else {
        "127.0.0.1:"@
    } + text::decimal(port as nat);
    let head = if any {
        "0.0.0.0:"@
    } else {
        "127.0.0.1:"@
    };
    let line = before + head + text::decimal(port as nat) + after;
    let i = before.len() as int;
    assert(line.subrange(i, i + address.len()) =~= address);
    if i > 0 {
        assert(line[i - 1] == before.last());
    }
    if i + address.len() < line.len() {
        assert(line[i + address.len()] == after[0]);
    }
    assert(stands_whole(line, address, i));
    assert(names_address(line, address));
}

/// The processes of a task list are those of its lines, and no others.
pub proof fn law_processes_are_those_listed(lines: Seq<Seq<char>>, pid: u32)
    ensures
        image_pids(lines).contains(pid) <==> exists|i: int|
            0 <= i < lines.len() && line_pid(#[trigger] lines[i]) == Some(pid),
    decreases lines.len(),
{
    if lines.len() > 0 {
        let rest = lines.drop_last();
        let before = image_pids(rest);
        let all = image_pids(lines);
        law_processes_are_those_listed(rest, pid);
        if all.contains(pid) {
            let n = choose|n: int| 0 <= n < all.len() && all[n] == pid;
            if n < before.len() {
                assert(before[n] == pid);
                let i = choose|i: int| 0 <= i < rest.len() && line_pid(#[trigger] rest[i]) == Some(pid);
                assert(lines[i] == rest[i]);
            } else {
                assert(line_pid(lines[lines.len() - 1]) == Some(pid));
            }
        }
        if exists|i: int| 0 <= i < lines.len() && line_pid(#[trigger] lines[i]) == Some(pid) {
            let i = choose|i: int| 0 <= i < lines.len() && line_pid(#[trigger] lines[i]) == Some(pid);
            if i < rest.len() {
                assert(rest[i] == lines[i]);
                let n = choose|n: int| 0 <= n < before.len() && before[n] == pid;
                assert(all[n] == pid);
            } else {
                assert(all[before.len() as int] == pid);
            }
        }
    }
}

/// A successful exit means that the process was ended. Otherwise the output decides: a
/// success it tells of counts before a process that it did not find.
pub proof fn law_exit_counts_before_output(output: Seq<char>)
    ensures
        kill_result(true, output) == Some(true),
        text::has_substring(output, "terminated"@) || text::has_substring(output, "success"@)
            ==> kill_result(false, output) == Some(true),
        !text::has_substring(output, "terminated"@) && !text::has_substring(output, "success"@) && (
        text::has_substring(output, "not found"@) || text::has_substring(output, "not running"@))
            ==> kill_result(false, output) == Some(false),
{
}

} // verus!
