//! Splitting a shell command into a program and its arguments.
use vstd::prelude::*;
use vstd::string::StringExecFns;

use crate::text;

verus! {

// ---------------------------------------------------------------------------
// Program and arguments
// ---------------------------------------------------------------------------

/// Where a character stands first in a text, or its length.
pub open spec fn first_index(s: Seq<char>, c: char) -> int
    decreases s.len(),
{
    if s.len() == 0 || s[0] == c {
        0
    } else {
        1 + first_index(s.drop_first(), c)
    }
}

pub open spec fn has_slash(s: Seq<char>) -> bool {
    s.contains('/') || s.contains('\\')
}

/// The first `count` words as a path.
pub open spec fn leading_words(command: Seq<char>, count: int) -> Seq<char> {
    text::join(text::words(command).take(count), " "@)
}

/// The words after the first `count`, as one text.
pub open spec fn trailing_words(command: Seq<char>, count: int) -> Seq<char> {
    text::join(text::words(command).skip(count), " "@)
}

/// How many words the program path takes: the fewest that name a file, or none.
pub open spec fn program_words(command: Seq<char>, files: Seq<Seq<char>>, from: int) -> int
    decreases text::words(command).len() - from,
{
    if from >= text::words(command).len() {
        0
    } else if files.contains(leading_words(command, from + 1)) {
        from + 1
    } else {
        program_words(command, files, from + 1)
    }
}

/// What a command runs: its program and the text of its arguments.
///
/// A program in double quotes ends at the second quote. Otherwise a first word
/// without slashes is the program. Otherwise the program is the shortest run of
/// leading words that names a file, where `files` are the paths that do.
pub open spec fn parsed_command(command: Seq<char>, files: Seq<Seq<char>>) -> Result<
    (Seq<char>, Seq<char>),
    Seq<char>,
> {
    let words = text::words(command);
    if command.len() > 0 && command[0] == '"' {
        let rest = command.drop_first();
        let end = first_index(rest, '"');
        if end == rest.len() {
            Err("command doesn't have an ending `\"`."@)
        } else {
            Ok((rest.take(end), text::trim(rest.skip(end + 1))))
        }
    } else if words.len() > 0 && !has_slash(words[0]) {
        Ok((words[0], trailing_words(command, 1)))
    } else if program_words(command, files, 0) > 0 {
        let count = program_words(command, files, 0);
        Ok((leading_words(command, count), trailing_words(command, count)))
    } else {
        Err("program path is not valid."@)
    }
}

proof fn lemma_first_index(s: Seq<char>, c: char)
    ensures
        0 <= first_index(s, c) <= s.len(),
        first_index(s, c) < s.len() ==> s[first_index(s, c)] == c,
        forall|i: int| 0 <= i < first_index(s, c) ==> s[i] != c,
    decreases s.len(),
{
    if s.len() > 0 && s[0] != c {
        lemma_first_index(s.drop_first(), c);
        assert forall|i: int| 0 <= i < first_index(s, c) implies s[i] != c by {
            if i > 0 {
                assert(s.drop_first()[i - 1] == s[i]);
            }
        }
    }
}

fn word_has_slash(word: &str) -> (r: bool)
    ensures
        r == has_slash(word@),
{
    let chars = text::chars_of(word);
    let mut i: usize = 0;
    while i < chars.len()
        invariant
            chars@ == word@,
            i <= chars@.len(),
            forall|j: int| 0 <= j < i ==> chars@[j] != '/' && chars@[j] != '\\',
        decreases chars@.len() - i,
    {
        if chars[i] == '/' || chars[i] == '\\' {
            assert(word@[i as int] == chars@[i as int]);
            return true;
        }
        i = i + 1;
    }
    false
}

fn words_in(command: &str) -> (r: Vec<String>)
    ensures
        text::views(r@) == text::words(command@),
{
    let chars = text::chars_of(command);
    text::words_of(&chars)
}

fn joined_range(words: &[String], from: usize, to: usize) -> (r: String)
    requires
        from <= to <= words@.len(),
    ensures
        r@ == text::join(text::views(words@).subrange(from as int, to as int), " "@),
{
    let mut part: Vec<String> = Vec::new();
    let mut i: usize = from;
    while i < to
        invariant
            from <= i <= to <= words@.len(),
            text::views(part@) == text::views(words@).subrange(from as int, i as int),
        decreases to - i,
    {
        let ghost before = text::views(part@);
        part.push(words[i].clone());
        assert(text::views(part@) =~= before.push(words@[i as int]@));
        assert(text::views(words@)[i as int] == words@[i as int]@);
        assert(text::views(part@) =~= text::views(words@).subrange(from as int, i + 1));
        i = i + 1;
    }
    text::join_text(&part, " ")
}

/// The paths of which a command may name one as its program, in the order in
/// which they are tried: one word, two words and so on. There are none where
/// the program is found without looking at files.
pub fn candidate_program_paths(command: &str) -> (r: Vec<String>)
    ensures
        text::views(r@) == candidates(command@),
{
    let words = words_in(command);
    let chars = text::chars_of(command);
    let mut out: Vec<String> = Vec::new();
    if (chars.len() > 0 && chars[0] == '"') || (words.len() > 0 && !word_has_slash(
        words[0].as_str(),
    )) {
        assert(text::views(out@) =~= Seq::<Seq<char>>::empty());
        return out;
    }
    let mut i: usize = 0;
    while i < words.len()
        invariant
            i <= words@.len(),
            text::views(words@) == text::words(command@),
            text::views(out@) == Seq::new(i as nat, |k: int| leading_words(command@, k + 1)),
        decreases words@.len() - i,
    {
        let path = joined_range(&words, 0, i + 1);
        assert(text::words(command@).subrange(0, i + 1) =~= text::words(command@).take(i + 1));
        let ghost before = text::views(out@);
        out.push(path);
        assert(text::views(out@) =~= before.push(path@));
        assert(text::views(out@) =~= Seq::new(
            (i + 1) as nat,
            |k: int| leading_words(command@, k + 1),
        ));
        i = i + 1;
    }
    out
}

/// The paths that a command may name as its program.
pub open spec fn candidates(command: Seq<char>) -> Seq<Seq<char>> {
    let words = text::words(command);
    if (command.len() > 0 && command[0] == '"') || (words.len() > 0 && !has_slash(words[0])) {
        Seq::empty()
    } else {
        Seq::new(words.len(), |k: int| leading_words(command, k + 1))
    }
}

/// Splits a command, in which variables are already expanded, into program and
/// arguments. `files` are the paths that name files, of those that
/// [`candidate_program_paths`] gives.
pub fn parse_expanded_command(command: &str, files: &[String]) -> (r: Result<
    (String, String),
    String,
>)
    ensures
        match (r, parsed_command(command@, text::views(files@))) {
            (Ok(found), Ok(expected)) => found.0@ == expected.0 && found.1@ == expected.1,
            (Err(message), Err(expected)) => message@ == expected,
            _ => false,
        },
{
    let chars = text::chars_of(command);
    if chars.len() > 0 && chars[0] == '"' {
        let ghost rest = chars@.drop_first();
        proof {
            lemma_first_index(rest, '"');
        }
        let mut end: usize = 1;
        while end < chars.len() && chars[end] != '"'
            invariant
                1 <= end <= chars@.len(),
                rest == chars@.drop_first(),
                forall|j: int| 1 <= j < end ==> chars@[j] != '"',
            decreases chars@.len() - end,
        {
            end = end + 1;
        }
        proof {
            if first_index(rest, '"') < end - 1 {
                assert(chars@[first_index(rest, '"') + 1] == rest[first_index(rest, '"')]);
            }
            if end - 1 < first_index(rest, '"') {
                assert(rest[end - 1] == chars@[end as int]);
            }
            assert(first_index(rest, '"') == end - 1);
        }
        if end == chars.len() {
            return Err("command doesn't have an ending `\"`.".to_owned());
        }
        let program = text::string_of_range(&chars, 1, end);
        let tail = text::string_of_range(&chars, end + 1, chars.len());
        assert(chars@.subrange(1, end as int) =~= rest.take(end - 1));
        assert(chars@.subrange(end + 1, chars@.len() as int) =~= rest.skip(end as int));
        return Ok((program, text::trim_text(tail.as_str())));
    }
    let words = words_in(command);
    if words.len() > 0 && !word_has_slash(words[0].as_str()) {
        let arguments = joined_range(&words, 1, words.len());
        assert(text::views(words@).subrange(1, words@.len() as int) =~= text::words(command@).skip(1));
        assert(text::views(words@)[0] == words@[0]@);
        return Ok((words[0].clone(), arguments));
    }
    let mut i: usize = 0;
    while i < words.len()
        invariant
            i <= words@.len(),
            text::views(words@) == text::words(command@),
            !(command@.len() > 0 && command@[0] == '"'),
            text::words(command@).len() > 0 ==> has_slash(text::words(command@)[0]),
            program_words(command@, text::views(files@), 0) == program_words(
                command@,
                text::views(files@),
                i as int,
            ),
        decreases words@.len() - i,
    {
        let path = joined_range(&words, 0, i + 1);
        assert(text::words(command@).subrange(0, i + 1) =~= text::words(command@).take(i + 1));
        if text::list_contains(files, path.as_str()) {
            let arguments = joined_range(&words, i + 1, words.len());
            assert(text::views(words@).subrange(i + 1, words@.len() as int) =~= text::words(
                command@,
            ).skip(i + 1));
            return Ok((path, arguments));
        }
        i = i + 1;
    }
    Err("program path is not valid.".to_owned())
}

// ---------------------------------------------------------------------------
// Validation
// ---------------------------------------------------------------------------

/// What the `Debug` form of a text writes.
pub uninterp spec fn debug_form(s: Seq<char>) -> Seq<char>;

/// The `Debug` form of a `str`: the text in double quotes, with special
/// characters escaped. The form keeps its name.
#[verifier::external_body]
fn debug_text(s: &str) -> (r: String)
    ensures
        r@ == debug_form(s@),
{
    format!("{s:?}")
}

/// The ways in which a program cannot be run.
#[derive(Clone, Copy, Debug, PartialEq, Eq, Structural)]
pub enum ProgramFault {
    Empty,
    LeftoverQuotes,
    Malformed,
}

/// A path of nothing but slashes and white space.
pub open spec fn only_slashes(s: Seq<char>) -> bool {
    forall|i: int| 0 <= i < s.len() ==> #[trigger] s[i] == '\\' || s[i] == '/' || text::is_space(s[i])
}

/// What is wrong with a program, of which `s` is the trimmed path.
pub open spec fn program_fault(s: Seq<char>) -> Option<ProgramFault> {
    if s.len() == 0 {
        Some(ProgramFault::Empty)
    } else if s.contains('"') {
        Some(ProgramFault::LeftoverQuotes)
    } else if only_slashes(s) {
        Some(ProgramFault::Malformed)
    } else {
        None
    }
}

/// The error for a program that cannot be run; `shown` is the `Debug` form of
/// its trimmed path.
pub open spec fn fault_message(
    fault: ProgramFault,
    original: Seq<char>,
    shown: Seq<char>,
) -> Seq<char> {
    let head = "Shell exec failed for '"@ + original + "': "@;
    match fault {
        ProgramFault::Empty => head + "program path is empty."@,
        ProgramFault::LeftoverQuotes => head + "program path contains leftover quotes ("@ + shown
            + ")."@,
        ProgramFault::Malformed => head + "program path is malformed ("@ + shown + ")."@,
    }
}

/// Finds what is wrong with a program.
pub fn find_program_fault(program: &str) -> (r: Option<ProgramFault>)
    ensures
        r == program_fault(text::trim(program@)),
{
    let trimmed = text::trim_text(program);
    let chars = text::chars_of(trimmed.as_str());
    let ghost s = chars@;
    if chars.len() == 0 {
        return Some(ProgramFault::Empty);
    }
    let mut bare = true;
    let mut i: usize = 0;
    while i < chars.len()
        invariant
            chars@ == s,
            s == text::trim(program@),
            s.len() > 0,
            i <= s.len(),
            forall|j: int| 0 <= j < i ==> s[j] != '"',
            bare == (forall|j: int|
                0 <= j < i ==> #[trigger] s[j] == '\\' || s[j] == '/' || text::is_space(s[j])),
        decreases s.len() - i,
    {
        let c = chars[i];
        if c == '"' {
            assert(s[i as int] == '"');
            return Some(ProgramFault::LeftoverQuotes);
        }
        if !(c == '\\' || c == '/' || c.is_whitespace()) {
            bare = false;
        }
        i = i + 1;
    }
    if bare {
        Some(ProgramFault::Malformed)
    } else {
        None
    }
}

/// The error for a program that cannot be run.
pub fn program_fault_message(fault: ProgramFault, original: &str, shown: &str) -> (r: String)
    ensures
        r@ == fault_message(fault, original@, shown@),
{
    let mut out = "Shell exec failed for '".to_owned();
    out.append(original);
    out.append("': ");
    match fault {
        ProgramFault::Empty => {
            out.append("program path is empty.");
        },
        ProgramFault::LeftoverQuotes => {
            out.append("program path contains leftover quotes (");
            out.append(shown);
            out.append(").");
        },
        ProgramFault::Malformed => {
            out.append("program path is malformed (");
            out.append(shown);
            out.append(").");
        },
    }
    out
}

/// Rejects a program that is empty, holds quotes or consists of slashes, which
/// the shell would read as the path of a network share.
pub fn validate_shell_program(program: &str, original: &str) -> (r: Result<(), String>)
    ensures
        match (r, program_fault(text::trim(program@))) {
            (Ok(()), None) => true,
            (Err(message), Some(fault)) => message@ == fault_message(
                fault,
                original@,
                debug_form(text::trim(program@)),
            ),
            _ => false,
        },
{
    match find_program_fault(program) {
        None => Ok(()),
        Some(fault) => {
            let trimmed = text::trim_text(program);
            let shown = debug_text(trimmed.as_str());
            Err(program_fault_message(fault, original, shown.as_str()))
        },
    }
}

// ---------------------------------------------------------------------------
// The command
// ---------------------------------------------------------------------------

/// Finds what to run for `command`, of which `expanded` is the form with
/// variables replaced and `files` the candidates that name files: the program
/// and the text of its arguments.
pub fn shell_exec(command: &str, expanded: &str, files: &[String]) -> (r: Result<
    (String, String),
    String,
>)
    ensures
        match (r, parsed_command(expanded@, text::views(files@))) {
            (Ok(run), Ok(parsed)) => {
                &&& run.0@ == parsed.0
                &&& run.1@ == parsed.1
                &&& program_fault(text::trim(parsed.0)) is None
            },
            (Err(message), Ok(parsed)) => {
                &&& program_fault(text::trim(parsed.0)) is Some
                &&& message@ == fault_message(
                    program_fault(text::trim(parsed.0))->0,
                    command@,
                    debug_form(text::trim(parsed.0)),
                )
            },
            (Err(message), Err(error)) => message@ == "Shell exec failed for '"@ + command@ + "': "@
                + error,
            _ => false,
        },
{
    match parse_expanded_command(expanded, files) {
        Err(error) => {
            let mut out = "Shell exec failed for '".to_owned();
            out.append(command);
            out.append("': ");
            out.append(error.as_str());
            Err(out)
        },
        Ok((program, arguments)) => match validate_shell_program(program.as_str(), command) {
            Err(message) => Err(message),
            Ok(()) => Ok((program, arguments)),
        },
    }
}

/// The error where the program could not be started.
pub fn spawn_failed_message(command: &str, error: &str) -> (r: String)
    ensures
        r@ == "Shell exec failed for '"@ + command@
            + "'. Make sure the program exists and is accessible from your shell. Error: "@
            + error@,
{
    let mut out = "Shell exec failed for '".to_owned();
    out.append(command);
    out.append("'. Make sure the program exists and is accessible from your shell. Error: ");
    out.append(error);
    out
}

// ---------------------------------------------------------------------------
// Laws
// ---------------------------------------------------------------------------

/// A program given in quotes is the text between them: no quote is left in it.
pub proof fn law_quoted_program_holds_no_quote(command: Seq<char>, files: Seq<Seq<char>>)
    requires
        command.len() > 0 && command[0] == '"',
        parsed_command(command, files) is Ok,
    ensures
        !parsed_command(command, files)->Ok_0.0.contains('"'),
        ({
            let program = parsed_command(command, files)->Ok_0.0;
            command.take((program.len() + 2) as int) == seq!['"'] + program + seq!['"']
        }),
{
    let rest = command.drop_first();
    lemma_first_index(rest, '"');
    let end = first_index(rest, '"');
    let program = rest.take(end);
    assert forall|i: int| 0 <= i < program.len() implies program[i] != '"' by {
        assert(program[i] == rest[i]);
    }
    assert(rest[end] == command[end + 1]);
    assert(command.take((program.len() + 2) as int) =~= seq!['"'] + program + seq!['"']);
}

proof fn lemma_join_split(words: Seq<Seq<char>>, k: int)
    requires
        0 < k < words.len(),
    ensures
        text::join(words, " "@) == text::join(words.take(k), " "@) + " "@ + text::join(
            words.skip(k),
            " "@,
        ),
    decreases words.len(),
{
    let init = words.drop_last();
    if k == words.len() - 1 {
        assert(words.take(k) =~= init);
        assert(words.skip(k) =~= seq![words.last()]);
    } else {
        lemma_join_split(init, k);
        assert(init.take(k) =~= words.take(k));
        assert(words.skip(k).drop_last() =~= init.skip(k));
        assert(text::join(words, " "@) =~= text::join(words.take(k), " "@) + " "@ + text::join(
            words.skip(k),
            " "@,
        ));
    }
}

proof fn lemma_program_words(command: Seq<char>, files: Seq<Seq<char>>, from: int)
    requires
        0 <= from,
    ensures
        0 <= program_words(command, files, from) <= text::words(command).len(),
    decreases text::words(command).len() - from,
{
    if from < text::words(command).len() && !files.contains(leading_words(command, from + 1)) {
        lemma_program_words(command, files, from + 1);
    }
}

/// No word of a command without quotes is lost or moved: program and arguments
/// together are its words.
pub proof fn law_no_word_is_lost(command: Seq<char>, files: Seq<Seq<char>>)
    requires
        !(command.len() > 0 && command[0] == '"'),
        parsed_command(command, files) is Ok,
    ensures
        ({
            let (program, arguments) = parsed_command(command, files)->Ok_0;
            ||| text::join(text::words(command), " "@) == program + " "@ + arguments
            ||| text::join(text::words(command), " "@) == program && arguments.len() == 0
        }),
{
    let words = text::words(command);
    let count = if !has_slash(words[0]) {
        1
    } else {
        program_words(command, files, 0)
    };
    lemma_program_words(command, files, 0);
    assert(words.take(1) =~= seq![words[0]]);
    assert(leading_words(command, 1) == words[0]);
    if count < words.len() {
        lemma_join_split(words, count);
    } else {
        assert(words.take(count) =~= words);
        assert(words.skip(count) =~= Seq::empty());
    }
}

/// Only candidates decide: files that are not among them change nothing.
pub proof fn law_only_candidates_matter(
    command: Seq<char>,
    files: Seq<Seq<char>>,
    others: Seq<Seq<char>>,
)
    requires
        forall|i: int|
            0 <= i < candidates(command).len() ==> files.contains(
                #[trigger] candidates(command)[i],
            ) == others.contains(candidates(command)[i]),
    ensures
        parsed_command(command, files) == parsed_command(command, others),
{
    let words = text::words(command);
    if !(command.len() > 0 && command[0] == '"') && !(words.len() > 0 && !has_slash(words[0])) {
        lemma_same_program_words(command, files, others, 0);
    }
}

proof fn lemma_same_program_words(
    command: Seq<char>,
    files: Seq<Seq<char>>,
    others: Seq<Seq<char>>,
    from: int,
)
    requires
        0 <= from,
        candidates(command).len() == text::words(command).len(),
        forall|i: int|
            0 <= i < candidates(command).len() ==> #[trigger] candidates(command)[i]
                == leading_words(command, i + 1),
        forall|i: int|
            0 <= i < candidates(command).len() ==> files.contains(
                #[trigger] candidates(command)[i],
            ) == others.contains(candidates(command)[i]),
    ensures
        program_words(command, files, from) == program_words(command, others, from),
    decreases text::words(command).len() - from,
{
    if from < text::words(command).len() {
        assert(candidates(command)[from] == leading_words(command, from + 1));
        lemma_same_program_words(command, files, others, from + 1);
    }
}

/// A program in quotes is what stands between them, and its arguments are the rest
/// without the white space around it.
pub proof fn law_quoted_program_is_found(program: Seq<char>, rest: Seq<char>, files: Seq<Seq<char>>)
    requires
        !program.contains('"'),
    ensures
        parsed_command(seq!['"'] + program + seq!['"'] + rest, files) == Ok::<
            (Seq<char>, Seq<char>),
            Seq<char>,
        >((program, text::trim(rest))),
{
    let command = seq!['"'] + program + seq!['"'] + rest;
    let tail = command.drop_first();
    lemma_first_index(tail, '"');
    let end = first_index(tail, '"');
    let n = program.len() as int;
    assert(tail[n] == '"');
    if end < n {
        assert(tail[end] == program[end]);
    }
    assert(end == n);
    assert(tail.take(end) =~= program);
    assert(tail.skip(end + 1) =~= rest);
}

/// A program that is given as a path without quotes is the shortest run of leading
/// words that names a file, and the other words are its arguments.
pub proof fn law_program_is_the_shortest_file(command: Seq<char>, files: Seq<Seq<char>>)
    requires
        !(command.len() > 0 && command[0] == '"'),
        text::words(command).len() > 0,
        text::words(command)[0].contains('/') || text::words(command)[0].contains('\\'),
    ensures
        match parsed_command(command, files) {
            Ok((program, arguments)) => files.contains(program) && exists|k: int| #[trigger]
                is_shortest_file(command, files, k) && program == text::join(
                    text::words(command).take(k),
                    " "@,
                ) && arguments == text::join(text::words(command).skip(k), " "@),
            Err(_) => forall|k: int|
                0 < k <= text::words(command).len() ==> !files.contains(
                    text::join(#[trigger] text::words(command).take(k), " "@),
                ),
        },
{
    lemma_shortest_file(command, files, 0);
    lemma_program_words(command, files, 0);
    let count = program_words(command, files, 0);
    if count > 0 {
        assert(is_shortest_file(command, files, count));
        assert(parsed_command(command, files) == Ok::<(Seq<char>, Seq<char>), Seq<char>>(
            (leading_words(command, count), trailing_words(command, count)),
        ));
    }
}

/// Whether the first `k` words name a file and fewer do not.
pub open spec fn is_shortest_file(command: Seq<char>, files: Seq<Seq<char>>, k: int) -> bool {
    &&& 0 < k <= text::words(command).len()
    &&& files.contains(text::join(text::words(command).take(k), " "@))
    &&& forall|j: int|
        0 < j < k ==> !files.contains(text::join(#[trigger] text::words(command).take(j), " "@))
}

proof fn lemma_shortest_file(command: Seq<char>, files: Seq<Seq<char>>, from: int)
    requires
        0 <= from <= text::words(command).len(),
        forall|j: int|
            0 < j <= from ==> !files.contains(
                text::join(#[trigger] text::words(command).take(j), " "@),
            ),
    ensures
        ({
            let count = program_words(command, files, from);
            &&& count > 0 ==> is_shortest_file(command, files, count)
            &&& count == 0 ==> forall|j: int|
                0 < j <= text::words(command).len() ==> !files.contains(
                    text::join(#[trigger] text::words(command).take(j), " "@),
                )
        }),
    decreases text::words(command).len() - from,
{
    if from < text::words(command).len() && !files.contains(leading_words(command, from + 1)) {
        lemma_shortest_file(command, files, from + 1);
    }
}

/// A first word without slashes is the program, whatever files there are.
pub proof fn law_plain_word_is_the_program(command: Seq<char>, files: Seq<Seq<char>>)
    requires
        !(command.len() > 0 && command[0] == '"'),
        text::words(command).len() > 0,
        !text::words(command)[0].contains('/'),
        !text::words(command)[0].contains('\\'),
    ensures
        parsed_command(command, files) == Ok::<(Seq<char>, Seq<char>), Seq<char>>(
            (text::words(command)[0], text::join(text::words(command).skip(1), " "@)),
        ),
{
}

/// A program can be run if there is one, without quotes, with something in it besides
/// slashes and white space.
pub proof fn law_only_real_programs_run(s: Seq<char>)
    ensures
        program_fault(s) is None <==> s.len() > 0 && !s.contains('"') && exists|i: int|
            0 <= i < s.len() && #[trigger] s[i] != '/' && s[i] != '\\' && !text::is_space(s[i]),
        s.len() == 0 <==> program_fault(s) == Some(ProgramFault::Empty),
        s.contains('"') <==> program_fault(s) == Some(ProgramFault::LeftoverQuotes),
{
}

} // verus!
