//! Quoting and splitting of IPC messages.
//!
//! A message is one line of text that carries an argument list. Arguments with
//! white space travel inside double quotes; a double quote inside an argument
//! is written `\"`. Any other backslash stands for itself, so that paths such
//! as `C:\temp` need no escaping.
use crate::text;
use vstd::prelude::*;
use vstd::string::StringExecFns;

verus! {

/// The message opened a double quote and never closed it.
#[derive(Clone, Copy, Debug, PartialEq, Eq, Structural)]
pub struct UnclosedQuote;

impl UnclosedQuote {
    /// The message shown to the user.
    pub fn message(&self) -> (r: String)
        ensures
            r@ == "Unclosed double-quote in IPC message."@,
    {
        "Unclosed double-quote in IPC message.".to_owned()
    }
}

/// A message that could not be turned into an argument list.
#[derive(Debug, PartialEq, Eq)]
pub struct TokenizeError {
    /// The message as it was received.
    pub ipc_message: String,
    pub cause: UnclosedQuote,
}

impl TokenizeError {
    /// The message shown to the user.
    pub fn message(&self) -> (r: String)
        ensures
            r@ == "Failed to tokenize IPC message: "@ + self.ipc_message@,
    {
        let mut out = "Failed to tokenize IPC message: ".to_owned();
        out.append(self.ipc_message.as_str());
        out
    }
}

// ---------------------------------------------------------------------------
// Quoting
// ---------------------------------------------------------------------------

/// Whether an argument has to be quoted: it is empty, or it holds white space
/// or a double quote.
pub open spec fn needs_quotes(arg: Seq<char>) -> bool {
    arg.len() == 0 || exists|i: int|
        0 <= i < arg.len() && (text::is_space(#[trigger] arg[i]) || arg[i] == '"')
}

/// The argument with a backslash before each double quote.
pub open spec fn escaped(arg: Seq<char>) -> Seq<char>
    decreases arg.len(),
{
    if arg.len() == 0 {
        Seq::empty()
    } else if arg.last() == '"' {
        escaped(arg.drop_last()).push('\\').push('"')
    } else {
        escaped(arg.drop_last()).push(arg.last())
    }
}

/// The argument as it is written in a message.
pub open spec fn quoted(arg: Seq<char>) -> Seq<char> {
    if needs_quotes(arg) {
        seq!['"'] + escaped(arg) + seq!['"']
    } else {
        arg
    }
}

/// The argument list as one message.
pub open spec fn joined(args: Seq<Seq<char>>) -> Seq<char> {
    text::join(args.map_values(|a: Seq<char>| quoted(a)), seq![' '])
}

fn wants_quotes(chars: &[char]) -> (r: bool)
    ensures
        r == needs_quotes(chars@),
{
    if chars.len() == 0 {
        return true;
    }
    let mut i: usize = 0;
    while i < chars.len()
        invariant
            i <= chars@.len(),
            forall|j: int|
                0 <= j < i ==> !text::is_space(#[trigger] chars@[j]) && chars@[j] != '"',
        decreases chars@.len() - i,
    {
        let c = chars[i];
        if c.is_whitespace() || c == '"' {
            assert(text::is_space(chars@[i as int]) || chars@[i as int] == '"');
            return true;
        }
        i = i + 1;
    }
    false
}

/// Quotes one argument so that white space survives [`split_ipc_args`].
///
/// Arguments without white space or double quotes stay as they are. Any other,
/// the empty one among them, is wrapped in double quotes with each `"` escaped.
pub fn quote_ipc_arg(arg: &str) -> (r: String)
    ensures
        r@ == quoted(arg@),
{
    let chars = text::chars_of(arg);
    if !wants_quotes(&chars) {
        return arg.to_owned();
    }
    let mut out = String::new();
    out.push('"');
    let mut i: usize = 0;
    assert(out@ =~= seq!['"'] + escaped(arg@.take(0)));
    while i < chars.len()
        invariant
            chars@ == arg@,
            i <= chars@.len(),
            out@ == seq!['"'] + escaped(arg@.take(i as int)),
        decreases chars@.len() - i,
    {
        let c = chars[i];
        assert(arg@.take(i + 1).drop_last() =~= arg@.take(i as int));
        if c == '"' {
            out.push('\\');
        }
        out.push(c);
        i = i + 1;
        assert(out@ =~= seq!['"'] + escaped(arg@.take(i as int)));
    }
    assert(arg@.take(i as int) =~= arg@);
    out.push('"');
    assert(out@ =~= quoted(arg@));
    out
}

/// Writes an argument list as one message, each argument quoted as needed.
pub fn join_ipc_args(args: &[String]) -> (r: String)
    ensures
        r@ == joined(text::views(args@)),
{
    let mut parts: Vec<String> = Vec::new();
    let mut i: usize = 0;
    let ghost all = text::views(args@).map_values(|a: Seq<char>| quoted(a));
    while i < args.len()
        invariant
            i <= args@.len(),
            all == text::views(args@).map_values(|a: Seq<char>| quoted(a)),
            text::views(parts@) == all.take(i as int),
        decreases args@.len() - i,
    {
        let part = quote_ipc_arg(args[i].as_str());
        let ghost before = parts@;
        parts.push(part);
        i = i + 1;
        assert(text::views(parts@) =~= text::views(before).push(part@));
        assert(text::views(parts@) =~= all.take(i as int));
    }
    assert(all.take(i as int) =~= all);
    proof {
        reveal_strlit(" ");
        assert(" "@ =~= seq![' ']);
    }
    text::join_text(&parts, " ")
}

// ---------------------------------------------------------------------------
// Splitting
// ---------------------------------------------------------------------------

/// The arguments of the rest of a message, read outside quotes. `open` is the
/// argument begun so far, if one has begun. `None` where a quote stays open.
pub open spec fn split_plain(rest: Seq<char>, open: Option<Seq<char>>) -> Option<Seq<Seq<char>>>
    decreases rest.len(),
{
    if rest.len() == 0 {
        Some(finished(open))
    } else if rest[0] == '"' {
        split_quoted(rest.skip(1), begun(open))
    } else if text::is_space(rest[0]) {
        match split_plain(rest.skip(1), None) {
            Some(more) => Some(finished(open) + more),
            None => None,
        }
    } else {
        split_plain(rest.skip(1), Some(begun(open).push(rest[0])))
    }
}

/// The arguments of the rest of a message, read inside quotes that belong to
/// the argument `open`.
pub open spec fn split_quoted(rest: Seq<char>, open: Seq<char>) -> Option<Seq<Seq<char>>>
    decreases rest.len(),
{
    if rest.len() == 0 {
        None
    } else if rest[0] == '"' {
        split_plain(rest.skip(1), Some(open))
    } else if rest[0] == '\\' && rest.len() > 1 && rest[1] == '"' {
        split_quoted(rest.skip(2), open.push('"'))
    } else {
        split_quoted(rest.skip(1), open.push(rest[0]))
    }
}

pub open spec fn begun(open: Option<Seq<char>>) -> Seq<char> {
    match open {
        Some(arg) => arg,
        None => Seq::empty(),
    }
}

pub open spec fn finished(open: Option<Seq<char>>) -> Seq<Seq<char>> {
    match open {
        Some(arg) => seq![arg],
        None => Seq::empty(),
    }
}

/// The argument list of a message: white space outside quotes separates
/// arguments, quotes group, and `\"` inside quotes is a literal quote. `None`
/// where a quote stays open.
pub open spec fn split(message: Seq<char>) -> Option<Seq<Seq<char>>> {
    split_plain(message, None)
}

/// `prefix` in front of a split of the rest.
pub open spec fn prepend(prefix: Seq<Seq<char>>, rest: Option<Seq<Seq<char>>>) -> Option<
    Seq<Seq<char>>,
> {
    match rest {
        Some(more) => Some(prefix + more),
        None => None,
    }
}

/// Splits a message into its arguments. Fails exactly where a quote stays open.
pub fn split_ipc_args(message: &str) -> (r: Result<Vec<String>, UnclosedQuote>)
    ensures
        match r {
            Ok(args) => split(message@) == Some(text::views(args@)),
            Err(_) => split(message@) is None,
        },
{
    let chars = text::chars_of(message);
    let mut args: Vec<String> = Vec::new();
    let mut current = String::new();
    let mut in_quotes = false;
    let mut started = false;
    let mut i: usize = 0;
    assert(chars@.skip(0) =~= chars@);
    assert(text::views(args@) =~= Seq::<Seq<char>>::empty());
    assert(prepend(text::views(args@), split(message@)) =~~= split(message@)) by {
        if split(message@) is Some {
            assert(Seq::<Seq<char>>::empty() + split(message@)->0 =~= split(message@)->0);
        }
    }
    while i < chars.len()
        invariant
            chars@ == message@,
            i <= chars@.len(),
            in_quotes ==> started,
            !started ==> current@.len() == 0,
            split(message@) == prepend(
                text::views(args@),
                if in_quotes {
                    split_quoted(chars@.skip(i as int), current@)
                } else {
                    split_plain(
                        chars@.skip(i as int),
                        if started {
                            Some(current@)
                        } else {
                            None
                        },
                    )
                },
            ),
        decreases chars@.len() - i,
    {
        let c = chars[i];
        let ghost rest = chars@.skip(i as int);
        assert(rest[0] == c);
        assert(rest.skip(1) =~= chars@.skip(i + 1));
        if in_quotes {
            if c == '"' {
                in_quotes = false;
                i = i + 1;
            } else if c == '\\' && i + 1 < chars.len() && chars[i + 1] == '"' {
                assert(rest.skip(2) =~= chars@.skip(i + 2));
                current.push('"');
                i = i + 2;
            } else {
                current.push(c);
                i = i + 1;
            }
        } else if c == '"' {
            if !started {
                assert(current@ =~= Seq::<char>::empty());
            }
            in_quotes = true;
            started = true;
            i = i + 1;
        } else if c.is_whitespace() {
            let ghost before = text::views(args@);
            let ghost more = split_plain(rest.skip(1), None);
            if started {
                let ghost arg = current@;
                let ghost list = args@;
                args.push(current);
                assert(text::views(args@) =~= text::views(list).push(arg));
                current = String::new();
                started = false;
                assert(before + seq![arg] =~= text::views(args@));
                proof {
                    if more is Some {
                        assert(before + (seq![arg] + more->0) =~= text::views(args@) + more->0);
                    }
                }
            } else {
                proof {
                    if more is Some {
                        assert(before + (Seq::<Seq<char>>::empty() + more->0) =~= before + more->0);
                    }
                }
            }
            i = i + 1;
        } else {
            if !started {
                assert(current@ =~= Seq::<char>::empty());
            }
            current.push(c);
            started = true;
            i = i + 1;
        }
    }
    assert(chars@.skip(i as int).len() == 0);
    if in_quotes {
        return Err(UnclosedQuote);
    }
    let ghost before = text::views(args@);
    if started {
        let ghost arg = current@;
        let ghost list = args@;
        args.push(current);
        assert(text::views(args@) =~= text::views(list).push(arg));
        assert(before + seq![arg] =~= text::views(args@));
    } else {
        assert(before + Seq::<Seq<char>>::empty() =~= before);
    }
    Ok(args)
}

/// The argument list of a message in the form that an argument parser expects:
/// with an empty program name in front.
pub fn ipc_argv_from_message(message: &str) -> (r: Result<Vec<String>, TokenizeError>)
    ensures
        match r {
            Ok(argv) => split(message@) is Some && text::views(argv@) == seq![Seq::<char>::empty()]
                + split(message@)->0,
            Err(e) => split(message@) is None && e.ipc_message@ == message@,
        },
{
    match split_ipc_args(message) {
        Ok(args) => {
            let mut argv = args;
            argv.insert(0, String::new());
            assert(text::views(argv@) =~= seq![Seq::<char>::empty()] + text::views(args@));
            Ok(argv)
        },
        Err(cause) => Err(TokenizeError { ipc_message: message.to_owned(), cause }),
    }
}

// ---------------------------------------------------------------------------
// Laws
// ---------------------------------------------------------------------------

/// Whether an argument survives quoting. The closing quote of an argument that
/// is quoted and ends in a backslash would read as an escaped quote.
pub open spec fn survives_quoting(arg: Seq<char>) -> bool {
    needs_quotes(arg) && arg.len() > 0 ==> arg.last() != '\\'
}

/// The escape of one character.
spec fn escape_of(c: char) -> Seq<char> {
    if c == '"' {
        seq!['\\', '"']
    } else {
        seq![c]
    }
}

proof fn lemma_escaped_front(c: char, rest: Seq<char>)
    ensures
        escaped(seq![c] + rest) == escape_of(c) + escaped(rest),
    decreases rest.len(),
{
    let whole = seq![c] + rest;
    if rest.len() == 0 {
        assert(whole.drop_last() =~= Seq::<char>::empty());
        assert(escaped(whole.drop_last()) =~= Seq::<char>::empty());
        assert(whole.last() == c);
        assert(escaped(whole) =~= escape_of(c) + escaped(rest));
    } else {
        assert(whole.drop_last() =~= seq![c] + rest.drop_last());
        lemma_escaped_front(c, rest.drop_last());
        assert(escaped(whole) =~= escape_of(c) + escaped(rest));
    }
}

/// Inside quotes, the escape of `arg` reads as `arg`, unless `arg` ends in a
/// backslash and a double quote follows.
proof fn lemma_split_escaped(arg: Seq<char>, rest: Seq<char>, open: Seq<char>)
    requires
        arg.len() == 0 || arg.last() != '\\' || rest.len() == 0 || rest[0] != '"',
    ensures
        split_quoted(escaped(arg) + rest, open) == split_quoted(rest, open + arg),
    decreases arg.len(),
{
    if arg.len() == 0 {
        assert(escaped(arg) + rest =~= rest);
        assert(open + arg =~= open);
    } else {
        let c = arg[0];
        let tail = arg.drop_first();
        assert(arg =~= seq![c] + tail);
        lemma_escaped_front(c, tail);
        let after = escaped(tail) + rest;
        let whole = escaped(arg) + rest;
        assert(whole =~= escape_of(c) + after);
        assert(tail.len() > 0 ==> tail.last() == arg.last());
        lemma_split_escaped(tail, rest, open.push(c));
        assert(open.push(c) + tail =~= open + arg);
        if c == '"' {
            assert(whole.skip(2) =~= after);
        } else {
            assert(whole.skip(1) =~= after);
            if c == '\\' && whole.len() > 1 {
                assert(whole[1] == after[0]);
                if tail.len() > 0 {
                    lemma_escaped_front(tail[0], tail.drop_first());
                    assert(tail =~= seq![tail[0]] + tail.drop_first());
                    assert(after[0] == escape_of(tail[0])[0]);
                } else {
                    assert(after =~= rest);
                }
            }
        }
    }
}

/// Outside quotes, an argument that needs none reads as itself.
proof fn lemma_split_bare(arg: Seq<char>, rest: Seq<char>, open: Option<Seq<char>>)
    requires
        arg.len() > 0,
        !needs_quotes(arg),
    ensures
        split_plain(arg + rest, open) == split_plain(rest, Some(begun(open) + arg)),
    decreases arg.len(),
{
    let whole = arg + rest;
    let tail = arg.drop_first();
    assert(whole.skip(1) =~= tail + rest);
    assert(!text::is_space(arg[0]) && arg[0] != '"');
    let next = begun(open).push(arg[0]);
    if tail.len() == 0 {
        assert(tail + rest =~= rest);
        assert(begun(open) + arg =~= next);
    } else {
        assert forall|i: int| 0 <= i < tail.len() implies !text::is_space(#[trigger] tail[i])
            && tail[i] != '"' by {
            assert(tail[i] == arg[i + 1]);
        }
        lemma_split_bare(tail, rest, Some(next));
        assert(next + tail =~= begun(open) + arg);
    }
}

proof fn lemma_split_argument(arg: Seq<char>, rest: Seq<char>)
    requires
        survives_quoting(arg),
    ensures
        split_plain(quoted(arg) + rest, None) == split_plain(rest, Some(arg)),
{
    if needs_quotes(arg) {
        let whole = quoted(arg) + rest;
        let closing = seq!['"'] + rest;
        assert(whole.skip(1) =~= escaped(arg) + closing);
        lemma_split_escaped_closed(arg, rest);
    } else {
        lemma_split_bare(arg, rest, None);
        assert(Seq::<char>::empty() + arg =~= arg);
    }
}

proof fn lemma_split_escaped_closed(arg: Seq<char>, rest: Seq<char>)
    requires
        arg.len() == 0 || arg.last() != '\\',
    ensures
        split_quoted(escaped(arg) + (seq!['"'] + rest), Seq::empty()) == split_plain(
            rest,
            Some(arg),
        ),
{
    let closing = seq!['"'] + rest;
    lemma_split_escaped(arg, closing, Seq::empty());
    assert(Seq::<char>::empty() + arg =~= arg);
    assert(closing.skip(1) =~= rest);
}

proof fn lemma_join_front(first: Seq<char>, parts: Seq<Seq<char>>, sep: Seq<char>)
    requires
        parts.len() > 0,
    ensures
        text::join(seq![first] + parts, sep) == first + sep + text::join(parts, sep),
    decreases parts.len(),
{
    let whole = seq![first] + parts;
    assert(whole.last() == parts.last());
    if parts.len() == 1 {
        assert(whole.drop_last() =~= seq![first]);
        assert(text::join(seq![first], sep) == first);
    } else {
        assert(whole.drop_last() =~= seq![first] + parts.drop_last());
        lemma_join_front(first, parts.drop_last(), sep);
        assert(text::join(whole, sep) =~= first + sep + text::join(parts, sep));
    }
}

/// Splitting undoes joining: a list of arguments that each survive quoting
/// comes back unchanged, empty arguments and arguments with white space or
/// quotes among them.
pub proof fn law_split_undoes_join(args: Seq<Seq<char>>)
    requires
        forall|i: int| 0 <= i < args.len() ==> survives_quoting(#[trigger] args[i]),
    ensures
        split(joined(args)) == Some(args),
    decreases args.len(),
{
    let q = |a: Seq<char>| quoted(a);
    let parts = args.map_values(q);
    if args.len() == 0 {
        assert(joined(args) =~= Seq::<char>::empty());
        assert(finished(None) =~= args);
    } else {
        let first = args[0];
        let tail = args.drop_first();
        assert(survives_quoting(first));
        if tail.len() == 0 {
            assert(parts =~= seq![quoted(first)]);
            assert(joined(args) =~= quoted(first) + Seq::<char>::empty());
            lemma_split_argument(first, Seq::empty());
            assert(finished(Some(first)) =~= args);
        } else {
            assert forall|i: int| 0 <= i < tail.len() implies survives_quoting(
                #[trigger] tail[i],
            ) by {
                assert(tail[i] == args[i + 1]);
            }
            law_split_undoes_join(tail);
            assert(parts =~= seq![quoted(first)] + tail.map_values(q));
            lemma_join_front(quoted(first), tail.map_values(q), seq![' ']);
            let after = seq![' '] + joined(tail);
            assert(joined(args) =~= quoted(first) + after);
            lemma_split_argument(first, after);
            assert(after.skip(1) =~= joined(tail));
            assert(finished(Some(first)) + tail =~= args);
        }
    }
}

/// An argument that survives quoting comes back from its quoted form alone.
pub proof fn law_quoted_argument_round_trips(arg: Seq<char>)
    requires
        survives_quoting(arg),
    ensures
        split(quoted(arg)) == Some(seq![arg]),
{
    assert(quoted(arg) + Seq::<char>::empty() =~= quoted(arg));
    lemma_split_argument(arg, Seq::empty());
}

/// A quoted argument that ends in a backslash leaves its quote open: these are
/// the arguments that do not round-trip.
pub proof fn law_trailing_backslash_leaves_quote_open(arg: Seq<char>)
    requires
        !survives_quoting(arg),
    ensures
        split(quoted(arg)) is None,
{
    let body = arg.drop_last();
    let end = seq!['\\', '"'];
    let whole = quoted(arg);
    assert(whole.skip(1) =~= escaped(body) + end);
    lemma_split_escaped(body, end, Seq::empty());
    assert(end.skip(2) =~= Seq::<char>::empty());
    assert(split_quoted(Seq::empty(), body.push('"')) is None);
    assert(Seq::<char>::empty() + body =~= body);
    assert(split_quoted(end, body) is None);
}

/// A command word and a quoted path split into exactly these two arguments, so
/// a path with white space reaches the server whole.
pub proof fn law_path_reaches_server_whole(command: Seq<char>, path: Seq<char>)
    requires
        !needs_quotes(command),
        survives_quoting(path),
    ensures
        split(command + seq![' '] + quoted(path)) == Some(seq![command, path]),
{
    let args = seq![command, path];
    law_split_undoes_join(args);
    let parts = args.map_values(|a: Seq<char>| quoted(a));
    assert(parts =~= seq![command] + seq![quoted(path)]);
    lemma_join_front(command, seq![quoted(path)], seq![' ']);
}

} // verus!
