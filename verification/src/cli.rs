//! The client side of a command.
use vstd::prelude::*;
use vstd::string::StringExecFns;

use crate::app_command::SubscribableEvent;
use crate::app_command::{AppCommand, InvokeCommand, QueryCommand};
use crate::container_id;
use crate::dto::ContainerId;
use crate::ipc::ClientResponseData;
use crate::ipc_args;
use crate::text;

verus! {

// ---------------------------------------------------------------------------
// The message
// ---------------------------------------------------------------------------

/// A path as it is written in a message, so that white space in it survives.
pub fn quote_path(path: &str) -> (r: String)
    ensures
        r@ == ipc_args::quoted(path@),
{
    ipc_args::quote_ipc_arg(path)
}

/// The message that a command is sent as. Commands with a path are written anew
/// with the path in quotes; writing and copying a layout starts with a query;
/// every other command is sent as it was typed. `clipboard_path` is the file
/// that holds the snapshot of the clipboard.
pub open spec fn request<C>(
    command: AppCommand<C>,
    args: Seq<Seq<char>>,
    clipboard_path: Option<Seq<char>>,
) -> Result<Seq<char>, Seq<char>> {
    match command {
        AppCommand::Query { command: QueryCommand::Layout { .. } } => Ok("query layout"@),
        AppCommand::SaveLayout { .. } => Ok("query layout"@),
        AppCommand::CopyLayout => Ok("query layout"@),
        AppCommand::LoadLayout { path, clipboard } => if clipboard {
            match clipboard_path {
                Some(file) => Ok("load-layout "@ + ipc_args::quoted(file)),
                None => Err("internal: missing clipboard temp path"@),
            }
        } else {
            match path {
                Some(file) => Ok("load-layout "@ + ipc_args::quoted(file@)),
                None => Err("load-layout requires a path or --clipboard"@),
            }
        },
        AppCommand::Query { command: QueryCommand::LayoutMatch { path } } => Ok(
            "query layout-match "@ + ipc_args::quoted(path@),
        ),
        AppCommand::InspectLayout { path } => Ok("inspect-layout "@ + ipc_args::quoted(path@)),
        AppCommand::Command {
            subject_container_id,
            command: InvokeCommand::LoadLayout { path },
        } => match subject_container_id {
            None => Ok("command load-layout "@ + ipc_args::quoted(path@)),
            Some(id) => Ok(
                "command --id "@ + container_id::id_text(id) + " load-layout "@ + ipc_args::quoted(
                    path@,
                ),
            ),
        },
        _ => Ok(text::join(args.skip(1), " "@)),
    }
}

fn path_request(command: &str, path: &str) -> (r: String)
    ensures
        r@ == command@ + ipc_args::quoted(path@),
{
    let mut out = command.to_owned();
    let quoted = quote_path(path);
    out.append(quoted.as_str());
    out
}

fn typed_request(args: &[String]) -> (r: String)
    requires
        args@.len() > 0,
    ensures
        r@ == text::join(text::views(args@).skip(1), " "@),
{
    let mut rest: Vec<String> = Vec::new();
    let mut i: usize = 1;
    assert(text::views(rest@) =~= text::views(args@).subrange(1, 1));
    while i < args.len()
        invariant
            1 <= i <= args@.len(),
            text::views(rest@) == text::views(args@).subrange(1, i as int),
        decreases args@.len() - i,
    {
        let ghost before = text::views(rest@);
        rest.push(args[i].clone());
        assert(text::views(rest@) =~= before.push(args@[i as int]@));
        assert(text::views(args@)[i as int] == args@[i as int]@);
        assert(text::views(rest@) =~= text::views(args@).subrange(1, i + 1));
        i = i + 1;
    }
    assert(text::views(args@).subrange(1, i as int) =~= text::views(args@).skip(1));
    text::join_text(&rest, " ")
}

/// Builds the message that a command is sent as. `args` is the command line,
/// program name first.
pub fn request_message<C>(
    command: &AppCommand<C>,
    args: &[String],
    clipboard_path: Option<&str>,
) -> (r: Result<String, String>)
    requires
        args@.len() > 0,
    ensures
        match (r, request(*command, text::views(args@), text::opt_str_view(clipboard_path))) {
            (Ok(message), Ok(expected)) => message@ == expected,
            (Err(message), Err(expected)) => message@ == expected,
            _ => false,
        },
{
    match command {
        AppCommand::Query { command: QueryCommand::Layout { .. } } => Ok("query layout".to_owned()),
        AppCommand::SaveLayout { .. } => Ok("query layout".to_owned()),
        AppCommand::CopyLayout => Ok("query layout".to_owned()),
        AppCommand::LoadLayout { path, clipboard } => {
            if *clipboard {
                match clipboard_path {
                    Some(file) => Ok(path_request("load-layout ", file)),
                    None => Err("internal: missing clipboard temp path".to_owned()),
                }
            } else {
                match path {
                    Some(file) => Ok(path_request("load-layout ", file.as_str())),
                    None => Err("load-layout requires a path or --clipboard".to_owned()),
                }
            }
        },
        AppCommand::Query { command: QueryCommand::LayoutMatch { path } } => Ok(
            path_request("query layout-match ", path.as_str()),
        ),
        AppCommand::InspectLayout { path } => Ok(path_request("inspect-layout ", path.as_str())),
        AppCommand::Command {
            subject_container_id,
            command: InvokeCommand::LoadLayout { path },
        } => match subject_container_id {
            None => Ok(path_request("command load-layout ", path.as_str())),
            Some(id) => {
                let mut head = "command --id ".to_owned();
                let shown = container_id::format_container_id(*id);
                head.append(shown.as_str());
                head.append(" load-layout ");
                Ok(path_request(head.as_str(), path.as_str()))
            },
        },
        _ => Ok(typed_request(args)),
    }
}

// ---------------------------------------------------------------------------
// The answer
// ---------------------------------------------------------------------------

/// Where a client writes the layout that it asked for.
pub fn layout_output_path<C>(command: &AppCommand<C>) -> (r: Option<String>)
    ensures
        text::opt_view(r) == match *command {
            AppCommand::Query { command: QueryCommand::Layout { output } } => text::opt_view(output),
            AppCommand::SaveLayout { path } => Some(path@),
            _ => None,
        },
{
    match command {
        AppCommand::Query { command: QueryCommand::Layout { output } } => text::copy_opt(output),
        AppCommand::SaveLayout { path } => Some(path.clone()),
        _ => None,
    }
}

/// What a client does with the layout in an answer.
#[derive(Clone, Copy, Debug, PartialEq, Eq, Structural)]
pub struct LayoutUse {
    pub write: bool,
    pub copy: bool,
}

/// Decides what a client does with an answer: `write` says that the layout is to
/// be written to a file and `copy` that it is to be copied to the clipboard. To
/// copy, a request that succeeded has to give a layout.
pub fn use_of_layout(
    write: bool,
    copy: bool,
    data: &Option<ClientResponseData>,
    success: bool,
) -> (r: Result<LayoutUse, String>)
    ensures
        ({
            let given = *data is Some && (*data)->0 is Layout;
            match r {
                Ok(layout) => {
                    &&& layout.write == (write && given)
                    &&& layout.copy == (copy && given)
                    &&& copy ==> given || !success
                },
                Err(message) => {
                    &&& copy && !given && success
                    &&& message@ == "copy-layout expected layout data in IPC response."@
                },
            }
        }),
{
    let given = match data {
        Some(ClientResponseData::Layout(_)) => true,
        _ => false,
    };
    if copy && !given && success {
        return Err("copy-layout expected layout data in IPC response.".to_owned());
    }
    Ok(LayoutUse { write: write && given, copy: copy && given })
}

/// The subscription whose events a client goes on printing after an answer;
/// `None` where the answer itself is printed.
pub fn followed_subscription(data: &Option<ClientResponseData>) -> (r: Option<ContainerId>)
    ensures
        r == match *data {
            Some(ClientResponseData::EventSubscribe(subscribed)) => Some(subscribed.subscription_id),
            _ => None,
        },
{
    match data {
        Some(ClientResponseData::EventSubscribe(subscribed)) => Some(subscribed.subscription_id),
        _ => None,
    }
}

// ---------------------------------------------------------------------------
// Laws
// ---------------------------------------------------------------------------

proof fn lemma_words_and_path(words: Seq<Seq<char>>, path: Seq<char>)
    requires
        words.len() > 0,
        forall|i: int| 0 <= i < words.len() ==> !ipc_args::needs_quotes(#[trigger] words[i]),
        ipc_args::survives_quoting(path),
    ensures
        ipc_args::split(text::join(words, seq![' ']) + seq![' '] + ipc_args::quoted(path)) == Some(
            words.push(path),
        ),
{
    let args = words.push(path);
    let parts = args.map_values(|a: Seq<char>| ipc_args::quoted(a));
    ipc_args::law_split_undoes_join(args);
    assert(parts.drop_last() =~= words) by {
        assert forall|i: int| 0 <= i < words.len() implies parts.drop_last()[i] == words[i] by {
            assert(args[i] == words[i]);
            assert(!ipc_args::needs_quotes(words[i]));
        }
    }
    assert(parts.last() == ipc_args::quoted(path));
}

/// A path reaches the server whole, whatever white space it holds: each message
/// with a path splits into its words and the path. A path that is quoted and
/// ends in a backslash is left out, because its closing quote would read as an
/// escaped one.
pub proof fn law_paths_reach_the_server(path: Seq<char>)
    requires
        ipc_args::survives_quoting(path),
    ensures
        ipc_args::split("load-layout "@ + ipc_args::quoted(path)) == Some(
            seq!["load-layout"@, path],
        ),
        ipc_args::split("inspect-layout "@ + ipc_args::quoted(path)) == Some(
            seq!["inspect-layout"@, path],
        ),
        ipc_args::split("query layout-match "@ + ipc_args::quoted(path)) == Some(
            seq!["query"@, "layout-match"@, path],
        ),
        ipc_args::split("command load-layout "@ + ipc_args::quoted(path)) == Some(
            seq!["command"@, "load-layout"@, path],
        ),
{
    reveal_strlit("load-layout ");
    reveal_strlit("load-layout");
    reveal_strlit("inspect-layout ");
    reveal_strlit("inspect-layout");
    reveal_strlit("query layout-match ");
    reveal_strlit("query");
    reveal_strlit("layout-match");
    reveal_strlit("command load-layout ");
    reveal_strlit("command");
    let space = seq![' '];
    let load = seq!["load-layout"@];
    lemma_words_and_path(load, path);
    assert(text::join(load, space) + space =~= "load-layout "@);
    assert(load.push(path) =~= seq!["load-layout"@, path]);
    let inspect = seq!["inspect-layout"@];
    lemma_words_and_path(inspect, path);
    assert(text::join(inspect, space) + space =~= "inspect-layout "@);
    assert(inspect.push(path) =~= seq!["inspect-layout"@, path]);
    let query = seq!["query"@, "layout-match"@];
    lemma_two_words("query"@, "layout-match"@);
    lemma_words_and_path(query, path);
    assert(text::join(query, space) + space =~= "query layout-match "@);
    assert(query.push(path) =~= seq!["query"@, "layout-match"@, path]);
    let command = seq!["command"@, "load-layout"@];
    lemma_two_words("command"@, "load-layout"@);
    lemma_words_and_path(command, path);
    assert(text::join(command, space) + space =~= "command load-layout "@);
    assert(command.push(path) =~= seq!["command"@, "load-layout"@, path]);
}

proof fn lemma_two_words(a: Seq<char>, b: Seq<char>)
    ensures
        text::join(seq![a, b], seq![' ']) == a + seq![' '] + b,
{
    let both = seq![a, b];
    assert(both.drop_last() =~= seq![a]);
    assert(text::join(seq![a], seq![' ']) == a);
}

proof fn lemma_id_is_plain(id: ContainerId)
    ensures
        !ipc_args::needs_quotes(container_id::id_text(id)),
{
    let shown = container_id::id_text(id);
    assert forall|i: int| 0 <= i < shown.len() implies !text::is_space(#[trigger] shown[i])
        && shown[i] != '"' by {
    }
}

/// The same for a command on a container, whose id is written before the path.
pub proof fn law_container_and_path_reach_the_server(id: ContainerId, path: Seq<char>)
    requires
        ipc_args::survives_quoting(path),
    ensures
        ipc_args::split(
            "command --id "@ + container_id::id_text(id) + " load-layout "@ + ipc_args::quoted(path),
        ) == Some(seq!["command"@, "--id"@, container_id::id_text(id), "load-layout"@, path]),
{
    reveal_strlit("command --id ");
    reveal_strlit("command");
    reveal_strlit("--id");
    reveal_strlit(" load-layout ");
    reveal_strlit("load-layout");
    let space = seq![' '];
    let shown = container_id::id_text(id);
    let words = seq!["command"@, "--id"@, shown, "load-layout"@];
    lemma_id_is_plain(id);
    lemma_words_and_path(words, path);
    lemma_two_words("command"@, "--id"@);
    assert(words.drop_last().drop_last() =~= seq!["command"@, "--id"@]);
    let three = words.drop_last();
    assert(three.last() == shown);
    assert(text::join(three, space) == text::join(seq!["command"@, "--id"@], space) + space + shown);
    assert(text::join(words, space) == text::join(three, space) + space + "load-layout"@);
    assert("command"@ + space + "--id"@ + space =~= "command --id "@);
    assert(text::join(words, space) =~= "command --id "@ + shown + space + "load-layout"@);
    assert(text::join(words, space) + space + ipc_args::quoted(path) =~= "command --id "@ + shown
        + " load-layout "@ + ipc_args::quoted(path));
    assert(words.push(path) =~= seq!["command"@, "--id"@, shown, "load-layout"@, path]);
}

/// A request with a path says on the server's side what it said on the client's: its
/// words and the whole path. From the clipboard a layout is loaded through the file
/// that holds it.
pub proof fn law_requests_name_their_path<C>(
    path: String,
    subject: ContainerId,
    args: Seq<Seq<char>>,
    clip: Seq<char>,
    ignored: Option<String>,
    unused: Option<Seq<char>>,
)
    requires
        ipc_args::survives_quoting(path@),
        ipc_args::survives_quoting(clip),
    ensures
        ({
            let load = request(
                (AppCommand::<C>::LoadLayout { path: Some(path), clipboard: false }),
                args,
                unused,
            );
            load is Ok && ipc_args::split(load->Ok_0) == Some(seq!["load-layout"@, path@])
        }),
        ({
            let load = request(
                (AppCommand::<C>::LoadLayout { path: ignored, clipboard: true }),
                args,
                Some(clip),
            );
            load is Ok && ipc_args::split(load->Ok_0) == Some(seq!["load-layout"@, clip])
        }),
        ({
            let inspect = request((AppCommand::<C>::InspectLayout { path }), args, unused);
            inspect is Ok && ipc_args::split(inspect->Ok_0) == Some(
                seq!["inspect-layout"@, path@],
            )
        }),
        ({
            let query = request(
                (AppCommand::<C>::Query { command: QueryCommand::LayoutMatch { path } }),
                args,
                unused,
            );
            query is Ok && ipc_args::split(query->Ok_0) == Some(
                seq!["query"@, "layout-match"@, path@],
            )
        }),
        ({
            let command = request(
                (AppCommand::<C>::Command {
                    subject_container_id: None,
                    command: InvokeCommand::LoadLayout { path },
                }),
                args,
                unused,
            );
            command is Ok && ipc_args::split(command->Ok_0) == Some(
                seq!["command"@, "load-layout"@, path@],
            )
        }),
        ({
            let command = request(
                (AppCommand::<C>::Command {
                    subject_container_id: Some(subject),
                    command: InvokeCommand::LoadLayout { path },
                }),
                args,
                unused,
            );
            command is Ok && ipc_args::split(command->Ok_0) == Some(
                seq![
                    "command"@,
                    "--id"@,
                    container_id::id_text(subject),
                    "load-layout"@,
                    path@,
                ],
            )
        }),
{
    law_paths_reach_the_server(path@);
    law_paths_reach_the_server(clip);
    law_container_and_path_reach_the_server(subject, path@);
}

/// Saving and copying a layout begin with asking for it, and a layout cannot be loaded
/// from nowhere. What is typed otherwise is sent as it was typed.
pub proof fn law_other_requests<C>(
    path: String,
    output: Option<String>,
    events: Vec<SubscribableEvent>,
    args: Seq<Seq<char>>,
    clip: Option<Seq<char>>,
)
    ensures
        request((AppCommand::<C>::SaveLayout { path }), args, clip) == Ok::<
            Seq<char>,
            Seq<char>,
        >("query layout"@),
        request(AppCommand::<C>::CopyLayout, args, clip) == Ok::<Seq<char>, Seq<char>>(
            "query layout"@,
        ),
        request(
            (AppCommand::<C>::Query { command: QueryCommand::Layout { output } }),
            args,
            clip,
        ) == Ok::<Seq<char>, Seq<char>>("query layout"@),
        request((AppCommand::<C>::LoadLayout { path: None, clipboard: false }), args, clip) is Err,
        request((AppCommand::<C>::LoadLayout { path: output, clipboard: true }), args, None) is Err,
        request((AppCommand::<C>::Sub { events }), args, clip) == Ok::<Seq<char>, Seq<char>>(
            text::join(args.skip(1), " "@),
        ),
{
}

} // verus!
