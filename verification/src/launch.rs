//! The launch step of one request: the connection URI handed to the editor,
//! the two-argument invocation, the result marker, and the plain-text
//! response body.

use vstd::prelude::*;

verus! {

/// The connection URI for a user, client and path: the path follows the
/// client directly, with no separator inserted and no escaping applied.
pub open spec fn uri_chars(user: Seq<char>, client: Seq<char>, path: Seq<char>) -> Seq<char> {
    "vscode-remote://ssh-remote+"@ + user + "@"@ + client + path
}

/// Builds the connection URI by plain concatenation.
pub fn connection_uri(user: &str, client: &str, path: &str) -> (r: String)
    ensures
        r@ == uri_chars(user@, client@, path@),
{
    let mut s = "vscode-remote://ssh-remote+".to_owned();
    s.append(user);
    s.append("@");
    s.append(client);
    s.append(path);
    proof {
        assert(s@ =~= uri_chars(user@, client@, path@));
    }
    s
}

/// The exactly two arguments the editor executable is invoked with: the
/// fixed flag and the connection URI.
pub fn editor_args(user: &str, client: &str, path: &str) -> (r: Vec<String>)
    ensures
        r@.len() == 2,
        r@[0]@ == "--folder-uri"@,
        r@[1]@ == uri_chars(user@, client@, path@),
{
    let mut args: Vec<String> = Vec::new();
    args.push("--folder-uri".to_owned());
    args.push(connection_uri(user, client, path));
    args
}

/// Whether spawning the editor process succeeded; on failure, the
/// description of the underlying error.
#[derive(Clone, PartialEq, Eq, Debug)]
pub enum LaunchOutcome {
    Spawned,
    SpawnFailed(String),
}

/// The result marker of a response: `success`, or the failure text with the
/// error description appended.
pub open spec fn marker_chars(outcome: LaunchOutcome) -> Seq<char> {
    match outcome {
        LaunchOutcome::Spawned => "success"@,
        LaunchOutcome::SpawnFailed(e) => "failed to execute process: "@ + e@,
    }
}

/// Formats the result marker.
pub fn result_marker(outcome: &LaunchOutcome) -> (r: String)
    ensures
        r@ == marker_chars(*outcome),
{
    match outcome {
        LaunchOutcome::Spawned => "success".to_owned(),
        LaunchOutcome::SpawnFailed(e) => {
            let mut s = "failed to execute process: ".to_owned();
            s.append(e.as_str());
            s
        },
    }
}

/// The one-line response body echoing the parameters and a result marker.
pub open spec fn body_chars(
    client: Seq<char>,
    user: Seq<char>,
    path: Seq<char>,
    rc: Seq<char>,
) -> Seq<char> {
    "client = "@ + client + ", user = "@ + user + ", path = "@ + path + " : "@ + rc
}

/// Builds the response body for one request: it echoes exactly the request's
/// own parameters and the marker of its own outcome, so concurrently handled
/// requests cannot exchange responses.
pub fn response_body(client: &str, user: &str, path: &str, outcome: &LaunchOutcome) -> (r: String)
    ensures
        r@ == body_chars(client@, user@, path@, marker_chars(*outcome)),
{
    let mut s = "client = ".to_owned();
    s.append(client);
    s.append(", user = ");
    s.append(user);
    s.append(", path = ");
    s.append(path);
    s.append(" : ");
    let marker = result_marker(outcome);
    s.append(marker.as_str());
    proof {
        assert(s@ =~= body_chars(client@, user@, path@, marker_chars(*outcome)));
    }
    s
}

} // verus!
