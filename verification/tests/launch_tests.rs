use krrr::launch::{connection_uri, editor_args, response_body, result_marker, LaunchOutcome};

#[test]
fn uri_is_plain_concatenation() {
    let uri = connection_uri("alice", "myhost", "/home/alice/project");
    assert_eq!(uri, "vscode-remote://ssh-remote+alice@myhost/home/alice/project");
}

#[test]
fn uri_inserts_no_separator_before_path() {
    let uri = connection_uri("bob", "10.0.0.5", "etc");
    assert_eq!(uri, "vscode-remote://ssh-remote+bob@10.0.0.5etc");
}

#[test]
fn uri_applies_no_escaping() {
    let uri = connection_uri("a b", "h&st", "/p th");
    assert_eq!(uri, "vscode-remote://ssh-remote+a b@h&st/p th");
}

#[test]
fn editor_gets_exactly_two_arguments() {
    let args = editor_args("alice", "myhost", "/home/alice/project");
    assert_eq!(args.len(), 2);
    assert_eq!(args[0], "--folder-uri");
    assert_eq!(args[1], "vscode-remote://ssh-remote+alice@myhost/home/alice/project");
}

#[test]
fn marker_on_success() {
    assert_eq!(result_marker(&LaunchOutcome::Spawned), "success");
}

#[test]
fn marker_on_failure_embeds_error() {
    let outcome = LaunchOutcome::SpawnFailed("No such file or directory (os error 2)".to_string());
    assert_eq!(
        result_marker(&outcome),
        "failed to execute process: No such file or directory (os error 2)"
    );
}

#[test]
fn response_on_success() {
    let body = response_body("myhost", "alice", "/home/alice/project", &LaunchOutcome::Spawned);
    assert_eq!(body, "client = myhost, user = alice, path = /home/alice/project : success");
}

#[test]
fn response_on_spawn_failure() {
    let outcome = LaunchOutcome::SpawnFailed("No such file or directory (os error 2)".to_string());
    let body = response_body("myhost", "alice", "/home/alice/project", &outcome);
    assert_eq!(
        body,
        "client = myhost, user = alice, path = /home/alice/project : \
         failed to execute process: No such file or directory (os error 2)"
    );
}

#[test]
fn responses_pair_with_their_own_request() {
    let body1 = response_body("host1", "alice", "/a", &LaunchOutcome::Spawned);
    let body2 = response_body("host2", "bob", "/b", &LaunchOutcome::SpawnFailed("denied".to_string()));
    assert_eq!(body1, "client = host1, user = alice, path = /a : success");
    assert_eq!(body2, "client = host2, user = bob, path = /b : failed to execute process: denied");
}
