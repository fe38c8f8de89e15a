use monitor_app::loginitem::{
    escape_quotes, launch_at_login_script, osascript_outcome, registered_outcome, registered_query_script, script_for,
};

#[test]
fn scripts_embed_the_escaped_bundle_path() {
    assert_eq!(escape_quotes("/Applications/It's.app"), "/Applications/It'\\''s.app");
    assert_eq!(
        script_for("add", "/Applications/Monitor.app"),
        "tell application \"System Events\" to make login item at end with properties {path:\"/Applications/Monitor.app\", hidden:false}"
    );
    assert_eq!(
        script_for("delete", "/A.app"),
        "tell application \"System Events\" to delete (every login item whose path is \"/A.app\")"
    );
    assert_eq!(script_for("toggle", "/A.app"), "");
    assert_eq!(launch_at_login_script(true, "/A.app"), Ok(script_for("add", "/A.app")));
    assert_eq!(launch_at_login_script(false, "/A.app"), Ok(script_for("delete", "/A.app")));
    assert_eq!(
        registered_query_script("/A.app"),
        "tell application \"System Events\" to get the path of every login item whose path is \"/A.app\""
    );
}

#[test]
fn registration_is_read_from_nonblank_output() {
    assert_eq!(registered_outcome(true, b"/A.app\n", b""), Ok(true));
    assert_eq!(registered_outcome(true, b" \n\t", b""), Ok(false));
    assert_eq!(registered_outcome(true, b"", b"ignored"), Ok(false));
    assert_eq!(
        registered_outcome(false, b"/A.app", b"  execution error: not allowed\n"),
        Err("execution error: not allowed".to_string())
    );
}

#[test]
fn osascript_failure_reports_trimmed_stderr() {
    assert_eq!(osascript_outcome(true, b"noise"), Ok(()));
    assert_eq!(osascript_outcome(false, b"\n denied \n"), Err("denied".to_string()));
    // Invalid UTF-8 is replaced, not dropped.
    assert_eq!(osascript_outcome(false, b"bad \xff"), Err("bad \u{FFFD}".to_string()));
}
