//! Login-item scripts.
//!
//! Launch-at-login is opt-in.  Adding and removing go through the System
//! Events login-items scripting interface at normal privilege; this module
//! builds the scripts and reads the answers, the caller runs `osascript`.

use crate::cmd::{from_utf8_lossy, utf8_lossy};
use crate::text::{chars_of, push_str, str_eq, string_from, trimmed};
use vstd::prelude::*;

verus! {

/// `app_path` with each `'` replaced by `'\''`, as `str::replace` does.
pub open spec fn quote_escaped(s: Seq<char>) -> Seq<char>
    decreases s.len(),
{
    if s.len() == 0 {
        Seq::empty()
    } else {
        quote_escaped(s.drop_last()) + if s.last() == '\'' {
            seq!['\'', '\\', '\'', '\'']
        } else {
            seq![s.last()]
        }
    }
}

/// See [`quote_escaped`].
pub fn escape_quotes(app_path: &str) -> (r: String)
    ensures
        r@ == quote_escaped(app_path@),
{
    let v = chars_of(app_path);
    let mut r = String::new();
    let mut i: usize = 0;
    while i < v.len()
        invariant
            v@ == app_path@,
            i <= v.len(),
            r@ == quote_escaped(v@.take(i as int)),
        decreases v.len() - i,
    {
        proof {
            assert(v@.take(i + 1).drop_last() =~= v@.take(i as int));
        }
        if v[i] == '\'' {
            r.push('\'');
            r.push('\\');
            r.push('\'');
            r.push('\'');
            proof {
                assert(quote_escaped(v@.take(i + 1)) =~= r@);
            }
        } else {
            r.push(v[i]);
            proof {
                assert(quote_escaped(v@.take(i + 1)) =~= r@);
            }
        }
        i = i + 1;
    }
    assert(v@.take(v.len() as int) =~= v@);
    r
}

/// The script for `action` on the login item for `app_path`.
pub open spec fn login_script(action: Seq<char>, app_path: Seq<char>) -> Seq<char> {
    if action == "add"@ {
        "tell application \"System Events\" to make login item at end with properties {path:\""@
            + quote_escaped(app_path) + "\", hidden:false}"@
    } else if action == "delete"@ {
        "tell application \"System Events\" to delete (every login item whose path is \""@
            + quote_escaped(app_path) + "\")"@
    } else {
        Seq::empty()
    }
}

/// The System Events script for `action` ("add" or "delete") on the login
/// item for the bundle at `app_path`; empty for any other action.
pub fn script_for(action: &str, app_path: &str) -> (s: String)
    ensures
        s@ == login_script(action@, app_path@),
{
    if str_eq(action, "add") {
        let mut s = string_from(
            "tell application \"System Events\" to make login item at end with properties {path:\"",
        );
        let esc = escape_quotes(app_path);
        push_str(&mut s, esc.as_str());
        push_str(&mut s, "\", hidden:false}");
        s
    } else if str_eq(action, "delete") {
        let mut s = string_from(
            "tell application \"System Events\" to delete (every login item whose path is \"",
        );
        let esc = escape_quotes(app_path);
        push_str(&mut s, esc.as_str());
        push_str(&mut s, "\")");
        s
    } else {
        String::new()
    }
}

/// The script that turns launch-at-login on (`enable`) or off, or the error
/// reported when no script exists for the action.
pub fn launch_at_login_script(enable: bool, app_path: &str) -> (r: Result<String, String>)
    ensures
        ({
            let script = login_script(if enable { "add"@ } else { "delete"@ }, app_path@);
            match r {
                Ok(s) => script.len() > 0 && s@ == script,
                Err(e) => script.len() == 0 && e@ == "unknown action"@,
            }
        }),
{
    let action = if enable {
        "add"
    } else {
        "delete"
    };
    let script = script_for(action, app_path);
    let sv = chars_of(script.as_str());
    if sv.len() == 0 {
        return Err(string_from("unknown action"));
    }
    Ok(script)
}

/// The script that lists the login items registered for `app_path`.
pub open spec fn registered_query(app_path: Seq<char>) -> Seq<char> {
    "tell application \"System Events\" to get the path of every login item whose path is \""@
        + quote_escaped(app_path) + "\""@
}

/// See [`registered_query`].
pub fn registered_query_script(app_path: &str) -> (s: String)
    ensures
        s@ == registered_query(app_path@),
{
    let mut s = string_from(
        "tell application \"System Events\" to get the path of every login item whose path is \"",
    );
    let esc = escape_quotes(app_path);
    push_str(&mut s, esc.as_str());
    push_str(&mut s, "\"");
    s
}

/// What `String::from_utf8_lossy(bytes).trim()` gives.
fn lossy_trimmed(bytes: &[u8]) -> (r: String)
    ensures
        r@ == trimmed(utf8_lossy(bytes@)),
{
    let s = from_utf8_lossy(bytes);
    crate::text::trim_to_string(s.as_str())
}

/// The outcome of an `osascript` run that changes the login items: success,
/// or the trimmed standard error as the message.
pub fn osascript_outcome(success: bool, stderr: &[u8]) -> (r: Result<(), String>)
    ensures
        r is Ok <==> success,
        r matches Err(e) ==> e@ == trimmed(utf8_lossy(stderr@)),
{
    if success {
        Ok(())
    } else {
        Err(lossy_trimmed(stderr))
    }
}

/// The outcome of the registration query: on success, registered when it
/// printed anything besides whitespace; otherwise the trimmed standard
/// error as the message.
pub fn registered_outcome(success: bool, stdout: &[u8], stderr: &[u8]) -> (r: Result<bool, String>)
    ensures
        r is Ok <==> success,
        r matches Ok(b) ==> b == (trimmed(utf8_lossy(stdout@)).len() > 0),
        r matches Err(e) ==> e@ == trimmed(utf8_lossy(stderr@)),
{
    if !success {
        return Err(lossy_trimmed(stderr));
    }
    let t = lossy_trimmed(stdout);
    let v = chars_of(t.as_str());
    Ok(v.len() > 0)
}

} // verus!
