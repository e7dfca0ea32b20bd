//! What "start on login" writes: the Linux autostart entry and the Windows
//! `Run` value.

use vstd::prelude::*;
use vstd::string::StringExecFns;

verus! {

/// The text of `monotp.desktop` up to the executable's path.
pub open spec fn desktop_head() -> Seq<char> {
    "[Desktop Entry]\nType=Application\nName=monotp\nComment=Encrypted TOTP authenticator\nExec="@
}

/// The text of `monotp.desktop` after the executable's path.
pub open spec fn desktop_tail() -> Seq<char> {
    "\nTerminal=false\nX-GNOME-Autostart-enabled=true\n"@
}

/// The autostart entry that launches the executable at `exe` on login.
pub fn desktop_entry(exe: &str) -> (r: String)
    ensures
        r@ == desktop_head() + exe@ + desktop_tail(),
{
    let mut r = String::from_str(
        "[Desktop Entry]\nType=Application\nName=monotp\nComment=Encrypted TOTP authenticator\nExec=",
    );
    r.append(exe);
    r.append("\nTerminal=false\nX-GNOME-Autostart-enabled=true\n");
    r
}

} // verus!
