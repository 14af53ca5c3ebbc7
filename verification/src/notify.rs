//! The wording of a native notification. Notifications only inform: the user
//! acts on them, or does not.
use crate::alerts::{escaped, osa_quote, Alert, AlertView};
use vstd::prelude::*;
use vstd::string::StringExecFns;

verus! {

/// A text as an AppleScript string.
pub open spec fn quoted(s: Seq<char>) -> Seq<char> {
    seq!['"'] + escaped(s) + seq!['"']
}

/// The AppleScript that shows an alert.
pub open spec fn notification(alert: AlertView) -> Seq<char> {
    "display notification "@ + quoted(alert.message) + " with title "@ + quoted(alert.title)
        + " sound name \"Glass\""@
}

/// The AppleScript that shows an alert.
pub fn notification_script(alert: &Alert) -> (r: String)
    ensures
        r@ == notification(alert@),
{
    let mut r = "display notification ".to_string();
    r.append(osa_quote(alert.message.as_str()).as_str());
    r.append(" with title ");
    r.append(osa_quote(alert.title.as_str()).as_str());
    r.append(" sound name \"Glass\"");
    r
}

/// A notification shows the message under the title, each as a quoted string.
pub proof fn law_notification(alert: AlertView)
    ensures
        notification(alert) == "display notification "@ + (seq!['"'] + escaped(alert.message)
            + seq!['"']) + " with title "@ + (seq!['"'] + escaped(alert.title) + seq!['"'])
            + " sound name \"Glass\""@,
{
}

} // verus!
