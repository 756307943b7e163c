//! How a run of the runtime ends once both loops have stopped.

use vstd::prelude::*;
use vstd::string::StringExecFns;

verus! {

/// The message a run ends with, given the panic messages of the runtime loop
/// and of the logic loop, where they panicked; `None` where neither did.
pub fn end_message(rt_err: Option<&str>, logic_err: Option<&str>) -> (m: Option<String>)
    ensures
        match (rt_err, logic_err) {
            (Some(r), Some(l)) => m matches Some(s) && s@ == "Runtime and logic loops both panicked: "@
                + r@ + ", "@ + l@,
            (Some(r), None) => m matches Some(s) && s@ == "Runtime loop panicked: "@ + r@,
            (None, Some(l)) => m matches Some(s) && s@ == "Logic loop panicked: "@ + l@,
            (None, None) => m is None,
        },
{
    match (rt_err, logic_err) {
        (Some(r), Some(l)) => {
            let mut s = "Runtime and logic loops both panicked: ".to_owned();
            s.append(r);
            s.append(", ");
            s.append(l);
            Some(s)
        },
        (Some(r), None) => {
            let mut s = "Runtime loop panicked: ".to_owned();
            s.append(r);
            Some(s)
        },
        (None, Some(l)) => {
            let mut s = "Logic loop panicked: ".to_owned();
            s.append(l);
            Some(s)
        },
        (None, None) => None,
    }
}

} // verus!
