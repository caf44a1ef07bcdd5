//! Text for the serial console, wrapped in the escape sequences that colour
//! it.

use vstd::prelude::*;

verus! {

/// Text to be shown in red.
pub struct Red(pub &'static str);

impl Red {
    /// The text between the escape sequence for bright red and the one
    /// that resets the colour.
    pub fn to_string(&self) -> (text: String)
        ensures
            text@ == "\x1B[91m"@ + self.0@ + "\x1B[0m"@,
    {
        let mut text = String::from_str("\x1B[91m");
        text.append(self.0);
        text.append("\x1B[0m");
        text
    }
}

/// Text to be shown in green.
pub struct Green(pub &'static str);

impl Green {
    /// The text between the escape sequence for green and the one that
    /// resets the colour.
    pub fn to_string(&self) -> (text: String)
        ensures
            text@ == "\x1B[32m"@ + self.0@ + "\x1B[0m"@,
    {
        let mut text = String::from_str("\x1B[32m");
        text.append(self.0);
        text.append("\x1B[0m");
        text
    }
}

} // verus!
