//! Platform error type. Backend errors are flattened into this type at the
//! boundary: no variant carries a backend value.
use vstd::prelude::*;
use vstd::string::*;

verus! {

/// A failure raised by the platform layer.
#[derive(Debug, Clone, PartialEq, Eq)]
#[non_exhaustive]
pub enum PlatformError {
    /// The event loop could not be created, or exited abnormally.
    EventLoop(String),
    /// A window requested by a command could not be created.
    WindowCreation(String),
}

impl PlatformError {
    /// The message a user is shown for this failure.
    pub open spec fn text(self) -> Seq<char> {
        match self {
            PlatformError::EventLoop(m) => "event loop failure: "@ + m@,
            PlatformError::WindowCreation(m) => "window creation failed: "@ + m@,
        }
    }

    /// The message a user is shown for this failure.
    pub fn to_string(&self) -> (r: String)
        ensures
            r@ == self.text(),
    {
        match self {
            PlatformError::EventLoop(message) => {
                let mut r = String::from_str("event loop failure: ");
                r.append(message.as_str());
                r
            },
            PlatformError::WindowCreation(message) => {
                let mut r = String::from_str("window creation failed: ");
                r.append(message.as_str());
                r
            },
        }
    }
}

} // verus!
