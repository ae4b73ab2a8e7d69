use vstd::prelude::*;

verus! {

/// A one-shot status message carried across a redirect: a kind — one of
/// "success", "error", "info", "warning" — and the text to show.
#[derive(Debug, Clone)]
pub struct FlashMessage {
    pub kind: String,
    pub message: String,
}

impl FlashMessage {
    /// A message of kind "success".
    pub fn success(message: String) -> (r: FlashMessage)
        ensures
            r.kind@ == "success"@,
            r.message == message,
    {
        FlashMessage { kind: "success".to_string(), message }
    }

    /// A message of kind "error".
    pub fn error(message: String) -> (r: FlashMessage)
        ensures
            r.kind@ == "error"@,
            r.message == message,
    {
        FlashMessage { kind: "error".to_string(), message }
    }

    /// A message of kind "info".
    pub fn info(message: String) -> (r: FlashMessage)
        ensures
            r.kind@ == "info"@,
            r.message == message,
    {
        FlashMessage { kind: "info".to_string(), message }
    }

    /// A message of kind "warning".
    pub fn warning(message: String) -> (r: FlashMessage)
        ensures
            r.kind@ == "warning"@,
            r.message == message,
    {
        FlashMessage { kind: "warning".to_string(), message }
    }
}

} // verus!
