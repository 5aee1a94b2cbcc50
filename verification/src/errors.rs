//! What can go wrong in the HTTP API itself.
use vstd::prelude::*;
use vstd::string::StringExecFns;

verus! {

#[derive(Debug)]
pub enum AppError {
    /// The node no longer takes requests.
    ChannelClosed,
    InvalidKey(String),
}

impl AppError {
    /// The number of the HTTP status.
    pub open spec fn code(&self) -> u16 {
        match self {
            AppError::ChannelClosed => 503u16,
            AppError::InvalidKey(_) => 400u16,
        }
    }

    /// The text of the response.
    pub open spec fn body(&self) -> Seq<char> {
        match self {
            AppError::ChannelClosed => "request channel closed - node is shutting down"@,
            AppError::InvalidKey(key) => "invalid key: "@ + key@,
        }
    }

    /// The HTTP status: service unavailable, or bad request.
    pub fn status(&self) -> (r: u16)
        ensures
            r == self.code(),
            r == (match self {
                AppError::ChannelClosed => 503u16,
                AppError::InvalidKey(_) => 400u16,
            }),
    {
        match self {
            AppError::ChannelClosed => 503,
            AppError::InvalidKey(_) => 400,
        }
    }

    /// What the body of the response says.
    pub fn message(&self) -> (r: String)
        ensures
            r@ == self.body(),
            r@ == (match self {
                AppError::ChannelClosed => "request channel closed - node is shutting down"@,
                AppError::InvalidKey(key) => "invalid key: "@ + key@,
            }),
    {
        match self {
            AppError::ChannelClosed => {
                "request channel closed - node is shutting down".to_owned()
            },
            AppError::InvalidKey(key) => {
                let mut text = "invalid key: ".to_owned();
                text.append(key.as_str());
                text
            },
        }
    }
}

/// A node that takes no requests is at fault itself; a bad key is the client's
/// fault, and the response names the key.
pub proof fn errors_say_whose_fault_it_is(key: String)
    ensures
        AppError::ChannelClosed.code() == 503,
        AppError::InvalidKey(key).code() == 400,
        AppError::InvalidKey(key).body().len() == "invalid key: "@.len() + key@.len(),
        AppError::InvalidKey(key).body().skip("invalid key: "@.len() as int) == key@,
{
    assert(AppError::InvalidKey(key).body().skip("invalid key: "@.len() as int) =~= key@);
}

} // verus!
