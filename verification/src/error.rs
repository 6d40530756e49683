//! The lister's failure kinds and their diagnostic text.

use vstd::prelude::*;

verus! {

/// A bad short option (unknown or duplicated character), or any other failure
/// message handed over by the operating system.
#[derive(Debug)]
pub enum Error {
    SubOption { sub: String, msg: String },
    Common { msg: String },
}

/// The diagnostic text of an error, exactly as it is printed.
pub open spec fn error_text(e: Error) -> Seq<char> {
    match e {
        Error::SubOption { sub, msg } => "sub option is error:\noption="@ + sub@ + "\nerror_msg="@
            + msg@,
        Error::Common { msg } => msg@,
    }
}

impl Error {
    /// Renders the diagnostic text of this error.
    pub fn message(&self) -> (r: String)
        ensures
            r@ == error_text(*self),
    {
        match self {
            Error::SubOption { sub, msg } => {
                let mut s = String::from_str("sub option is error:\noption=");
                s.append(sub.as_str());
                s.append("\nerror_msg=");
                s.append(msg.as_str());
                proof {
                    assert(s@ =~= error_text(*self));
                }
                s
            },
            Error::Common { msg } => msg.clone(),
        }
    }
}

} // verus!
