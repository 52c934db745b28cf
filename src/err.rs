//! The application-level error kinds.
use vstd::prelude::*;

verus! {

#[derive(Debug, Clone)]
pub enum ConmxErr {
    Net(String),
    Win(String),
    Locale(String),
}

impl ConmxErr {
    /// The text that names the kind of the error, followed by its detail.
    pub fn to_string(&self) -> (r: String)
        ensures
            r@ == match self {
                ConmxErr::Net(s) => "Network Error: "@ + s@,
                ConmxErr::Win(s) => "UI Error: "@ + s@,
                ConmxErr::Locale(s) => "Localization Error: "@ + s@,
            },
    {
        match self {
            ConmxErr::Net(s) => String::from_str("Network Error: ").concat(s.as_str()),
            ConmxErr::Win(s) => String::from_str("UI Error: ").concat(s.as_str()),
            ConmxErr::Locale(s) => String::from_str("Localization Error: ").concat(s.as_str()),
        }
    }
}

} // verus!
