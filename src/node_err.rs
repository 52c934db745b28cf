//! Errors of building nodes and of running their drivers.
use vstd::prelude::*;

verus! {

/// A node could not be built; the text says why.
#[derive(Debug, Clone)]
pub struct NodeCreationErr(pub String);

impl NodeCreationErr {
    pub fn to_string(&self) -> (r: String)
        ensures
            r@ == "Error while creating Node: \""@ + self.0@ + "\""@,
    {
        String::from_str("Error while creating Node: \"").concat(self.0.as_str()).concat("\"")
    }
}

/// A driver function failed: which one, and why.
#[derive(Debug, Clone)]
pub struct NodeExecutionErr {
    driver: String,
    cause: String,
}

impl NodeExecutionErr {
    pub fn new(driver: String, cause: String) -> (r: Self)
        ensures
            r.driver_name()@ == driver@,
            r.cause_text()@ == cause@,
    {
        Self { driver, cause }
    }

    pub closed spec fn driver_name(&self) -> String {
        self.driver
    }

    pub closed spec fn cause_text(&self) -> String {
        self.cause
    }

    pub fn to_string(&self) -> (r: String)
        ensures
            r@ == "Error while execting driver function \""@ + self.driver_name()@ + "\", cause: "@ + self.cause_text()@,
    {
        String::from_str("Error while execting driver function \"")
            .concat(self.driver.as_str())
            .concat("\", cause: ")
            .concat(self.cause.as_str())
    }
}

} // verus!
