//! A service that greets whoever calls it, as an example.

use vstd::prelude::*;
use vstd::string::*;

verus! {

/// A request to be greeted.
#[derive(Debug)]
pub struct HelloRequest {
    pub name: String,
}

/// A greeting.
#[derive(Debug)]
pub struct HelloResponse {
    pub message: String,
}

/// The service.
#[derive(Default)]
pub struct MyGreeter {}

impl MyGreeter {
    /// Greets the caller by name.
    pub fn say_hello(&self, request: HelloRequest) -> (response: HelloResponse)
        ensures
            response.message@ == "Hello "@ + request.name@ + "!"@,
    {
        let mut message = String::from_str("Hello ");
        message.append(request.name.as_str());
        message.append("!");
        HelloResponse { message }
    }
}

} // verus!
