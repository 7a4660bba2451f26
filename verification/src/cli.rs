//! What the command line tool decides.

use rand::RngCore;
use vstd::prelude::*;
use vstd::string::*;

verus! {

/// [`RngCore::fill_bytes`] on the generator of the thread: 32 random bytes. Nothing
/// can be said of their value.
#[verifier::external_body]
pub fn drawn_bytes() -> [u8; 32] {
    let mut bytes: [u8; 32] = [0u8; 32];
    rand::thread_rng().fill_bytes(&mut bytes);
    bytes
}

/// A random private key: bytes that the generator of the thread has drawn.
pub fn random_key() -> (key: [u8; 32])
    ensures
        call_ensures(drawn_bytes, (), key),
{
    drawn_bytes()
}

/// A service that the tool can call, with the names of its methods.
pub struct Service {
    pub name: String,
    pub methods: Vec<String>,
}

/// What is to be done when the attempt to connect to a peer is over.
#[derive(Debug, Clone, Copy, PartialEq, Eq, Structural)]
pub enum CallStep {
    /// Report that it failed, and stop.
    ReportConnectError,
    /// Call this method of this service, print what it returns and disconnect.
    Call { service: usize, method: usize },
    /// Stop: the service is not configured.
    ServiceMissing,
    /// Stop: the service has no such method.
    MethodMissing,
}

/// Whether `index` is that of the first service called `name`.
pub open spec fn is_service_index(services: Seq<Service>, name: Seq<char>, index: int) -> bool {
    &&& 0 <= index < services.len()
    &&& services[index].name@ == name
    &&& forall|i: int| 0 <= i < index ==> (#[trigger] services[i]).name@ != name
}

/// Whether `index` is that of the first of the given names that is `name`.
pub open spec fn is_name_index(names: Seq<String>, name: Seq<char>, index: int) -> bool {
    &&& 0 <= index < names.len()
    &&& names[index]@ == name
    &&& forall|i: int| 0 <= i < index ==> (#[trigger] names[i])@ != name
}

/// The index of the first service called `name`.
fn find_service(services: &Vec<Service>, name: &String) -> (found: Option<usize>)
    ensures
        match found {
            Some(index) => {
                &&& is_service_index(services@, name@, index as int)
                &&& index < services@.len()
                &&& services@[index as int].name@ == name@
            },
            None => forall|i: int|
                0 <= i < services@.len() ==> (#[trigger] services@[i]).name@ != name@,
        },
{
    for index in 0..services.len()
        invariant
            forall|i: int| 0 <= i < index ==> (#[trigger] services@[i]).name@ != name@,
    {
        if services[index].name == *name {
            return Some(index);
        }
    }
    None
}

/// The index of the first name that is `name`.
fn find_name(names: &Vec<String>, name: &String) -> (found: Option<usize>)
    ensures
        match found {
            Some(index) => {
                &&& is_name_index(names@, name@, index as int)
                &&& index < names@.len()
                &&& names@[index as int]@ == name@
            },
            None => forall|i: int| 0 <= i < names@.len() ==> (#[trigger] names@[i])@ != name@,
        },
{
    for index in 0..names.len()
        invariant
            forall|i: int| 0 <= i < index ==> (#[trigger] names@[i])@ != name@,
    {
        if names[index] == *name {
            return Some(index);
        }
    }
    None
}

/// What is to be done when the attempt to connect is over, in order to call a
/// method of a service that are given by name.
pub fn after_connecting(
    connected: bool,
    services: &Vec<Service>,
    service_name: &String,
    method_name: &String,
) -> (step: CallStep)
    ensures
        match step {
            CallStep::ReportConnectError => !connected,
            CallStep::Call { service, method } => {
                &&& connected
                &&& service < services@.len()
                &&& services@[service as int].name@ == service_name@
                &&& forall|i: int|
                    0 <= i < service ==> (#[trigger] services@[i]).name@ != service_name@
                &&& method < services@[service as int].methods@.len()
                &&& services@[service as int].methods@[method as int]@ == method_name@
                &&& forall|i: int|
                    0 <= i < method ==> (#[trigger] services@[service as int].methods@[i])@
                        != method_name@
                &&& is_service_index(services@, service_name@, service as int)
                &&& is_name_index(
                    services@[service as int].methods@,
                    method_name@,
                    method as int,
                )
            },
            CallStep::ServiceMissing => {
                &&& connected
                &&& forall|i: int|
                    0 <= i < services@.len() ==> (#[trigger] services@[i]).name@ != service_name@
            },
            CallStep::MethodMissing => {
                &&& connected
                &&& exists|service: int| #[trigger]
                    is_service_index(services@, service_name@, service) && 0 <= service
                    < services@.len() && services@[service].name@ == service_name@ && forall|i: int|
                        0 <= i < services@[service].methods@.len() ==> (
                        #[trigger] services@[service].methods@[i])@ != method_name@
            },
        },
{
    if !connected {
        return CallStep::ReportConnectError;
    }
    match find_service(services, service_name) {
        None => CallStep::ServiceMissing,
        Some(service) => match find_name(&services[service].methods, method_name) {
            None => {
                assert(is_service_index(services@, service_name@, service as int));
                CallStep::MethodMissing
            },
            Some(method) => CallStep::Call { service, method },
        },
    }
}

/// The index of a service is that of a service with the name, and no earlier one has it.
pub proof fn service_index_has_the_name(services: Seq<Service>, name: Seq<char>, index: int)
    ensures
        is_service_index(services, name, index) <==> 0 <= index < services.len()
            && services[index].name@ == name && !services.take(index).map_values(
            |service: Service| service.name@,
        ).contains(name),
{
    if 0 <= index < services.len() {
        let earlier = services.take(index).map_values(|service: Service| service.name@);
        assert forall|i: int| 0 <= i < index implies earlier[i] == (
        #[trigger] services[i]).name@ by {}
        if earlier.contains(name) {
            let i = earlier.index_of(name);
            assert(services[i].name@ == name);
        }
        if !is_service_index(services, name, index) && services[index].name@ == name {
            let i = choose|i: int| 0 <= i < index && (#[trigger] services[i]).name@ == name;
            assert(earlier[i] == name);
        }
    }
}

/// The index of a name is where the name stands, and it stands at no earlier place.
pub proof fn name_index_has_the_name(names: Seq<String>, name: Seq<char>, index: int)
    ensures
        is_name_index(names, name, index) <==> 0 <= index < names.len() && names[index]@ == name
            && !names.take(index).map_values(|other: String| other@).contains(name),
{
    if 0 <= index < names.len() {
        let earlier = names.take(index).map_values(|other: String| other@);
        assert forall|i: int| 0 <= i < index implies earlier[i] == (#[trigger] names[i])@ by {}
        if earlier.contains(name) {
            let i = earlier.index_of(name);
            assert(names[i]@ == name);
        }
        if !is_name_index(names, name, index) && names[index]@ == name {
            let i = choose|i: int| 0 <= i < index && (#[trigger] names[i])@ == name;
            assert(earlier[i] == name);
        }
    }
}

} // verus!
