use anemo::cli::{after_connecting, random_key, CallStep, Service};

fn services() -> Vec<Service> {
    vec![
        Service {
            name: String::from("Greeter"),
            methods: vec![String::from("SayHello"), String::from("SayBye")],
        },
        Service {
            name: String::from("Counter"),
            methods: vec![],
        },
    ]
}

fn after(connected: bool, service: &str, method: &str) -> CallStep {
    after_connecting(
        connected,
        &services(),
        &String::from(service),
        &String::from(method),
    )
}

#[test]
fn configured_method_is_called() {
    assert_eq!(
        after(true, "Greeter", "SayBye"),
        CallStep::Call {
            service: 0,
            method: 1
        }
    );
}

#[test]
fn failure_to_connect_is_reported() {
    assert_eq!(
        after(false, "Greeter", "SayBye"),
        CallStep::ReportConnectError
    );
    assert_eq!(after(false, "", ""), CallStep::ReportConnectError);
}

#[test]
fn what_is_not_configured_is_not_called() {
    assert_eq!(after(true, "greeter", "SayBye"), CallStep::ServiceMissing);
    assert_eq!(after(true, "Counter", "SayBye"), CallStep::MethodMissing);
}

#[test]
fn keys_are_random() {
    let key = random_key();
    assert_ne!(key, [0u8; 32]);
    assert_ne!(key, random_key());
}
