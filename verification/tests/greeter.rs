use anemo::greeter::{HelloRequest, MyGreeter};

#[test]
fn caller_is_greeted_by_name() {
    let request = HelloRequest {
        name: String::from("world"),
    };
    assert_eq!(MyGreeter {}.say_hello(request).message, "Hello world!");

    let request = HelloRequest {
        name: String::new(),
    };
    assert_eq!(MyGreeter::default().say_hello(request).message, "Hello !");
}
