use lednet::streams::{StreamPoll, TestStream};

#[test]
fn it_works() {}

#[test]
fn test_test_stream() {
    let mut test = TestStream::new();
    println!("{:?}", test);
    let polled = test.poll();
    println!("{:?}", polled);
    assert!(matches!(polled, StreamPoll::NotReady));
    println!("HELLO");
}
