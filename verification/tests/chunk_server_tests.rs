use gfs_master::chunk_server::{
    bad_request, find_available_port, hello, not_found, payload_too_large, CHUNK_SIZE_MAX, MAX_PORT,
    START_PORT,
};
use std::cell::RefCell;

#[test]
fn port_range_and_body_limit() {
    assert_eq!(START_PORT, 8000);
    assert_eq!(MAX_PORT, 8100);
    assert_eq!(CHUNK_SIZE_MAX, 1024 * 1024 * 256);
}

#[test]
fn the_first_free_port_is_found() {
    let asked = RefCell::new(Vec::new());
    let probe = |port: u16| {
        asked.borrow_mut().push(port);
        port >= 8003
    };
    assert_eq!(find_available_port(8000, 8100, probe), Some(8003));
    assert_eq!(*asked.borrow(), vec![8000, 8001, 8002, 8003]);
}

#[test]
fn no_free_port() {
    let asked = RefCell::new(0u32);
    let probe = |_port: u16| {
        *asked.borrow_mut() += 1;
        false
    };
    assert_eq!(find_available_port(8000, 8100, probe), None);
    assert_eq!(*asked.borrow(), 101);
}

#[test]
fn port_range_edges() {
    assert_eq!(find_available_port(5, 5, |_| true), Some(5));
    assert_eq!(find_available_port(5, 5, |_| false), None);
    assert_eq!(find_available_port(6, 5, |_| true), None);
    assert_eq!(find_available_port(65535, 65535, |_| false), None);
    assert_eq!(find_available_port(65530, 65535, |p| p == 65535), Some(65535));
    assert_eq!(find_available_port(0, 65535, |_| false), None);
}

#[test]
fn fixed_answers() {
    assert_eq!(hello(), "Hello, world! from Chunk Server\n");
    assert_eq!(bad_request(), "400 Bad Request\n");
    assert_eq!(not_found(), "404 Not Found\n");
    assert_eq!(payload_too_large(), "413 Payload Too Large\n");
}
