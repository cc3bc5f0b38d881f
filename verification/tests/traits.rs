use playground::traits::{greeting, say_hello, say_hello_g};
use std::io::Write;

#[test]
fn greeting_bytes() {
    assert_eq!(&greeting(), b"Hello World\n");
}

#[test]
fn say_hello_writes_the_greeting() {
    let mut out: Vec<u8> = Vec::new();
    say_hello(&mut out).unwrap();
    assert_eq!(out, b"Hello World\n");
    let dynamic: &mut dyn Write = &mut out;
    say_hello(dynamic).unwrap();
    assert_eq!(out, b"Hello World\nHello World\n");
}

#[test]
fn say_hello_g_writes_the_greeting() {
    let mut out: Vec<u8> = Vec::new();
    say_hello_g(&mut out).unwrap();
    assert_eq!(out, b"Hello World\n");
}

struct Broken;

impl Write for Broken {
    fn write(&mut self, _: &[u8]) -> std::io::Result<usize> {
        Err(std::io::Error::new(std::io::ErrorKind::Other, "broken"))
    }
    fn flush(&mut self) -> std::io::Result<()> {
        Ok(())
    }
}

#[test]
fn say_hello_hands_back_the_write_error() {
    assert!(say_hello(&mut Broken).is_err());
}
