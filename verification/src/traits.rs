//! Writing a greeting to any writer.
use vstd::prelude::*;
use std::io::Write;

verus! {

/// The bytes of the greeting: `Hello World` and a line feed.
pub open spec fn greeting_bytes() -> Seq<u8> {
    seq![72u8, 101, 108, 108, 111, 32, 87, 111, 114, 108, 100, 10]
}

/// `Write::write_all` of the greeting on a writer of a generic type. Only
/// the greeting may be handed to it. What the writer does with it, and
/// whether it fails, is up to the writer; nothing is claimed.
#[verifier::external_body]
fn write_greeting<T: Write + ?Sized>(out: &mut T, buf: &[u8]) -> (r: std::io::Result<()>)
    requires
        buf@ == greeting_bytes(),
{
    out.write_all(buf)
}

/// `Write::flush` on a writer of a generic type; nothing is claimed.
#[verifier::external_body]
fn flush_generic<T: Write + ?Sized>(out: &mut T) -> (r: std::io::Result<()>) {
    out.flush()
}

/// The bytes of the greeting: `Hello World` and a line feed.
pub fn greeting() -> (g: [u8; 12])
    ensures
        g@ == greeting_bytes(),
{
    [72u8, 101, 108, 108, 111, 32, 87, 111, 114, 108, 100, 10]
}

/// Writes the greeting to `out` and flushes it; the first error is handed
/// back and nothing is flushed after a failed write. `out` may be a
/// `dyn Write`.
pub fn say_hello<W: Write + ?Sized>(out: &mut W) -> std::io::Result<()> {
    let g = greeting();
    match write_greeting(out, &g) {
        Ok(()) => {},
        Err(e) => return Err(e),
    }
    flush_generic(out)
}

/// `say_hello` for a writer of a known type.
pub fn say_hello_g<T: Write>(out: &mut T) -> std::io::Result<()> {
    let g = greeting();
    match write_greeting(out, &g) {
        Ok(()) => {},
        Err(e) => return Err(e),
    }
    flush_generic(out)
}

} // verus!
