//! The server's configuration.
use vstd::prelude::*;

verus! {

/// A server bound to one socket address.
pub struct Server<'a> {
    socket_addr: &'a str,
}

impl<'a> Server<'a> {
    /// The address that the server listens on.
    pub closed spec fn address(&self) -> Seq<char> {
        self.socket_addr@
    }

    /// A server for the address `socket_addr`.
    pub fn new(socket_addr: &'a str) -> (server: Self)
        ensures
            server.address() == socket_addr@,
    {
        Server { socket_addr }
    }

    /// The address that the server listens on.
    pub fn socket_addr(&self) -> (addr: &'a str)
        ensures
            addr@ == self.address(),
    {
        self.socket_addr
    }
}

} // verus!
