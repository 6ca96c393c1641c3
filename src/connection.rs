use vstd::prelude::*;

use crate::data::{Data, DataView};
use crate::error::Error;

verus! {

/// Whether a connection can still be used. It turns dead on the first error that is not
/// transient, and stays dead.
#[derive(Debug, Clone, Copy, PartialEq, Eq, Structural)]
pub struct Status {
    dead: bool,
}

impl Status {
    pub closed spec fn dead(&self) -> bool {
        self.dead
    }

    /// The status of a connection that has just been opened.
    pub fn new() -> (r: Status)
        ensures
            !r.dead(),
    {
        Status { dead: false }
    }

    /// Whether the connection has met an error that is not transient.
    pub fn is_dead(&self) -> (r: bool)
        ensures
            r == self.dead(),
    {
        self.dead
    }

    /// Takes note of the result of an operation on the connection and hands it back.
    pub fn observe<T>(&mut self, r: Result<T, Error>) -> (out: Result<T, Error>)
        ensures
            out == r,
            final(self).dead() == (old(self).dead() || (r matches Err(e) && !(e is Redis))),
    {
        let fatal = match &r {
            Err(e) => !e.is_transient(),
            Ok(_) => false,
        };
        if fatal {
            self.dead = true;
        }
        r
    }
}

/// The frame that sends a command: an array of bulk strings, one per argument.
pub fn command(args: &[&[u8]]) -> (r: Data)
    ensures
        r@ == DataView::Arr(Seq::new(args@.len(), |i: int| DataView::Bulk(args@[i]@))),
{
    Data::from_bytes_iter(args)
}

/// Whether a reply to `PING` shows a healthy connection: the simple string `PONG`.
pub fn is_pong(reply: &Data) -> (r: bool)
    ensures
        r == (reply@ == DataView::Simple(seq!['P', 'O', 'N', 'G'])),
{
    match reply {
        Data::SimpleString(s) => {
            let pong = "PONG".to_owned();
            proof {
                reveal_strlit("PONG");
                assert(pong@ =~= seq!['P', 'O', 'N', 'G']);
            }
            *s == pong
        },
        _ => false,
    }
}

/// A connection pool manager: what it needs to open connections to one address.
#[derive(Debug, Clone)]
pub struct Manager<A> {
    addr: A,
}

impl<A> Manager<A> {
    pub closed spec fn spec_addr(&self) -> A {
        self.addr
    }

    /// Make a new manager.
    pub fn new(addr: A) -> (r: Manager<A>)
        ensures
            r.spec_addr() == addr,
    {
        Manager { addr }
    }

    /// The address that connections are opened to.
    pub fn addr(&self) -> (r: &A)
        ensures
            *r == self.spec_addr(),
    {
        &self.addr
    }

    /// Whether a pooled connection must be dropped: it is dead.
    pub fn has_broken(&self, status: &Status) -> (r: bool)
        ensures
            r == status.dead(),
    {
        status.is_dead()
    }
}

} // verus!
