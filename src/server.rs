//! The single-operation server: it takes one request at a time off its
//! transport and hands out a one-shot handle for the reply.
use crate::error::Error;
use crate::transport::Transport;
use vstd::prelude::*;

verus! {

/// A server over one connection.
pub struct Server<T> {
    transport: T,
}

impl<T: Transport> Server<T> {
    /// A server over `transport`.
    pub fn new(transport: T) -> (r: Server<T>)
        ensures
            r.transport() == transport,
    {
        Server { transport }
    }

    pub closed spec fn transport(&self) -> T {
        self.transport
    }

    /// The transport, to feed it what the connection delivers.
    pub fn transport_mut(&mut self) -> (r: &mut T)
        ensures
            *r == old(self).transport(),
            final(self).transport() == *final(r),
    {
        &mut self.transport
    }

    /// Whether a whole request has been received and waits to be taken.
    pub fn has_request(&self) -> (r: bool)
        ensures
            r == T::split_frame(self.transport().inbox()) is Some,
    {
        self.transport.has_message()
    }

    /// The next request received whole, with the handle for its reply; none
    /// while the bytes received so far hold no whole request.
    pub fn next(&mut self) -> (r: Option<(Vec<u8>, RequestHandle<'_, T>)>)
        ensures
            match T::split_frame(old(self).transport().inbox()) {
                Some((request, rest)) => {
                    &&& r matches Some((m, h)) && m@ == request && *h.transport() == final(
                        self).transport()
                    &&& final(self).transport().inbox() == rest
                },
                None => r is None && final(self).transport().inbox() == old(
                    self).transport().inbox(),
            },
    {
        match self.transport.take_message() {
            Some(request) => Some((request, RequestHandle { transport: &self.transport })),
            None => None,
        }
    }
}

/// The right to send exactly one reply to one request. Replying consumes it.
pub struct RequestHandle<'s, T> {
    transport: &'s T,
}

impl<'s, T: Transport> RequestHandle<'s, T> {
    pub closed spec fn transport(&self) -> &'s T {
        self.transport
    }

    /// Whether the caller withdrew the request. The protocol carries no
    /// cancellation, so a request once received stands.
    pub fn is_canceled(&self) -> (r: bool)
        ensures
            !r,
    {
        false
    }

    /// The bytes to write back: `response` framed for the connection the request
    /// came on.
    pub fn respond(self, response: &Vec<u8>) -> (r: Result<Vec<u8>, Error>)
        ensures
            T::accepts(response@) <==> r is Ok,
            r matches Ok(bytes) ==> bytes@ == T::frame_of(response@),
            r matches Err(e) ==> e is MsgSerFailed,
    {
        self.transport.frame(response)
    }
}

} // verus!
