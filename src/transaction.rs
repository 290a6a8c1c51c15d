use vstd::prelude::*;

verus! {

/// HTTP request method.
#[derive(Clone, Copy, Debug, PartialEq, Eq, Structural)]
pub enum Method {
    Get,
    Head,
    Post,
    Put,
    Delete,
    Patch,
    Options,
}

/// A fully formed HTTP request.
#[derive(Clone, Debug)]
pub struct Request {
    pub method: Method,
    pub uri: String,
    pub headers: Vec<(String, String)>,
    pub body: Vec<u8>,
}

impl Request {
    /// A request with no headers and an empty body.
    pub fn new(method: Method, uri: String) -> (r: Request)
        ensures
            r.method == method,
            r.uri@ == uri@,
            r.headers@.len() == 0,
            r.body@.len() == 0,
    {
        Request { method, uri, headers: Vec::new(), body: Vec::new() }
    }
}

/// One outbound request paired with the sink that receives its result.
#[derive(Debug)]
pub struct Transaction<D> {
    pub deliverable: D,
    pub request: Request,
}

impl<D> Transaction<D> {
    pub fn new(deliverable: D, request: Request) -> (r: Transaction<D>)
        ensures
            r.deliverable == deliverable,
            r.request == request,
    {
        Transaction { deliverable, request }
    }
}

} // verus!
