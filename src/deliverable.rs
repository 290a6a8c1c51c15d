use vstd::prelude::*;

verus! {

/// An HTTP response as the worker hands it on.
#[derive(Clone, Debug)]
pub struct Response {
    pub status: u16,
    pub body: Vec<u8>,
}

impl Response {
    pub fn new(status: u16, body: Vec<u8>) -> (r: Response)
        ensures
            r.status == status,
            r.body@ == body@,
    {
        Response { status, body }
    }

    pub fn status(&self) -> (r: u16)
        ensures
            r == self.status,
    {
        self.status
    }

    /// A status in the 2xx range.
    pub open spec fn success(&self) -> bool {
        200 <= self.status <= 299
    }

    pub fn is_success(&self) -> (r: bool)
        ensures
            r == self.success(),
    {
        200 <= self.status && self.status <= 299
    }
}

/// A transport or protocol failure reported by the HTTP client.
#[derive(Clone, Debug)]
pub struct TransportError {
    pub message: String,
}

/// The terminal value handed to a transaction's deliverable.
#[derive(Debug)]
pub enum DeliveryResult {
    /// A response arrived (any status).
    Response { response: Response, duration_ms: u64 },
    /// The transaction's deadline passed before a response arrived.
    Timeout { duration_ms: u64 },
    /// The HTTP client reported a failure.
    HyperError { error: TransportError },
    /// The transaction was abandoned without completing.
    Dropped,
}

/// The sink that handles the completion of a transaction.
///
/// `complete` consumes the deliverable, so it runs at most once; it runs on the
/// worker's thread and should hand the result on without blocking.
pub trait Deliverable: Sized + Send + 'static {
    fn complete(self, result: DeliveryResult);
}

#[verifier::external_type_specification]
#[verifier::external_body]
#[verifier::reject_recursive_types(T)]
pub struct ExSender<T>(std::sync::mpsc::Sender<T>);

/// Relies on std::sync::mpsc::Sender::send, which queues the value for the
/// receiver or hands it back when the receiver is gone; a result that cannot be
/// sent is discarded.
#[verifier::external_body]
fn send_result(sender: &std::sync::mpsc::Sender<DeliveryResult>, result: DeliveryResult) {
    let _ = sender.send(result);
}

impl Deliverable for std::sync::mpsc::Sender<DeliveryResult> {
    fn complete(self, result: DeliveryResult) {
        send_result(&self, result);
    }
}

} // verus!
