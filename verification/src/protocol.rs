//! Wire entities of the streaming protocol.
//!
//! Every frame on the channel is one [`Message`]: a tagged envelope holding a
//! serialized sub-message as its payload. `Data` payloads carry one chunk of
//! a sample, `Control` payloads carry a command, `Error` payloads report a
//! failure. Each frame is self-contained; only `DataMessage.offset`/`total`
//! tie the chunks of one sample together.

use vstd::prelude::*;

verus! {

/// Tag of a frame: sample data, a client command, or an error report.
#[derive(Clone, Copy, Debug, PartialEq, Eq, Structural)]
pub enum MessageType {
    Data,
    Control,
    Error,
}

/// The envelope every frame carries.
#[derive(Debug)]
pub struct Message {
    pub type_field: MessageType,
    pub id: String,
    pub timestamp: u64,
    pub payload: Vec<u8>,
}

/// Abstract value of a [`Message`].
pub struct MessageView {
    pub type_field: MessageType,
    pub id: Seq<char>,
    pub timestamp: u64,
    pub payload: Seq<u8>,
}

impl View for Message {
    type V = MessageView;

    open spec fn view(&self) -> MessageView {
        MessageView {
            type_field: self.type_field,
            id: self.id@,
            timestamp: self.timestamp,
            payload: self.payload@,
        }
    }
}

/// One chunk of a sample: `chunk` starts at byte `offset` of a sample of
/// `total` bytes, so `offset + chunk.len() == total` marks the last chunk.
#[derive(Debug)]
pub struct DataMessage {
    pub offset: usize,
    pub total: usize,
    pub chunk: Vec<u8>,
}

/// Abstract value of a [`DataMessage`].
pub struct DataMessageView {
    pub offset: usize,
    pub total: usize,
    pub chunk: Seq<u8>,
}

impl View for DataMessage {
    type V = DataMessageView;

    open spec fn view(&self) -> DataMessageView {
        DataMessageView { offset: self.offset, total: self.total, chunk: self.chunk@ }
    }
}

/// A client command. `params`, when present, holds the still-serialized
/// parameter value exactly as it stood on the wire.
#[derive(Debug)]
pub struct ControlMessage {
    pub command: String,
    pub params: Option<Vec<u8>>,
}

/// Abstract value of a [`ControlMessage`].
pub struct ControlMessageView {
    pub command: Seq<char>,
    pub params: Option<Seq<u8>>,
}

impl View for ControlMessage {
    type V = ControlMessageView;

    open spec fn view(&self) -> ControlMessageView {
        ControlMessageView {
            command: self.command@,
            params: match self.params {
                Some(ref p) => Some(p@),
                None => None,
            },
        }
    }
}

/// Parameters of the one recognized command: how many bytes to sample, and an
/// optional method name (unused by the sampler, kept for the wire schema).
#[derive(Debug)]
pub struct SampleRequest {
    pub sample_size: usize,
    pub method: Option<String>,
}

/// Abstract value of a [`SampleRequest`].
pub struct SampleRequestView {
    pub sample_size: usize,
    pub method: Option<Seq<char>>,
}

impl View for SampleRequest {
    type V = SampleRequestView;

    open spec fn view(&self) -> SampleRequestView {
        SampleRequestView {
            sample_size: self.sample_size,
            method: match self.method {
                Some(ref m) => Some(m@),
                None => None,
            },
        }
    }
}

/// An error report sent on the channel before the session closes.
#[derive(Debug)]
pub struct ErrorMessage {
    pub code: u16,
    pub message: String,
    pub details: Option<Vec<u8>>,
}

/// Abstract value of an [`ErrorMessage`].
pub struct ErrorMessageView {
    pub code: u16,
    pub message: Seq<char>,
    pub details: Option<Seq<u8>>,
}

impl View for ErrorMessage {
    type V = ErrorMessageView;

    open spec fn view(&self) -> ErrorMessageView {
        ErrorMessageView {
            code: self.code,
            message: self.message@,
            details: match self.details {
                Some(ref d) => Some(d@),
                None => None,
            },
        }
    }
}

} // verus!
