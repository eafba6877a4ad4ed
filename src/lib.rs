//! DNS wire-format message codec: header bit-packing, length-prefixed
//! labels with single-hop compression pointers, question and answer
//! records, and the decisions of a forwarding resolver.
//!
//! Every decoder is stated against a specification of the wire format
//! (`spec_parse_*`), every encoder against the bytes it writes
//! (`*_bytes`); `round_trip` proves that the two agree.

pub mod answer;
pub mod error;
pub mod forward;
pub mod header;
pub mod labels;
pub mod message;
pub mod question;
pub mod record_class;
pub mod record_type;
pub mod round_trip;
pub mod text;
pub mod wire;

pub use answer::AnswerSection;
pub use error::DnsError;
pub use header::{Header, HeaderFlags, OpCode, QrFlag, ResponseCode};
pub use message::Message;
pub use question::QuestionSection;
pub use record_class::ResourceRecordClass;
pub use record_type::ResourceRecordType;
