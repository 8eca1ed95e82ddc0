//! A verified binary codec for DNS messages.
//!
//! The library decodes a raw UDP payload into a structured packet (header,
//! questions, resource records) and serialises a constructed packet back to
//! wire bytes. Domain names on the wire use length-prefixed labels with
//! backward pointer compression, so name decoding is position-aware over the
//! whole message buffer and bounded against malicious pointer chains.

pub mod bytes;
pub mod error;
pub mod header;
pub mod name;
pub mod packet;
pub mod record;

pub use bytes::pack_u16;
pub use header::{parse_dns_header, pack_header, DnsHeader};
pub use error::DnsError;
pub use name::{pack_label, parse_label, parse_label_part, Label, LabelPart};
pub use packet::{parse_packet, DnsPacket};
pub use record::{pack_question, pack_questions, parse_question, parse_record, parse_record_preamble, DnsQuestion, DnsRecord, DnsRecordPreamble, Ipv4Address, RecordType};
