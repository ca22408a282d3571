//! A DNS message codec: the fixed header, domain names with name
//! compression, question and answer records, and whole messages.
//!
//! Every encoder and decoder is specified by a function on byte sequences
//! and proved to compute it.

pub mod answer;
pub mod buffer;
pub mod error;
pub mod header;
pub mod label;
pub mod label_map;
pub mod message;
pub mod message_laws;
pub mod name_laws;
pub mod parse;
pub mod question;
pub mod question_type;

pub use answer::{DnsAnswer, DnsAnswerSet};
pub use error::DnsError;
pub use header::{DnsHeader, DnsPacketType};
pub use label::{Domain, Label, LabelByte};
pub use label_map::LabelMap;
pub use question::{DnsQuestion, DnsQuestionSet};
pub use question_type::QuestionType;
pub use message::{echo, DnsMessage};
pub use parse::{parse_data, parse_string, parse_u16, parse_u32, parse_u8, DnsData};
