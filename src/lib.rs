pub mod dns_header;
pub mod dns_message;
pub mod dns_question_and_answer;
pub mod domain_name;
pub mod error;
pub mod forwarder;
pub mod local;
pub mod wire;
