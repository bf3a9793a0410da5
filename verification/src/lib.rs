//! Correction of failed shell commands through a chat-style completion
//! service: a tag codec for the wire payload, typed request and response
//! models, and shell-history extraction and entry formatting.

pub mod codec;
pub mod history;
pub mod request;
pub mod response;
pub mod sysprompt;

pub use history::extract_candidate;
pub use history::format_history_entry;
pub use history::CommandError;
pub use request::Request;
pub use request::RequestError;
pub use response::Response;
pub use response::ResponseError;
pub use sysprompt::get_sys_prompt;
