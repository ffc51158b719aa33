//! Review the difference between two branches, rendered for a browser.

pub mod change_laws;
pub mod context_laws;
pub mod diff;
pub mod diff_laws;
pub mod encoding;
pub mod git;
pub mod git_laws;
pub mod grammar;
pub mod groups;
pub mod highlight;
pub mod highlight_laws;
pub mod hunk_laws;
pub mod line_diff;
pub mod marks;
pub mod markup;
pub mod number;
pub mod order;
pub mod render;
pub mod repo;
pub mod repo_laws;
pub mod request_laws;
pub mod review;
pub mod review_laws;
pub mod row_laws;
pub mod scopes;
pub mod server;
pub mod server_laws;
pub mod session;
pub mod session_laws;
pub mod text;
pub mod text_laws;
pub mod token_laws;
