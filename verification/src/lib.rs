pub mod text;
pub mod slug;
pub mod index;
pub mod sessions;
pub mod tasks;
pub mod users;
pub mod export;
pub mod tokens;
pub mod oauth;
pub mod ai;
pub mod command;
pub mod audio;
pub mod capture;
pub mod notify;
pub mod cli;
