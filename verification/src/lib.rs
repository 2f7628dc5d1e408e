//! Export of atuin shell history to fish, bash and zsh history files.
pub mod path;
pub mod text;
pub mod lexer;
pub mod fish_paths;
pub mod atuin;
pub mod export;
pub mod shell;
pub mod cli;
