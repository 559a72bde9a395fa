//! A small command interpreter core, verified, with the text utilities and
//! the event store that sit beside it.
//!
//! The interpreter reads a line as shell words (`parser`), groups them into
//! commands between `|` and `&` and classifies each (`cmd`), and builds a
//! right-grouping expression tree. Its evaluation (`eval`) is a state
//! machine: each step names the process work to do next (run a command with
//! an input, fork), and the caller answers with what happened. The builtins'
//! own logic (`builtin`) covers the process table rewrite, `cd` targets and
//! the results of external programs.
//!
//! Beside it: run-length unpacking (`unpack`), anagram groups (`anagram`),
//! grep-style context windows (`grep`), field cutting (`cut`), word and
//! letter counts (`wc`, `letters`), queue interleaving (`merge`), sort
//! orders (`sort`) and a per-user event store (`storage`).

mod anagram;
mod builtin;
mod cmd;
mod cut;
mod error;
mod eval;
mod grep;
mod letters;
mod merge;
mod order;
mod parser;
mod scan;
mod sort;
mod storage;
mod text;
mod unpack;
mod wc;

pub use anagram::{get_anagrams, group_anagrams, Anagrams};
pub use builtin::{cd_target, chdir_failure, external_result, ps_table, pure_output};
pub use cmd::{classify, kill_command, Cmd, CmdView};
pub use cut::{cut, field_parser, field_set, format_with_or, ParseFieldError};
pub use error::ShellError;
pub use eval::{Evaluation, Expr, Reply, Step};
pub use grep::{search_lines, AppRegex, Match, Matches, PatternError};
pub use letters::count_letters;
pub use merge::merge;
pub use parser::{parse, parse_line, tokenize, Redir, Token};
pub use sort::{Month, Sort};
pub use storage::{Event, EventDate, InMemoryStorage, InMemoryStorageError};
pub use text::{
    chars_of, is_blank, is_space_char, parse_i32, same_text, starts_with_text, string_of,
};
pub use unpack::{unpack, unpack_ascii, Char, UnpackError};
pub use wc::{count_words, format_with, tally, Counts};
