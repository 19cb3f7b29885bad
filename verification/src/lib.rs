//! Verified core logic of a set of text and file utilities: size and date
//! parsing, checksums, topological sorting, shuffling, tab compression and
//! number formatting.

pub mod bytes;
pub mod decimal;
pub mod text;
pub mod truncate;
pub mod tsort;
pub mod shuf;
pub mod unexpand;
pub mod checksum;
pub mod touch;
pub mod sum;
pub mod seq;
pub mod tail;
pub mod wc;
pub mod uptime;
pub mod yes;
pub mod output;
pub mod timeout;
pub mod uname;
pub mod printf;
