//! The decision-making core of a quality-first audio player.

pub mod bytes;
pub mod cli;
pub mod combo;
pub mod exclusive;
pub mod exclusive_bytes;
pub mod frames;
pub mod history;
pub mod json;
pub mod media;
pub mod mqa;
pub mod output;
pub mod passage;
pub mod pcm;
pub mod plan;
pub mod player;
pub mod playlist;
pub mod polyphase;
pub mod presence;
pub mod server;
pub mod source;
pub mod startup;
pub mod text;
pub mod track;
pub mod treble;
