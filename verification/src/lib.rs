//! A verified core for a small media player.

pub mod audio_out;
pub mod bignum;
pub mod binary64;
pub mod cmd;
pub mod composite;
pub mod decimal;
pub mod decode_audio;
pub mod decode_video;
pub mod demux;
pub mod input;
pub mod modes;
pub mod order;
pub mod osd;
pub mod player;
pub mod playlist;
pub mod playm;
pub mod precision;
pub mod streams;
pub mod subtitle;
pub mod sync;
pub mod terminal;
pub mod text;
pub mod time;
pub mod video_out;
pub mod visualizer;
pub mod window;
