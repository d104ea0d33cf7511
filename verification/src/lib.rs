//! The music library of Sway: its tables, the rules that keep two devices in
//! step, and the files and messages that travel between them.

pub mod address;
pub mod address_laws;
pub mod autosync;
pub mod cover;
pub mod date_laws;
pub mod dates;
pub mod db;
pub mod deletion_laws;
pub mod device_info;
pub mod device_laws;
pub mod devices;
pub mod discovery;
pub mod encoding;
pub mod export_xml;
pub mod graph;
pub mod import;
pub mod library;
pub mod loudness;
pub mod manifest;
pub mod merge;
pub mod merge_laws;
pub mod msg_text;
pub mod name_laws;
pub mod order_laws;
pub mod pairing;
pub mod pairing_laws;
pub mod paths;
pub mod plan_laws;
pub mod player;
pub mod player_laws;
pub mod playlist_laws;
pub mod power;
pub mod rank;
pub mod reorder_laws;
pub mod round_laws;
pub mod scope;
pub mod scope_db;
pub mod scope_laws;
pub mod seqs;
pub mod state;
pub mod sync_laws;
pub mod table;
pub mod text;
pub mod tracks;
pub mod transfer;
pub mod tree;
pub mod tree_laws;
pub mod uidset;
pub mod upgrade;
pub mod upgrade_laws;
pub mod watch;
pub mod wire;
pub mod word_laws;
pub mod xml_fields;
pub mod xml_laws;
pub mod xml_reading;
pub mod xml_sync;
pub mod xml_words;
