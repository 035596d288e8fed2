//! Verified core of a singing-audio transcriber: WAV preparation and slicing,
//! tensor layout and scheduling, chunked extraction, MIDI and text output, and
//! the progress models of the command line and of the window application.
pub mod audio;
pub mod cli;
pub mod cli_progress;
pub mod cli_summary;
pub mod error;
pub mod float_order;
pub mod gui;
pub mod inspect;
pub mod inspect_json;
pub mod inspect_report;
pub mod machine;
pub mod midi_writer;
pub mod model;
pub mod notify;
pub mod output;
pub mod paths;
pub mod profiler;
pub mod seeds;
pub mod service;
pub mod service_chunks;
pub mod service_session;
pub mod slices;
pub mod tensor;
pub mod text;
pub mod wav;
