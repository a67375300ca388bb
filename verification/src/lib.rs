//! Conversion of `perf script` stacks into pprof profiles.
//!
//! [`script`] reads samples from the text that `perf script` prints, with
//! [`frame`], [`number`] and [`text`] below it. [`event`] selects the samples of
//! one event. [`aggregate`] counts samples with the same stack together, and
//! [`builder`] numbers strings, functions and locations and lays out the
//! [`profile`]. [`wire`] encodes and compresses it. [`convert`] puts these steps
//! together, [`source`] says where a script is read from, [`diagnose`] judges
//! the recorded stacks, and [`p2prof`] plans the runs of the wrapper around
//! pprof.
//!
//! [`laws`] and [`wire_laws`] state what holds of every profile. The other modules
//! whose names end in `laws` state what each step does with its input, whatever
//! the input: [`text_laws`], [`number_laws`], [`frame_laws`] and [`script_laws`] for
//! reading, [`event_laws`] for selection, [`profile_laws`] and [`schema_laws`] for
//! what is built and written, [`diagnose_laws`] for the health check,
//! [`p2prof_laws`] for the wrapper, and [`view_laws`] for the views.

pub mod aggregate;
pub mod builder;
pub mod convert;
pub mod diagnose;
pub mod diagnose_laws;
pub mod distinct;
pub mod event;
pub mod event_laws;
pub mod frame;
pub mod frame_laws;
pub mod laws;
pub mod number;
pub mod number_laws;
pub mod p2prof;
pub mod p2prof_laws;
pub mod profile;
pub mod profile_laws;
pub mod schema_laws;
pub mod script;
pub mod script_laws;
pub mod source;
pub mod tables;
pub mod text;
pub mod text_laws;
pub mod view_laws;
pub mod wire;
pub mod wire_laws;
