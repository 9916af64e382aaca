//! Online monitoring of Signal Temporal Logic.
//!
//! A formula is a tree of operators. A sample of a signal is handed to the root, which passes it
//! on to its operands, combines the verdicts they return, and returns those it can give itself.
//!
//! - [`operator`]: what an operator is, and how its behavior is described.
//! - [`atomic_operators`], [`binary_operators`], [`until_operator`]: thresholds on signals,
//!   conjunction and disjunction, and `phi U[a, b] psi`.
//! - [`operands`], [`binary_node`], [`until_window`]: what the operators are made of.
//! - [`ring_buffer`]: samples, and the caches operators keep them in.
//! - [`semantics`]: the domains verdicts are given in.
//! - [`synchronizer`]: how samples are admitted.
//! - [`trace`], [`batch`]: traces and batches taken in as a whole.
//! - [`options`]: how a monitor is configured by name.
//! - [`variables`], [`interner`], [`names`], [`name_map`], [`text`], [`time`], [`memory`]: the
//!   rest.
//!
//! What holds of the library is stated in the modules whose names end in `_laws`: of single steps
//! and functions in terms of plain numbers, lists and times, and of whole runs. Of those on whole
//! traces [`combination_laws`] and [`until_combination_laws`] are about operators over any
//! operands. The others are about predicates whose signals are held between samples, or run
//! straight; [`atomic_trace`], [`binary_trace`] and [`until_trace`] say what such predicates, and
//! the operators over them, make of a trace.

pub mod answer_laws;
pub mod atomic_laws;
pub mod atomic_operators;
pub mod atomic_trace;
pub mod batch;
pub mod batch_laws;
pub mod binary_eager_laws;
pub mod binary_laws;
pub mod binary_node;
pub mod binary_operators;
pub mod binary_refinement_laws;
pub mod binary_stream_laws;
pub mod binary_trace;
pub mod binary_trace_laws;
pub mod cache_laws;
pub mod combination_laws;
pub mod interner;
pub mod memory;
pub mod name_map;
pub mod names;
pub mod operand_laws;
pub mod operands;
pub mod operator;
pub mod option_laws;
pub mod options;
pub mod pairing_laws;
pub mod predicate_laws;
pub mod ring_buffer;
pub mod semantics;
pub mod semantics_laws;
pub mod straight_binary_laws;
pub mod straight_laws;
pub mod straight_until_laws;
pub mod synchronizer;
pub mod synchronizer_laws;
pub mod text;
pub mod text_laws;
pub mod time;
pub mod trace;
pub mod until_combination_laws;
pub mod until_interval_laws;
pub mod until_laws;
pub mod until_operator;
pub mod until_refinement_laws;
pub mod until_step_laws;
pub mod until_stream_laws;
pub mod until_trace;
pub mod until_trace_laws;
pub mod until_window;
pub mod variables;
pub mod window_laws;

pub use interner::{intern, interned_count};
pub use options::{Algorithm, Semantics};
pub use ring_buffer::{RingBuffer, RingBufferTrait, Step};
pub use semantics::{RobustnessInterval, RobustnessSemantics};
pub use synchronizer::{Interpolatable, SignalInterpolation, SynchronizationStrategy, Synchronizer};
pub use time::TimeInterval;
pub use variables::Variables;
