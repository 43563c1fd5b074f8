//! The decisions behind a pipeline of commands: what each one is called and
//! reads as, which cores it gets, how far a failure reaches, and what is said
//! about it as it runs and once it is over.

pub mod closure;
pub mod cmd;
pub mod cmd_laws;
pub mod cpu;
pub mod double;
pub mod error;
pub mod fmt;
pub mod fmt_laws;
pub mod item;
pub mod item_laws;
pub mod label;
pub mod order;
pub mod path;
pub mod progress;
pub mod shell;
pub mod sink;
pub mod sorted;
pub mod status;
pub mod step;
pub mod table;
pub mod text;
pub mod text_laws;
pub mod value;

pub use closure::Closure;
pub use cmd::{Cmd, Memory, Output};
pub use cpu::place::Placement;
pub use error::{Error, Within};
pub use item::Item;
pub use progress::{Marks, Progress, Stream, When};
pub use sink::Sink;
pub use status::{Status, Timing};
pub use step::{OnError, Step, Strategy};
pub use table::{Headers, Mode, Table};
pub use value::Value;
