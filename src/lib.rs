//! A fixed-timestep loop with interpolated rendering, stopwatches and
//! timing statistics, over a monotonic clock counted in nanoseconds.
pub mod hrt;
pub mod now;
pub mod prf;
pub mod sec;
pub mod stat;
pub mod text;
pub mod timer;

pub use hrt::{Beat, Hrt, Lim, Phase, Render, Run, Stt};
pub use now::{Now, Std};
pub use sec::{Sec, DAY, GIGA, HOUR, KILO, MEGA, MICRO, MILLI, MINUTE, NANO, SECOND};
pub use stat::{Stat, StatModel};
pub use text::ParseError;
pub use timer::Timer;
pub use prf::{Prf, Profile};
