//! Directed greybox fuzzing scheduler: the distance map loader, the annealing
//! schedule, seed distances and the text of the fuzzer's status display.

pub mod decimal;
pub mod distance_file;
pub mod scheduler;
pub mod ui;

pub use decimal::{decimal, parse_usize};
pub use distance_file::{
    parse_distance_file, DistanceFile, DistanceMapError, MAP_SIZE, SCHEMA_VERSION,
};
pub use scheduler::{ratio_less, DirectedDistanceScheduler, Ratio};
pub use ui::{
    bold, classify_event, crash_text, cyan, dim, green, line_text, paint, red, segment,
    status_text, MonitorAction, MonitorEvent, TalonMonitor,
};
