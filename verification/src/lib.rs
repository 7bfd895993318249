//! Per-station minimum, mean and maximum over a file of temperature readings,
//! one `<station>;<temperature>` per line.
//!
//! The input is cut into shards where lines start, each shard is summed up in
//! a table of its own, the tables are merged, and the merged table is written
//! out as one line of text. A second part makes such inputs from a dictionary
//! of station names.

pub mod args;
pub mod format;
pub mod generator;
pub mod lanes;
pub mod lines;
pub mod mapper;
mod pool;
pub mod reducer;
pub mod scan;
pub mod shard;
pub mod stats;
pub mod table;
pub mod temperature;

pub use args::check_args;
pub use format::format_output;
pub use generator::{build_test_data, build_weather_station_name_list, fill_batch};
pub use lines::{first_malformed_line, is_well_formed};
pub use mapper::thread;
pub use reducer::merge_stations;
pub use scan::{search_u8_avx2, search_u8_sse2_reverse};
pub use shard::{shard_bounds, solution, split_file, summarize};
pub use stats::ProcessedStation;
pub use table::{NameSet, StationMap};
pub use temperature::{parse_to_i16, parse_to_i16_simd};
