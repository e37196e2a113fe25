pub mod clock;
pub mod executor;
pub mod historian;
pub mod ingest;
pub mod json;
pub mod numeric;
pub mod reconstructor;
pub mod signal;
pub mod text;
pub mod ticker_map;
pub mod types;
