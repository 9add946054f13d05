pub mod filter;
pub mod laws;
pub mod markdown;
pub mod output_laws;
pub mod order;
pub mod render;
pub mod report;
pub mod report_laws;
pub mod rules;
pub mod sources;
pub mod text;
