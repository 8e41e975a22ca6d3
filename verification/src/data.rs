pub mod log_record;
pub mod data_file;
