pub mod line_format;
pub mod simple_file_records;
