pub mod journal;
pub mod managed_file;
pub mod managed_file_journal;
