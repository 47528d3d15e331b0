pub mod bytes;
pub mod ip;
pub mod linux;
pub mod path;
pub mod policy;
pub mod proxy;
pub mod run;
pub mod silo;
pub mod sys;
pub mod table;
pub mod text;
pub mod tmp_path;
