pub mod error;
pub mod hash;
pub mod strings;
pub mod strmap;
pub mod checksum;
pub mod path;
pub mod types;
pub mod catalog;
pub mod disk;
pub mod json;
pub mod backend;
pub mod s3;
