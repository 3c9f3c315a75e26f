pub mod ramfs;
