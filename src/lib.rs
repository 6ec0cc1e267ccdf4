//! Browsing a remote file system over SFTP: a parallel, work-stealing
//! directory walk, and the parsers for the hosts of an OpenSSH client
//! configuration.
pub mod hosts_parser;
pub mod par_dir_traversal;
pub mod scan;
pub mod ssh_config;
