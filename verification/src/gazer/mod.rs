pub mod archive_laws;
pub mod chunk_consumer;
pub mod chunk_provider;
pub mod header_laws;
pub mod tar_archive;
pub mod tar_header;
