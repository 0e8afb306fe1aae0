pub mod fibonacci;
pub mod text;
pub mod strtok;
pub mod split;
pub mod encode;
pub mod read;
pub mod pb;
pub mod persistent;
pub mod storage;
pub mod pow;
pub mod scrape;
pub mod grep;
pub mod ticket;
pub mod generate;
pub mod kv;
