pub mod db_common;
pub mod store;
