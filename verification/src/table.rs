pub mod table_iterator;
pub mod table_page;
pub mod tuple;
