pub mod table;
pub mod blub;
