pub mod btree;
pub mod bytes;
pub mod constants;
pub mod node;
pub mod pager;
pub mod parents;
pub mod print;
pub mod row;
pub mod shape;
pub mod statement;
pub mod table;
pub mod tree;
pub mod validate;
