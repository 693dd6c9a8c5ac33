pub mod data;
pub mod search;
pub mod sort;
pub mod traverse;
