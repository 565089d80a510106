pub mod arithmetic;
pub mod getters;
pub mod validaters;
