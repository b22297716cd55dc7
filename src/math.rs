pub mod combination;
pub mod factorize;
pub mod modint;
pub mod monoid;
