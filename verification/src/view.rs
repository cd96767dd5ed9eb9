pub mod about;
