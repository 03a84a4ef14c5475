pub mod default;
