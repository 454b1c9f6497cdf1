pub mod interactive;
