pub mod c;
