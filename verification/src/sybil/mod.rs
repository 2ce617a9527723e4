pub mod pow;
