pub mod linked_list;
pub mod anagram;
pub mod fibonacci;
pub mod coins;
pub mod base;
pub mod distinct;
pub mod primes;
pub mod calendar;
pub mod provinces;
pub mod district;
