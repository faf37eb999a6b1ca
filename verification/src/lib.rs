//! A yearly population model for the settlements of a region.
//!
//! An age table ([`ages::Ages`]) counts the people of a community by age
//! and moves on year by year: children are born, everybody grows a year
//! older, some die. The rates at which that happens are double-precision
//! numbers ([`rate::Rate`]) that the library holds by their bits and
//! multiplies in whole-number arithmetic ([`precision`]). A community
//! ([`community::Community`]) pairs an age table with a culture, and the
//! demographics of a region ([`demographics::Demographics`]) gather its
//! communities; both keep a head count that always agrees with the tables
//! below it.
pub mod ages;
pub mod community;
pub mod demographics;
pub mod precision;
pub mod rate;
