//! The site the benchmark builds: its fixture, its pages, and the bookkeeping that decides what
//! to rebuild.
pub mod fixture;
pub mod pages;
pub mod incremental;
pub mod measure;
