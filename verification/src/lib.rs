//! Core of a home-energy modelling service.
pub mod arithmetic;
pub mod compare;
pub mod compare_laws;
pub mod double;
pub mod dwelling;
pub mod dwelling_laws;
pub mod economics;
pub mod economics_laws;
pub mod error;
pub mod exact;
pub mod form;
pub mod glazing;
pub mod glazing_laws;
pub mod json;
pub mod operations;
pub mod override_laws;
pub mod profiles;
pub mod rounding;
pub mod service_laws;
pub mod simulate;
pub mod solvers;
pub mod text;
pub mod weather;
