//! Numerical solvers.
pub mod bisect;
pub mod brent;
pub mod brent_laws;
pub mod rk45;
pub mod ivp;
pub mod interp;
pub mod exact_laws;
pub mod output_laws;
pub mod solution_laws;
pub mod control_laws;
pub mod growth_laws;
pub mod root_laws;
pub mod start_laws;
pub mod ivp_laws;
pub mod step_laws;
