//! Verified building blocks of a VRPTW (vehicle routing with time windows) solver.

pub mod model;
pub mod algorithm;
pub mod schedule;
pub mod destroy;
pub mod alns;
pub mod repair;
pub mod construct;
pub mod improve;
pub mod primal_viper;
pub mod sharp_orbit;
pub mod silver_nova;
pub mod pv_passes;
pub mod so_passes;
pub mod pv_regret;
pub mod so_lns;
pub mod pv_oropt;
pub mod pv_elim;
pub mod pv_intra;
pub mod pv_ls;
pub mod so_intra;
pub mod sn_passes;
pub mod sn_lns;
pub mod sn_laws;
pub mod sn_feasible;
pub mod pv_lns;
