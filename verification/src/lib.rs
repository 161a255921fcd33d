//! A constant-mean (weighted) automated market maker pool with a fungible
//! share token: fixed-point arithmetic kernel, closed-form pricing formulas,
//! and the pool state machine that coordinates token binding, finalization,
//! and trading while conserving pool value.

pub mod c_consts;
pub mod c_math;
pub mod c_num;
pub mod c_pool;
pub mod errors;
pub mod fixed_point;
pub mod host;
