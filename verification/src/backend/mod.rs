pub mod dashu;
pub mod directed;
pub mod malachite;
pub mod mpfr;
