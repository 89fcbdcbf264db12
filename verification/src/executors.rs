pub mod noop_executor;
pub mod slurm_executor;
