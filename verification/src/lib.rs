//! Tiered storage-access layer: a uniform key-value store surface over a
//! primary read/write backend, per-column read-only backup backends consulted
//! on miss, and a frozen (immutable) wrapper over an already-populated
//! backend, together with the maintenance and scheduling logic built on it.

pub mod adjust_database;
pub mod backend;
pub mod db;
pub mod db_with_backups;
pub mod frozendb;
pub mod upgrade_schedule;
