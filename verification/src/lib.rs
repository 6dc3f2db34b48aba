//! Persistence core of a booking/reservation system.
//!
//! Customers book trips and bring participants, who may have signed waivers
//! and rented equipment.  This crate holds the verified heart of the system:
//! the domain value types, the relational model `db::Db` of the backing
//! store, an in-memory repository (`store::MemoryStore`) whose operations are
//! proved against that model, the row-to-aggregate mapper used by adapters
//! over denormalized join results, and the filter-query builder.  Network,
//! database and HTTP adapters live outside the crate and hand plain values
//! in and out.

pub mod booking;
pub mod config;
pub mod customer;
pub mod db;
pub mod equipment;
pub mod laws;
pub mod mapper;
pub mod ports;
pub mod query;
pub mod service;
pub mod sorted;
pub mod store;
pub mod trip;
pub mod waiver;
