//! Offline world-data migration driver for a voxel sandbox game.
//!
//! The library models persisted records as trees of named tagged values,
//! provides a verified binary codec and gzip-framed file facade for them,
//! and drives every decision of a world upgrade: version resolution and
//! downgrade refusal, per-record stamping, the chunk pipeline with its
//! legacy-structure back-fill and entity extraction, region sharding,
//! dimension discovery and the per-version file renames.
//!
//! The per-type schema converter is an external collaborator: the library
//! never runs it. Wherever a record must pass through it, the driver hands
//! the caller a conversion request (the record with its resolved version
//! bounds) and takes the converted record back, so every property stated
//! here holds whatever the converter returned.
pub mod nbt;
pub mod codec;
pub mod gzip;
pub mod versions;
pub mod upgrade;
pub mod region;
pub mod legacy;
pub mod chunks;
pub mod level;
pub mod dims;
pub mod files;
pub mod indent;
