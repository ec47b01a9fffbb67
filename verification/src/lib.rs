//! A streaming decoder for the VCDIFF delta-compression format (RFC 3284).
//!
//! Given a base ("source") document and a compact delta stream, the decoder
//! reconstructs the target document by replaying ADD/COPY/RUN instructions,
//! where COPY instructions can reference either the source document or bytes
//! of the target that were produced earlier.
//!
//! The pieces, leaves first: [`varint`] holds the stream format's
//! variable-length integers; [`varint_zigzag`] a resumable codec with a
//! signed variant; [`code_table`] the mapping from selector bytes to
//! instructions; [`address_cache`] the near and same caches that COPY
//! addresses are decoded against; [`vcdiff`] the file and window headers;
//! and [`decoder`] the engine that ties them into a byte-at-a-time-safe
//! reconstruction of the target.

pub mod address_cache;
pub mod code_table;
pub mod decoder;
pub mod varint;
pub mod varint_zigzag;
pub mod vcdiff;
