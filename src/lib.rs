//! Topology core of an observability pipeline: event-type filtering, bounded
//! buffers, fanout with hot attach, transform output routing, source shutdown
//! coordination, the enrichment-table registry and the piece builder.
pub mod buffer;
pub mod builder;
pub mod enrichment;
pub mod event;
pub mod fanout;
pub mod healthcheck;
pub mod shutdown;
pub mod transform;
