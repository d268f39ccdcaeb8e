//! Verified decision core of a distributed air-defence network: threat
//! classification, track bookkeeping, the per-platform and orchestrator
//! reactions to network events, and the assignment of interceptors to threats.
//!
//! Geometry (positions, ranges, filtering) is carried through the library as
//! opaque payloads and enters its decisions as integers and booleans computed
//! by the caller.

pub mod ids;
pub mod kinds;
pub mod engagement;
pub mod matching;
pub mod engagement_laws;
pub mod tracks;
pub mod registry;
pub mod platform;
pub mod interceptor;
pub mod radar;
pub mod orchestrator;
pub mod subjects;
