//! Dual-stack UDP transport primitives: address resolution, bind planning
//! with address/port reuse, multicast group membership checks, and the
//! connector that turns a bound local address plus a textual `host:port`
//! destination into a fully specified destination address.
//!
//! All address values are held as plain integers (octets, hextets, ports,
//! flow info, scope ids), so every rule in this crate is stated and proved
//! over those values. The operating-system socket calls themselves live in
//! the surrounding runtime layer, which hands resolved addresses in and
//! carries bind plans and multicast operations out.

pub mod addr;
pub mod connector;
pub mod net;
pub mod text;
