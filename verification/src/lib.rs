//! A DNS wire-format codec over a fixed 512-byte packet buffer, together with
//! the routing decisions of an iterative resolver.
//!
//! The codec reads and writes headers, questions, resource records and whole
//! messages. Names are decoded with their compression pointers followed, under
//! a limit on the number of jumps, and encoded without compression. Every
//! function is specified over byte sequences and plain values, and proved
//! against its contract; the laws that relate reading to writing are proved
//! in `name_laws`, `roundtrip` and `packet_laws`.
//!
//! The resolver's part is what it decides: the query to send, what follows
//! each response, and the reply to the client. Sending and receiving are
//! left to the program around the library.

pub mod error;
pub mod buffer;
pub mod emission;
pub mod text;
pub mod name;
pub mod name_laws;
pub mod query_type;
pub mod header;
pub mod question;
pub mod record;
pub mod packet;
pub mod resolver;
pub mod roundtrip;
pub mod packet_laws;
