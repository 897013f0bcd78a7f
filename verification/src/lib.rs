//! A minimal client-side XML-RPC core: a tokenizer for the restricted XML
//! subset that XML-RPC peers emit, an element builder, a response decoder, a
//! request encoder, and the plain data the client around them needs.

pub mod msg;
pub mod xml;
pub mod xmlrpc;
