//! Reshapes source code into the silhouette of a picture: a canonical token
//! stream is derived from the parsed syntax tree of the input, and a layout
//! pass distributes those tokens over an ASCII density grid sampled from the
//! picture, filling the leftover dark area with synthesized comments.

pub mod balance;
pub mod correct;
pub mod density;
pub mod layout;
pub mod rectify;
pub mod syntax;
pub mod textops;
