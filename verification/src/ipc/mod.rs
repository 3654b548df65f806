//! Talking to other processes of the machine.

pub mod frames;
