//! A small character-level GPT: tokenizer, autograd graph, parameter layout,
//! model plumbing and the integer decisions of training and sampling.

pub mod autograd;
pub mod gpt;
pub mod inference;
pub mod model;
pub mod parameters;
pub mod tokenizer;
pub mod train;
