//! A small feed-forward network trained on XOR by backpropagation: a dense
//! matrix engine, activation helpers, a cycling dataset, fully-connected
//! layers and the network's training and test loops.

pub mod activation_functions;
pub mod database;
pub mod layers;
pub mod matrix;
pub mod neural_network;
