pub mod alphabeta;
pub mod answers;
pub mod batch;
pub mod benson;
pub mod chains;
pub mod colors;
pub mod config;
pub mod console;
pub mod display;
pub mod distill;
pub mod features;
pub mod fives;
pub mod game;
pub mod gomocup;
pub mod grid;
pub mod gtp;
pub mod life;
pub mod lines;
pub mod model;
pub mod moves;
pub mod network;
pub mod notation;
pub mod packing;
pub mod pipeline;
pub mod planes;
pub mod points;
pub mod profile;
pub mod protocol;
pub mod record;
pub mod replay;
pub mod rng;
pub mod rules;
pub mod sampling;
pub mod scoring;
pub mod search;
pub mod selfplay;
pub mod settings;
pub mod symmetry;
pub mod text;
pub mod tournament;
pub mod training;
pub mod tree;
pub mod verdict;
pub mod walk;
pub mod window;
