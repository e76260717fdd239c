//! Hako: a small language for hardware drivers, its syntax trees and its parser.
pub mod ast;
pub mod grammar;
pub mod laws;
pub mod model;
pub mod parser;
pub mod progress;
pub mod render;
pub mod rules;
pub mod shift;
pub mod text;
