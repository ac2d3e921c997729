//! The verified core of a camera surveillance server.

pub mod binary64;
pub mod cache;
pub mod camera;
pub mod commands;
pub mod config;
pub mod connect;
pub mod decimal;
pub mod geometry;
pub mod known_faces;
pub mod mjpeg;
pub mod ordering;
pub mod pipeline;
pub mod recognition;
pub mod rtp;
pub mod service;
pub mod sessions;
pub mod settings;
pub mod text;
pub mod tracking;
