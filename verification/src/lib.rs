//! Decision and raster core of a fireworks photo and video workshop.

pub mod advice;
pub mod align;
pub mod asked;
pub mod auto;
pub mod backup;
pub mod blobs;
pub mod blocks;
pub mod blur;
pub mod caption;
pub mod clear;
pub mod cli;
pub mod curve;
pub mod dimming;
pub mod double;
pub mod edit;
pub mod enhance;
pub mod field;
pub mod grade;
pub mod grid;
pub mod haze;
pub mod held;
pub mod laying;
pub mod lifting;
pub mod maps;
pub mod mask;
pub mod measure;
pub mod mixing;
pub mod morph;
pub mod motion;
pub mod movie;
pub mod natural;
pub mod object;
pub mod order;
pub mod overlay;
pub mod path;
pub mod pick;
pub mod project;
pub mod raster;
pub mod remove;
pub mod resample;
pub mod retouch;
pub mod rounding;
pub mod sample;
pub mod scale;
pub mod shares;
pub mod signed;
pub mod single;
pub mod skies;
pub mod sky;
pub mod smoke;
pub mod spread;
pub mod stack;
pub mod steady;
pub mod strength;
pub mod stroke;
pub mod subject;
pub mod sums;
pub mod survey;
pub mod text;
pub mod tilt;
pub mod toning;
pub mod turned;
pub mod wipe;
pub mod worth;
