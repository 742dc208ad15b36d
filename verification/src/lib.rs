//! Placement brain of the CE scheduler.

pub mod accuracy;
pub mod api;
pub mod assembly;
pub mod averages;
pub mod axes;
pub mod binary64;
pub mod blending;
pub mod bounds;
pub mod candidate;
pub mod choices;
pub mod client;
pub mod cohort;
pub mod conditions;
pub mod confidence;
pub mod correlation;
pub mod counting;
pub mod dijkstra;
pub mod dispatch;
pub mod diversity;
pub mod draws;
pub mod elementary;
pub mod embedding;
pub mod feasibility;
pub mod fitting;
pub mod fusion;
pub mod graph;
pub mod guarantees;
pub mod latency;
pub mod layouts;
pub mod lookups;
pub mod notes;
pub mod order;
pub mod partition;
pub mod paths;
pub mod placer;
pub mod preferences;
pub mod prng;
pub mod reach;
pub mod records;
pub mod redundancy;
pub mod regions;
pub mod roster;
pub mod rounding;
pub mod scorer;
pub mod seed;
pub mod selection;
pub mod sorting;
pub mod symmetry;
pub mod text;
pub mod topology;
pub mod vendor;
pub mod wording;
