pub mod vdf;
