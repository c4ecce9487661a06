use vstd::prelude::*;

pub mod app;
pub mod blueprint_editor;
pub mod d6m;
pub mod decor;
pub mod dirt;
pub mod gen_settings;
pub mod imagemap;
pub mod generator_panel;
pub mod keycap;
pub mod layout;
pub mod le;
pub mod map_chooser;
pub mod mapfile;
pub mod namefix;
pub mod nations;
pub mod paths;
pub mod project;
pub mod reading;
pub mod restore;
pub mod render;
pub mod settings;
pub mod starts;
pub mod terrain;
pub mod text;
pub mod textures;
pub mod tga;
pub mod wire;
pub mod zipfile;

verus! {
} // verus!
