pub mod anoto_sequences;
pub mod modular;
pub mod anoto_decode;
pub mod cells;
pub mod grid;
pub mod minify_arrow_grid;
pub mod grid_xform;
pub mod arrow_perm;
pub mod pattern_search;
pub mod decimal;
pub mod section_name;
pub mod reader_tools;
pub mod foreground;
pub mod test_image;
pub mod expected_match;
pub mod intersection_grid;
pub mod binary_groups;
pub mod viewer_session;
pub mod dot_split;
