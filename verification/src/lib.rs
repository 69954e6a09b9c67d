//! Reads hand-filled paper forms: finds the dark marks in a scan, tells
//! alignment rings from bars, and decodes the bars against the sheet's layout.
//!
//! Every coordinate is exact.  Pixel positions are whole pixels of one raster;
//! positions on the sheet are whole sheet units, 7000 to the sheet's side.

pub mod aligner_sort;
pub mod bars_found;
pub mod blob;
pub mod boolean_matrix;
pub mod components;
pub mod decode;
pub mod decode_laws;
pub mod flood_fill;
pub mod image;
pub mod make;
pub mod perspective_transform;
pub mod region;
pub mod scan_sheet_elements;
pub mod scan_sheet_layout;
pub mod target;
pub mod target_mesh;
pub mod util;
