//! Verified core of the vision tooling: connected-component boxes over
//! binary masks, LabelMe shape accounting for YOLO label files, COCO
//! regrouping, text decoding with encoding detection, PNG/base64 export of
//! pixel grids, in-memory ZIP archives, JSON documents, directory-walk rules
//! and the steps of a file download.

pub mod grid;
pub mod connectivity;
mod union_find;
pub mod components;
pub mod labelme;
pub mod text;
pub mod error;
pub mod decimal;
pub mod png;
pub mod coco;
pub mod walk;
pub mod download;
pub mod archive;
pub mod json;
