//! Downloads all files of a shared folder: lists the folder page by page, asks for the
//! download link of each file, and hands the links to `aria2c`. This library takes the
//! decisions; requests, processes and files are left to the program around it.
pub mod api;
pub mod binary64;
pub mod decimal;
pub mod download;
pub mod folder;
pub mod json;
pub mod options;
pub mod plan;
pub mod request;
pub mod size;
pub mod text;
pub mod tor;
