//! Lossless and lossy size optimization of PDF documents.

pub mod alike;
pub mod art;
pub mod bytes;
pub mod cli;
pub mod content;
pub mod contents;
pub mod dedup;
pub mod edit;
pub mod equal;
pub mod equiv;
pub mod filters;
pub mod finding;
pub mod finish;
pub mod flate;
pub mod gray;
pub mod gray_laws;
pub mod images;
pub mod inline;
pub mod jpx;
pub mod laws;
pub mod load;
pub mod lookup;
pub mod merging;
pub mod minify;
pub mod moving;
pub mod names;
pub mod object;
pub mod options;
pub mod patch;
pub mod pdf;
pub mod pictures;
pub mod pipeline;
pub mod placed;
pub mod placements;
pub mod plan;
pub mod png;
pub mod png_laws;
pub mod raster;
pub mod reals;
pub mod replace;
pub mod settings;
pub mod store;
pub mod text;
pub mod tidying;
pub mod tree;
pub mod truetype;
pub mod type1;
pub mod words;
