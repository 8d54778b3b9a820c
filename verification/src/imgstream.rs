//! The earliest form of the image stream, kept for compatibility: a plain
//! file list from a search pattern.

use vstd::prelude::*;

verus! {

/// Provides a stream of image file paths from a file search pattern.
pub struct ImageStream {
    pub files: Vec<String>,
}

impl ImageStream {
    /// Creates an ImageStream from a file search pattern.
    pub fn from_pattern(pattern: &str) -> (r: Result<Self, glob::PatternError>) {
        let lister = crate::flist::FileLister::new(pattern, &None);
        match lister.files_vec() {
            Ok(files) => Ok(ImageStream { files }),
            Err(e) => Err(e),
        }
    }
}

} // verus!
