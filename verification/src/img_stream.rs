//! An earlier form of the image stream, kept for compatibility: a plain
//! file list without frame windowing, and a compression scheme without a
//! level parameter.

use vstd::prelude::*;
use vstd::string::StrSliceExecFns;

verus! {

/// Compression scheme for band file chunks, at the default level.
#[derive(Clone, Copy, Debug, PartialEq, Eq, Structural)]
pub enum Compression {
    GZip,
    ZLib,
    Deflate,
}

impl Compression {
    /// Parses a compression scheme name.
    pub fn from_string(s: &str) -> (r: Result<Compression, crate::ParseEnumError>)
        ensures
            s@ == "gzip"@ ==> r == Ok::<Compression, crate::ParseEnumError>(Compression::GZip),
            s@ == "zlib"@ ==> r == Ok::<Compression, crate::ParseEnumError>(Compression::ZLib),
            s@ == "deflate"@ ==> r == Ok::<Compression, crate::ParseEnumError>(
                Compression::Deflate,
            ),
            s@ != "gzip"@ && s@ != "zlib"@ && s@ != "deflate"@ ==> r is Err,
    {
        proof {
            reveal_strlit("gzip");
            reveal_strlit("zlib");
            reveal_strlit("deflate");
            assert("gzip"@.len() == 4 && "zlib"@.len() == 4 && "deflate"@.len() == 7);
            assert("gzip"@[0] == 'g' && "zlib"@[0] == 'z');
            assert("gzip"@ != "zlib"@ && "gzip"@ != "deflate"@ && "zlib"@ != "deflate"@);
        }
        if crate::options::str_eq(s, "gzip") {
            Ok(Compression::GZip)
        } else if crate::options::str_eq(s, "zlib") {
            Ok(Compression::ZLib)
        } else if crate::options::str_eq(s, "deflate") {
            Ok(Compression::Deflate)
        } else {
            Err(
                crate::ParseEnumError(
                    "Not a compression. Must be one of (gzip|zlib|deflate)".to_owned(),
                ),
            )
        }
    }
}

/// Provides a stream of image file paths from a file search pattern.
pub struct ImageStream {
    pub files: Vec<String>,
    pub pos: usize,
}

impl ImageStream {
    /// Creates an ImageStream from a file search pattern.
    pub fn from_pattern(pattern: &str) -> (r: Result<Self, glob::PatternError>)
        ensures
            r matches Ok(s) ==> s.pos == 0,
    {
        let lister = crate::flist::FileLister::new(pattern, &None);
        match lister.files_vec() {
            Ok(files) => Ok(ImageStream { files, pos: 0 }),
            Err(e) => Err(e),
        }
    }

    /// The number of images in this stream.
    pub fn len(&self) -> (r: usize)
        requires
            self.pos <= self.files@.len(),
        ensures
            r == self.files@.len() - self.pos,
    {
        self.files.len() - self.pos
    }
}

} // verus!
