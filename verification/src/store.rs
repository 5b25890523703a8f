//! Where expectations live: the expectation file derived from a test's
//! source path, and the staging path a not-yet-reviewed candidate goes to.
//!
//! Reading and writing those files is the surrounding program's job; the
//! paths themselves are computed here, exactly.

use vstd::prelude::*;

use crate::text::{append_bytes, bytes_of, copy_range, dup_bytes, rfind_any, rfind_any_seq, str_bytes};

verus! {

/// Where the file name begins: right after the last slash.
pub open spec fn file_name_start(path: Seq<u8>) -> int {
    match rfind_any_seq(path, seq![47u8]) {
        None => 0,
        Some(i) => i + 1,
    }
}

/// The final path component.
pub open spec fn file_name_seq(path: Seq<u8>) -> Seq<u8> {
    path.skip(file_name_start(path))
}

/// The position of the dot that begins the extension: the last dot, if it
/// stands strictly inside the file name, so that a leading dot names a
/// hidden file rather than an extension.
pub open spec fn extension_split(path: Seq<u8>) -> Option<int> {
    match rfind_any_seq(path, seq![46u8]) {
        None => None,
        Some(d) => if d > file_name_start(path) {
            Some(d)
        } else {
            None
        },
    }
}

/// The path with its extension swapped for (or extended by) `ext`.
pub open spec fn with_extension_seq(path: Seq<u8>, ext: Seq<u8>) -> Seq<u8> {
    match extension_split(path) {
        Some(d) => path.take(d) + seq![46u8] + ext,
        None => path + seq![46u8] + ext,
    }
}

/// The staging path of a candidate: the staging directory plus the file's
/// base name alone.  Collapsing the directory structure means two tests
/// with the same base name collide in staging; the last writer wins, a
/// known and accepted sharp edge.
pub open spec fn wip_path_seq(path: Seq<u8>) -> Seq<u8> {
    bytes_of("wip/"@) + file_name_seq(path)
}

/// Derives the expectation file for one output stream as a sibling of the
/// test's source file: its extension replaced by the stream's suffix.
pub fn with_extension(path: &[u8], ext: &[u8]) -> (r: Vec<u8>)
    ensures
        r@ == with_extension_seq(path@, ext@),
{
    let mut dots: Vec<u8> = Vec::new();
    dots.push(46u8);
    let mut slashes: Vec<u8> = Vec::new();
    slashes.push(47u8);
    proof {
        assert(dots@ =~= seq![46u8]);
        assert(slashes@ =~= seq![47u8]);
    }
    let found = rfind_any(path, slashes.as_slice());
    proof {
        crate::text::lemma_rfind_any_props(path@, slashes@);
    }
    let n = path.len();
    let start: usize = match found {
        None => 0,
        Some(i) => {
            proof {
                assert(i < n);
            }
            i + 1
        },
    };
    let cut: Option<usize> = match rfind_any(path, dots.as_slice()) {
        None => None,
        Some(d) => if d > start {
            Some(d)
        } else {
            None
        },
    };
    proof {
        crate::text::lemma_rfind_any_props(path@, seq![46u8]);
        crate::text::lemma_rfind_any_props(path@, seq![47u8]);
    }
    match cut {
        Some(d) => {
            let mut r = copy_range(path, 0, d);
            r.push(46u8);
            append_bytes(&mut r, ext);
            proof {
                assert(path@.take(d as int) =~= path@.subrange(0, d as int));
                assert(r@ =~= with_extension_seq(path@, ext@));
            }
            r
        },
        None => {
            let mut r = dup_bytes(path);
            r.push(46u8);
            append_bytes(&mut r, ext);
            proof {
                assert(r@ =~= with_extension_seq(path@, ext@));
            }
            r
        },
    }
}

/// The staging path for one expectation file.
pub fn wip_path_for(path: &[u8]) -> (r: Vec<u8>)
    requires
        extension_split(path@) is Some,
    ensures
        r@ == wip_path_seq(path@),
{
    let mut slashes: Vec<u8> = Vec::new();
    slashes.push(47u8);
    proof {
        assert(slashes@ =~= seq![47u8]);
        reveal_strlit("wip/");
    }
    let found = rfind_any(path, slashes.as_slice());
    proof {
        crate::text::lemma_rfind_any_props(path@, slashes@);
    }
    let n = path.len();
    let start: usize = match found {
        None => 0,
        Some(i) => {
            proof {
                assert(i < n);
            }
            i + 1
        },
    };
    let mut r = str_bytes("wip/");
    let name = copy_range(path, start, path.len());
    append_bytes(&mut r, name.as_slice());
    proof {
        assert(path@.subrange(start as int, path@.len() as int) =~= file_name_seq(path@));
        assert(r@ =~= wip_path_seq(path@));
    }
    r
}

} // verus!
