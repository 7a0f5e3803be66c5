use vstd::prelude::*;
use vstd::utf8::*;

verus! {

/// Handle to a file in the virtual file system: an interned number.
#[derive(Copy, Clone, Debug, Ord, PartialOrd, Eq, PartialEq, Hash, Structural)]
pub struct FileId(pub u32);

/// What a cache holds about a file, merged when two caches meet. By default
/// the receiver is kept and the other is dropped.
pub trait MergeCache: Sized {
    fn merge(self, other: Self) -> (r: Self)
        default_ensures
            r == self,
    {
        self
    }
}

/// Holds canonical data for all paths pointing to the same entity.
#[derive(Debug)]
pub struct FileSlot<T> {
    pub idx: FileId,
    pub cache: T,
}

/// The fonts a world knows of.
pub struct FontDb {}

/// The packages a world knows of.
pub struct PackageDb {}

/// Why a file could not be read as source text.
#[derive(Debug, Clone, Copy, PartialEq, Eq)]
pub enum FileError {
    /// The file is not valid UTF-8.
    InvalidUtf8,
}

/// The UTF-8 byte order mark.
pub open spec fn bom() -> Seq<u8> {
    seq![0xefu8, 0xbbu8, 0xbfu8]
}

/// The bytes of a source file without its byte order mark, if it has one.
pub open spec fn strip_bom(b: Seq<u8>) -> Seq<u8> {
    if b.len() >= 3 && b.subrange(0, 3) == bom() {
        b.subrange(3, b.len() as int)
    } else {
        b
    }
}

/// `std::str::from_utf8`: the bytes as text where they are valid UTF-8
/// (`None` where they are not). The text's UTF-8 encoding is the bytes.
#[verifier::external_body]
fn str_from_utf8(b: &[u8]) -> (r: Option<&str>)
    ensures
        match r {
            Some(s) => valid_utf8(b@) && encode_utf8(s@) == b@,
            None => !valid_utf8(b@),
        },
{
    match std::str::from_utf8(b) {
        Ok(s) => Some(s),
        Err(_) => None,
    }
}

/// Reads bytes as UTF-8 text, after removing a UTF-8 byte order mark if
/// present.
pub fn from_utf8_or_bom(buf: &[u8]) -> (r: Result<&str, FileError>)
    ensures
        match r {
            Ok(s) => valid_utf8(strip_bom(buf@)) && encode_utf8(s@) == strip_bom(buf@),
            Err(e) => e == FileError::InvalidUtf8 && !valid_utf8(strip_bom(buf@)),
        },
{
    let body = if buf.len() >= 3 && buf[0] == 0xef && buf[1] == 0xbb && buf[2] == 0xbf {
        assert(buf@.subrange(0, 3) =~= bom());
        let (_, rest) = buf.split_at(3);
        rest
    } else {
        assert(buf@.len() >= 3 ==> buf@.subrange(0, 3)[0] == buf@[0] && buf@.subrange(0, 3)[1] == buf@[1]
            && buf@.subrange(0, 3)[2] == buf@[2]);
        buf
    };
    match str_from_utf8(body) {
        Some(s) => Ok(s),
        None => Err(FileError::InvalidUtf8),
    }
}

} // verus!
