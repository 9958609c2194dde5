use vstd::prelude::*;
use vstd::string::StringSliceAdditionalSpecFns;

verus! {

/// How the bytes of an input file are encoded.
#[derive(Debug, Clone, Copy, PartialEq, Eq)]
pub enum Compression {
    Plain,
    Gzip,
    Snappy,
}

pub open spec fn ends_with(name: Seq<u8>, suffix: Seq<u8>) -> bool {
    suffix.len() <= name.len() && name.subrange(name.len() - suffix.len(), name.len() as int)
        == suffix
}

/// `.gz`
pub open spec fn gzip_suffix() -> Seq<u8> {
    seq![46u8, 103u8, 122u8]
}

/// `snappy`
pub open spec fn snappy_suffix() -> Seq<u8> {
    seq![115u8, 110u8, 97u8, 112u8, 112u8, 121u8]
}

/// The decoder that the file name asks for; the suffix alone decides.
pub open spec fn compression_of(name: Seq<u8>) -> Compression {
    if ends_with(name, gzip_suffix()) {
        Compression::Gzip
    } else if ends_with(name, snappy_suffix()) {
        Compression::Snappy
    } else {
        Compression::Plain
    }
}

fn has_suffix(name: &[u8], suffix: &[u8]) -> (r: bool)
    ensures
        r == ends_with(name@, suffix@),
{
    if suffix.len() > name.len() {
        return false;
    }
    let start = name.len() - suffix.len();
    let mut i: usize = 0;
    while i < suffix.len()
        invariant
            start + suffix@.len() == name@.len(),
            name@.len() <= usize::MAX,
            i <= suffix@.len(),
            forall|j: int| 0 <= j < i ==> name@[start + j] == suffix@[j],
        decreases suffix@.len() - i,
    {
        if name[start + i] != suffix[i] {
            assert(name@.subrange(start as int, name@.len() as int)[i as int] != suffix@[i as int]);
            return false;
        }
        i = i + 1;
    }
    assert(name@.subrange(start as int, name@.len() as int) =~= suffix@);
    true
}

/// Chooses the decoder for a file by the suffix of its name: `.gz` selects
/// gzip, `snappy` the snappy frame format, anything else plain text.
pub fn compression_for(filename: &str) -> (r: Compression)
    ensures
        r == compression_of(filename.spec_bytes()),
{
    let name = filename.as_bytes();
    let gz: [u8; 3] = [46, 103, 122];
    let sn: [u8; 6] = [115, 110, 97, 112, 112, 121];
    if has_suffix(name, gz.as_slice()) {
        assert(gz@ =~= gzip_suffix());
        Compression::Gzip
    } else if has_suffix(name, sn.as_slice()) {
        assert(gz@ =~= gzip_suffix());
        assert(sn@ =~= snappy_suffix());
        Compression::Snappy
    } else {
        assert(gz@ =~= gzip_suffix());
        assert(sn@ =~= snappy_suffix());
        Compression::Plain
    }
}

} // verus!
