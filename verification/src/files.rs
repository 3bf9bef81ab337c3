//! Which files of a directory are shipping documents.

use vstd::prelude::*;
use vstd::string::StringSliceAdditionalSpecFns;

verus! {

/// The bytes of `.xml`, the mark of a shipping document in a file's name.
pub open spec fn xml_mark() -> Seq<u8> {
    seq![46u8, 120u8, 109u8, 108u8]
}

/// Whether the mark stands in `name` at the place `at`.
pub open spec fn mark_at(name: Seq<u8>, at: int) -> bool {
    0 <= at && at + 4 <= name.len() && name.subrange(at, at + 4) == xml_mark()
}

/// Whether the mark stands anywhere in `name`.
pub open spec fn has_xml_mark(name: Seq<u8>) -> bool {
    exists|at: int| mark_at(name, at)
}

/// Whether the file with the path `path` is taken for a shipping document:
/// its path holds `.xml` somewhere.
pub fn is_xml_file(path: &str) -> (taken: bool)
    ensures
        taken == has_xml_mark(path.spec_bytes()),
{
    let bytes = path.as_bytes();
    let length = bytes.len();
    if length < 4 {
        assert forall|at: int| !mark_at(bytes@, at) by {}
        return false;
    }
    let mut i: usize = 0;
    while i <= length - 4
        invariant
            4 <= length,
            i <= length - 3,
            length == bytes@.len(),
            bytes@ == path.spec_bytes(),
            forall|at: int| 0 <= at < i ==> !mark_at(bytes@, at),
        decreases length - i,
    {
        if bytes[i] == 46 && bytes[i + 1] == 120 && bytes[i + 2] == 109 && bytes[i + 3] == 108 {
            assert(bytes@.subrange(i as int, i + 4) =~= xml_mark());
            assert(mark_at(bytes@, i as int));
            return true;
        }
        assert(!mark_at(bytes@, i as int)) by {
            if mark_at(bytes@, i as int) {
                let part = bytes@.subrange(i as int, i + 4);
                assert(part[0] == bytes@[i as int]);
                assert(part[1] == bytes@[i + 1]);
                assert(part[2] == bytes@[i + 2]);
                assert(part[3] == bytes@[i + 3]);
            }
        }
        i += 1;
    }
    assert forall|at: int| !mark_at(bytes@, at) by {}
    false
}

} // verus!
