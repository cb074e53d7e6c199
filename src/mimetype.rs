//! MIME types, which also serve as application signatures.
use vstd::prelude::*;
use vstd::utf8::{encode_utf8, valid_utf8};

use crate::flattenable::text_from_utf8;

verus! {

/// The longest MIME type string.
pub const B_MIME_TYPE_LENGTH: usize = 240;

/// Whether `c` is a printable ASCII character other than space.
pub open spec fn is_graphic(c: u8) -> bool {
    0x21 <= c <= 0x7e
}

/// A valid MIME type string: at most `B_MIME_TYPE_LENGTH` bytes, all of
/// them printable ASCII, with at most one `/`, which is neither first nor
/// last.
pub open spec fn valid_mime(b: Seq<u8>) -> bool {
    &&& b.len() <= B_MIME_TYPE_LENGTH
    &&& forall|i: int| 0 <= i < b.len() ==> is_graphic(#[trigger] b[i])
    &&& forall|i: int| 0 <= i < b.len() && #[trigger] b[i] == 0x2f ==> 0 < i < b.len() - 1
    &&& forall|i: int, j: int| 0 <= i < j < b.len() && #[trigger] b[i] == 0x2f ==> #[trigger] b[j] != 0x2f
}

/// Where the first `/` of `b` is, if any.
pub open spec fn slash_at(b: Seq<u8>) -> Option<int> {
    if exists|i: int| 0 <= i < b.len() && b[i] == 0x2f {
        Some(choose|i: int| 0 <= i < b.len() && b[i] == 0x2f && forall|j: int| 0 <= j < i ==> b[j] != 0x2f)
    } else {
        None
    }
}

/// A MIME type, as defined by RFC 6838: a supertype, optionally followed
/// by `/` and a subtype.
pub struct MimeType {
    type_string: String,
}

impl MimeType {
    /// The bytes of the type string.
    pub closed spec fn bytes(&self) -> Seq<u8> {
        encode_utf8(self.type_string@)
    }

    /// The type `mime_type`, when it is a valid MIME type string.
    pub fn new(mime_type: &str) -> (r: Option<MimeType>)
        ensures
            r is Some <==> valid_mime(encode_utf8(mime_type@)),
            r matches Some(m) ==> m.bytes() == encode_utf8(mime_type@),
    {
        let b = mime_type.as_bytes();
        let n = b.len();
        if n > B_MIME_TYPE_LENGTH {
            return None;
        }
        let mut found_slash = false;
        let mut i: usize = 0;
        while i < n
            invariant
                b@ == encode_utf8(mime_type@),
                n == b@.len() <= B_MIME_TYPE_LENGTH,
                i <= n,
                forall|k: int| 0 <= k < i ==> is_graphic(#[trigger] b@[k]),
                forall|k: int| 0 <= k < i && #[trigger] b@[k] == 0x2f ==> 0 < k < n - 1,
                forall|k: int, l: int| 0 <= k < l < i && #[trigger] b@[k] == 0x2f ==> #[trigger] b@[l] != 0x2f,
                found_slash <==> exists|k: int| 0 <= k < i && b@[k] == 0x2f,
            decreases n - i,
        {
            let c = b[i];
            if c == 0x2f {
                if found_slash || i == 0 || i == n - 1 {
                    proof {
                        if found_slash {
                            let k = choose|k: int| 0 <= k < i && b@[k] == 0x2f;
                            assert(b@[k] == 0x2f && b@[i as int] == 0x2f);
                            assert(!valid_mime(b@));
                        } else {
                            assert(b@[i as int] == 0x2f);
                            assert(!valid_mime(b@));
                        }
                    }
                    return None;
                }
                found_slash = true;
            } else if !(0x21 <= c && c <= 0x7e) {
                proof {
                    assert(!is_graphic(b@[i as int]));
                    assert(!valid_mime(b@));
                }
                return None;
            }
            proof {
                assert(b@[i as int] == c);
                if c == 0x2f {
                    assert(exists|k: int| 0 <= k < i + 1 && b@[k] == 0x2f);
                } else if found_slash {
                    let k = choose|k: int| 0 <= k < i && b@[k] == 0x2f;
                    assert(0 <= k < i + 1 && b@[k] == 0x2f);
                } else {
                    assert forall|k: int| 0 <= k < i + 1 implies b@[k] != 0x2f by {
                        if k < i {
                            assert(!(0 <= k < i && b@[k] == 0x2f));
                        }
                    }
                }
            }
            i = i + 1;
        }
        Some(MimeType { type_string: mime_type.to_owned() })
    }

    /// Whether the type has no subtype.
    pub fn is_supertype_only(&self) -> (r: bool)
        ensures
            r == (slash_at(self.bytes()) is None),
    {
        let b = self.type_string.as_str().as_bytes();
        let mut i: usize = 0;
        while i < b.len()
            invariant
                i <= b@.len(),
                b@ == self.bytes(),
                forall|k: int| 0 <= k < i ==> b@[k] != 0x2f,
            decreases b@.len() - i,
        {
            if b[i] == 0x2f {
                return false;
            }
            i = i + 1;
        }
        true
    }

    /// The supertype: the part before the `/`, or the whole type when it has
    /// no subtype. For example, `text/plain` gives `text`.
    pub fn get_supertype(&self) -> (r: MimeType)
        ensures
            slash_at(self.bytes()) is None ==> r.bytes() == self.bytes(),
            slash_at(self.bytes()) matches Some(i) ==> r.bytes() == self.bytes().subrange(0, i),
    {
        let b = self.type_string.as_str().as_bytes();
        let mut i: usize = 0;
        while i < b.len()
            invariant
                i <= b@.len(),
                b@ == self.bytes(),
                forall|k: int| 0 <= k < i ==> b@[k] != 0x2f,
            decreases b@.len() - i,
        {
            if b[i] == 0x2f {
                let head = vstd::slice::slice_subrange(b, 0, i);
                proof {
                    let bs = b@;
                    vstd::utf8::encode_utf8_valid_utf8(self.type_string@);
                    vstd::utf8::is_char_boundary_iff_is_leading_byte(bs, i as int);
                    vstd::utf8::valid_utf8_split(bs, i as int);
                    assert(head@ == bs.subrange(0, i as int));
                    assert(slash_at(bs) == Some(i as int)) by {
                        let c = choose|k: int| 0 <= k < bs.len() && bs[k] == 0x2f && forall|j: int| 0 <= j < k ==> bs[j] != 0x2f;
                        if c < i {
                        } else if c > i {
                            assert(bs[i as int] == 0x2f);
                        }
                    }
                }
                match text_from_utf8(head) {
                    Some(s) => return MimeType { type_string: s },
                    None => return MimeType { type_string: self.type_string.clone() },
                }
            }
            i = i + 1;
        }
        MimeType { type_string: self.type_string.clone() }
    }

    /// The type string.
    pub fn as_str(&self) -> (r: &str)
        ensures
            encode_utf8(r@) == self.bytes(),
    {
        self.type_string.as_str()
    }
}

impl PartialEq for MimeType {
    fn eq(&self, other: &MimeType) -> (r: bool) {
        let r = self.type_string == other.type_string;
        proof {
            if !r {
                vstd::utf8::encode_utf8_decode_utf8(self.type_string@);
                vstd::utf8::encode_utf8_decode_utf8(other.type_string@);
            }
        }
        r
    }
}

impl vstd::std_specs::cmp::PartialEqSpecImpl for MimeType {
    open spec fn obeys_eq_spec() -> bool {
        true
    }

    open spec fn eq_spec(&self, other: &MimeType) -> bool {
        self.bytes() == other.bytes()
    }
}

} // verus!
