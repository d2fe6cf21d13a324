//! Inbound name classification and canonical file naming.
//!
//! An inbound file is admitted by its extension alone: `jpg` or `jpeg`,
//! in any letter case. The stored original is named `"{hash}.{ext}"` with
//! the fingerprint in decimal and the extension lowercased; the rendition
//! is named `"{hash}.jpg"`. The extension logic works on the name's
//! UTF-8 bytes, with ASCII lowercasing, which is exact for every name the
//! allow-list could admit.

use vstd::prelude::*;
use vstd::string::*;
use crate::digits::{dec_of, u64_to_dec};

verus! {

/// ASCII lowercasing of one byte.
pub open spec fn lower_byte(b: u8) -> u8 {
    if 65 <= b && b <= 90 {
        (b + 32) as u8
    } else {
        b
    }
}

/// The position of the last dot among the name's bytes, or -1.
pub open spec fn last_dot(s: Seq<u8>) -> int
    decreases s.len(),
{
    if s.len() == 0 {
        -1
    } else if s.last() == 46u8 {
        s.len() - 1
    } else {
        last_dot(s.drop_last())
    }
}

/// The name's extension: the bytes after the last dot, lowercased, when
/// that dot is neither absent nor leading (a leading dot is a hidden
/// name, not an extension).
pub open spec fn ext_bytes(s: Seq<u8>) -> Option<Seq<u8>> {
    let p = last_dot(s);
    if p >= 1 {
        Some(s.subrange(p + 1, s.len() as int).map_values(|b: u8| lower_byte(b)))
    } else {
        None
    }
}

/// The bytes of `jpg`.
pub open spec fn jpg_ext() -> Seq<u8> {
    seq![106u8, 112u8, 103u8]
}

/// The bytes of `jpeg`.
pub open spec fn jpeg_ext() -> Seq<u8> {
    seq![106u8, 112u8, 101u8, 103u8]
}

/// What the watcher decides about one inbound name.
#[derive(Clone, Copy, Debug, PartialEq, Eq, Structural)]
pub enum ExtDecision {
    /// Extension `jpg`, in any letter case: admitted.
    Jpg,
    /// Extension `jpeg`, in any letter case: admitted.
    Jpeg,
    /// An extension outside the allow-list: logged and skipped.
    Unsupported,
    /// No recognizable extension: logged and skipped.
    NoExtension,
}

proof fn lemma_last_dot_at(s: Seq<u8>, k: int)
    requires
        0 <= k < s.len(),
        s[k] == 46u8,
        forall|j: int| k < j < s.len() ==> s[j] != 46u8,
    ensures
        last_dot(s) == k,
    decreases s.len(),
{
    if k < s.len() - 1 {
        assert(s.last() != 46u8);
        lemma_last_dot_at(s.drop_last(), k);
    }
}

proof fn lemma_last_dot_none(s: Seq<u8>)
    requires
        forall|j: int| 0 <= j < s.len() ==> s[j] != 46u8,
    ensures
        last_dot(s) == -1,
    decreases s.len(),
{
    if s.len() > 0 {
        lemma_last_dot_none(s.drop_last());
    }
}

/// ASCII lowercasing of one byte, exactly as [`lower_byte`] describes.
fn to_lower(b: u8) -> (r: u8)
    ensures
        r == lower_byte(b),
{
    if b >= 65 && b <= 90 {
        b + 32
    } else {
        b
    }
}

/// Classifies an inbound file name by its extension: only `jpg` and
/// `jpeg`, in any letter case, are admitted for ingestion.
pub fn classify_name(name: &str) -> (r: ExtDecision)
    ensures
        r == ExtDecision::NoExtension <==> ext_bytes(name.spec_bytes()).is_none(),
        r == ExtDecision::Jpg <==> ext_bytes(name.spec_bytes()) == Some(jpg_ext()),
        r == ExtDecision::Jpeg <==> ext_bytes(name.spec_bytes()) == Some(jpeg_ext()),
{
    let bytes: &[u8] = name.as_bytes();
    let n: usize = bytes.len();
    let mut last: Option<usize> = None;
    let mut i: usize = 0;
    while i < n
        invariant
            n == bytes@.len(),
            i <= n,
            match last {
                Option::None => forall|j: int| 0 <= j < i ==> bytes@[j] != 46u8,
                Option::Some(p) => 0 <= p < i && bytes@[p as int] == 46u8 && forall|j: int|
                    p < j < i ==> bytes@[j] != 46u8,
            },
        decreases n - i,
    {
        if bytes[i] == 46 {
            last = Some(i);
        }
        i = i + 1;
    }
    let p: usize = match last {
        Option::None => {
            proof {
                lemma_last_dot_none(bytes@);
            }
            return ExtDecision::NoExtension;
        },
        Option::Some(p) => p,
    };
    proof {
        lemma_last_dot_at(bytes@, p as int);
    }
    if p == 0 {
        return ExtDecision::NoExtension;
    }
    let ghost es = bytes@.subrange(p as int + 1, n as int).map_values(|b: u8| lower_byte(b));
    proof {
        assert(ext_bytes(bytes@) == Some(es));
    }
    let elen: usize = n - p - 1;
    if elen == 3 {
        let a = to_lower(bytes[p + 1]);
        let b = to_lower(bytes[p + 2]);
        let c = to_lower(bytes[p + 3]);
        proof {
            assert(es[0] == lower_byte(bytes@[p as int + 1]));
            assert(es[1] == lower_byte(bytes@[p as int + 2]));
            assert(es[2] == lower_byte(bytes@[p as int + 3]));
        }
        if a == 106 && b == 112 && c == 103 {
            proof {
                assert(es =~= jpg_ext());
            }
            ExtDecision::Jpg
        } else {
            proof {
                assert(es != jpg_ext());
                assert(es.len() != jpeg_ext().len());
            }
            ExtDecision::Unsupported
        }
    } else if elen == 4 {
        let a = to_lower(bytes[p + 1]);
        let b = to_lower(bytes[p + 2]);
        let c = to_lower(bytes[p + 3]);
        let d = to_lower(bytes[p + 4]);
        proof {
            assert(es[0] == lower_byte(bytes@[p as int + 1]));
            assert(es[1] == lower_byte(bytes@[p as int + 2]));
            assert(es[2] == lower_byte(bytes@[p as int + 3]));
            assert(es[3] == lower_byte(bytes@[p as int + 4]));
        }
        if a == 106 && b == 112 && c == 101 && d == 103 {
            proof {
                assert(es =~= jpeg_ext());
            }
            ExtDecision::Jpeg
        } else {
            proof {
                assert(es != jpeg_ext());
                assert(es.len() != jpg_ext().len());
            }
            ExtDecision::Unsupported
        }
    } else {
        proof {
            assert(es.len() == n - p - 1);
            assert(es.len() != jpg_ext().len());
            assert(es.len() != jpeg_ext().len());
        }
        ExtDecision::Unsupported
    }
}

/// The characters of `.jpg`.
pub open spec fn dot_jpg() -> Seq<char> {
    seq!['.', 'j', 'p', 'g']
}

/// The characters of `.jpeg`.
pub open spec fn dot_jpeg() -> Seq<char> {
    seq!['.', 'j', 'p', 'e', 'g']
}

/// The canonical name of a stored original: the fingerprint in decimal,
/// a dot, and the admitted extension lowercased. Nothing for a name that
/// the allow-list refused.
pub fn raw_file_name(hash: u64, ext: ExtDecision) -> (r: Option<String>)
    ensures
        ext == ExtDecision::Jpg ==> r.is_some() && r.unwrap()@ == dec_of(hash as int)
            + dot_jpg(),
        ext == ExtDecision::Jpeg ==> r.is_some() && r.unwrap()@ == dec_of(hash as int)
            + dot_jpeg(),
        ext == ExtDecision::Unsupported || ext == ExtDecision::NoExtension ==> r.is_none(),
{
    match ext {
        ExtDecision::Jpg => {
            proof {
                reveal_strlit(".jpg");
                assert(".jpg"@ =~= dot_jpg());
            }
            Some(u64_to_dec(hash).concat(".jpg"))
        },
        ExtDecision::Jpeg => {
            proof {
                reveal_strlit(".jpeg");
                assert(".jpeg"@ =~= dot_jpeg());
            }
            Some(u64_to_dec(hash).concat(".jpeg"))
        },
        ExtDecision::Unsupported => None,
        ExtDecision::NoExtension => None,
    }
}

/// The canonical name of the display rendition: the fingerprint in
/// decimal with the fixed `jpg` extension.
pub fn rendition_file_name(hash: u64) -> (r: String)
    ensures
        r@ == dec_of(hash as int) + dot_jpg(),
{
    proof {
        reveal_strlit(".jpg");
        assert(".jpg"@ =~= dot_jpg());
    }
    u64_to_dec(hash).concat(".jpg")
}

} // verus!
