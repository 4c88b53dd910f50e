//! Identifiers of stored readings.

use vstd::prelude::*;
use vstd::string::*;

verus! {

/// A character that may stand in a reading identifier.
pub open spec fn is_id_char(c: char) -> bool {
    ('0' <= c && c <= '9') || ('a' <= c && c <= 'z') || ('A' <= c && c <= 'Z') || c == '-'
}

/// Every character may stand in a reading identifier.
pub open spec fn valid_id(s: Seq<char>) -> bool {
    forall|i: int| 0 <= i < s.len() ==> is_id_char(#[trigger] s[i])
}

/// A lowercase hex digit.
pub open spec fn is_lower_hex(c: char) -> bool {
    ('0' <= c && c <= '9') || ('a' <= c && c <= 'f')
}

/// Where the hyphens of a hyphenated UUID stand.
pub open spec fn is_uuid_hyphen_at(i: int) -> bool {
    i == 8 || i == 13 || i == 18 || i == 23
}

/// The hyphenated lowercase form of a random (version 4) UUID: 32 lowercase hex digits
/// in groups of 8-4-4-4-12, the version digit `4`, and a variant digit of `8`, `9`,
/// `a` or `b`.
pub open spec fn is_uuid_v4_text(s: Seq<char>) -> bool {
    &&& s.len() == 36
    &&& forall|i: int|
        0 <= i < 36 ==> if is_uuid_hyphen_at(i) {
            #[trigger] s[i] == '-'
        } else {
            is_lower_hex(s[i])
        }
    &&& s[14] == '4'
    &&& (s[19] == '8' || s[19] == '9' || s[19] == 'a' || s[19] == 'b')
}

/// Relies on uuid's `Uuid::new_v4`, which sets the version and variant bits of random
/// bytes, and its `Display`, which writes the hyphenated lowercase form. (`new_v4`
/// panics only when the operating system's random source fails.)
#[verifier::external_body]
fn new_v4_string() -> (r: String)
    ensures
        is_uuid_v4_text(r@),
{
    uuid::Uuid::new_v4().to_string()
}

/// The name of a stored reading.
pub struct ReadingID(String);

impl View for ReadingID {
    type V = Seq<char>;

    closed spec fn view(&self) -> Seq<char> {
        self.0@
    }
}

impl ReadingID {
    /// A fresh random identifier: a hyphenated lowercase version 4 UUID, which
    /// `from_param` accepts.
    pub fn new() -> (r: ReadingID)
        ensures
            is_uuid_v4_text(r@),
            valid_id(r@),
    {
        let s = new_v4_string();
        proof {
            assert forall|i: int| 0 <= i < s@.len() implies is_id_char(#[trigger] s@[i]) by {
                if is_uuid_hyphen_at(i) {
                    assert(s@[i] == '-');
                } else {
                    assert(is_lower_hex(s@[i]));
                }
            }
        }
        ReadingID(s)
    }

    /// Accepts `param` as an identifier when every character is an ASCII letter, a
    /// digit or a hyphen; hands it back otherwise.
    pub fn from_param<'a>(param: &'a str) -> (r: Result<ReadingID, &'a str>)
        ensures
            r is Ok <==> valid_id(param@),
            r is Ok ==> r->Ok_0@ == param@,
            r is Err ==> r->Err_0 == param,
    {
        let n = param.unicode_len();
        let mut i: usize = 0;
        while i < n
            invariant
                n == param@.len(),
                i <= n,
                forall|j: int| 0 <= j < i ==> is_id_char(#[trigger] param@[j]),
            decreases n - i,
        {
            let c = param.get_char(i);
            if !(('0' <= c && c <= '9') || ('a' <= c && c <= 'z') || ('A' <= c && c <= 'Z') || c
                == '-') {
                return Err(param);
            }
            i += 1;
        }
        Ok(ReadingID(param.to_owned()))
    }

    pub fn as_str(&self) -> (r: &str)
        ensures
            r@ == self@,
    {
        self.0.as_str()
    }

    /// Where the reading is stored: `upload/<id>.json`.
    pub fn path(&self) -> (r: String)
        ensures
            r@ == "upload/"@ + self@ + ".json"@,
    {
        let mut p = String::from_str("upload/");
        p.append(self.0.as_str());
        p.append(".json");
        p
    }
}

} // verus!
