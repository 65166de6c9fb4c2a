use vstd::prelude::*;

use crate::error::Error;
use vstd::utf8::is_ascii_chars;

verus! {

broadcast use vstd::string::is_ascii_spec_bytes;

/// An ASCII letter, upper or lower case.
pub open spec fn is_letter(b: u8) -> bool {
    (65 <= b && b <= 90) || (97 <= b && b <= 122)
}

/// An upper-case ASCII letter.
pub open spec fn is_upper(b: u8) -> bool {
    65 <= b && b <= 90
}

/// Four bytes, each an ASCII letter.
pub open spec fn valid_code(s: Seq<u8>) -> bool {
    s.len() == 4 && forall|i: int| 0 <= i < 4 ==> is_letter(#[trigger] s[i])
}

/// The text form of a type code: each byte read as the character it encodes.
pub open spec fn code_text(s: Seq<u8>) -> Seq<char> {
    s.map_values(|b: u8| b as char)
}

/// A four-letter chunk type code. The case of each letter carries one property bit.
#[derive(Debug, Clone, Copy, PartialEq, Eq, Structural)]
pub struct ChunkType {
    b0: u8,
    b1: u8,
    b2: u8,
    b3: u8,
}

impl View for ChunkType {
    type V = Seq<u8>;

    closed spec fn view(&self) -> Seq<u8> {
        seq![self.b0, self.b1, self.b2, self.b3]
    }
}

fn is_ascii_letter(b: u8) -> (r: bool)
    ensures
        r == is_letter(b),
{
    (65 <= b && b <= 90) || (97 <= b && b <= 122)
}

fn is_ascii_upper(b: u8) -> (r: bool)
    ensures
        r == is_upper(b),
{
    65 <= b && b <= 90
}

/// Relies on String::push: the character is added at the end.
#[verifier::external_body]
fn push_char(s: &mut String, c: char)
    ensures
        final(s)@ == old(s)@.push(c),
{
    s.push(c)
}

impl ChunkType {
    /// Every type code holds four letters.
    pub open spec fn wf(&self) -> bool {
        valid_code(self@)
    }

    /// The type code holding the four bytes of `s`.
    pub closed spec fn code_of(s: Seq<u8>) -> ChunkType {
        ChunkType { b0: s[0], b1: s[1], b2: s[2], b3: s[3] }
    }

    /// The type code built from four bytes holds exactly those bytes.
    pub proof fn lemma_code_of_view(s: Seq<u8>)
        requires
            s.len() == 4,
        ensures
            ChunkType::code_of(s)@ == s,
    {
        assert(ChunkType::code_of(s)@ =~= s);
    }

    /// Two type codes are equal exactly when their bytes are.
    pub proof fn lemma_view_injective(a: ChunkType, b: ChunkType)
        ensures
            a@ == b@ <==> a == b,
    {
        if a@ == b@ {
            assert(a@[0] == b@[0] && a@[1] == b@[1] && a@[2] == b@[2] && a@[3] == b@[3]);
        }
    }

    /// Builds a type code from four raw bytes, which must all be ASCII letters.
    pub fn from_bytes(bytes: [u8; 4]) -> (r: Result<ChunkType, Error>)
        ensures
            match r {
                Ok(t) => valid_code(bytes@) && t@ == bytes@ && t.wf(),
                Err(e) => !valid_code(bytes@) && e == Error::InvalidEncoding,
            },
    {
        let ok = is_ascii_letter(bytes[0]) && is_ascii_letter(bytes[1]) && is_ascii_letter(bytes[2])
            && is_ascii_letter(bytes[3]);
        if ok {
            let t = ChunkType { b0: bytes[0], b1: bytes[1], b2: bytes[2], b3: bytes[3] };
            assert(t@ =~= bytes@);
            assert(t == ChunkType::code_of(bytes@));
            Ok(t)
        } else {
            proof {
                if valid_code(bytes@) {
                    assert(is_letter(bytes@[0]) && is_letter(bytes@[1]) && is_letter(bytes@[2])
                        && is_letter(bytes@[3]));
                }
            }
            Err(Error::InvalidEncoding)
        }
    }

    /// Builds a type code from its text form: exactly four ASCII letters.
    pub fn from_text(s: &str) -> (r: Result<ChunkType, Error>)
        ensures
            match r {
                Ok(t) => t.wf() && s@ == code_text(t@),
                Err(e) => e == Error::InvalidEncoding && !(exists|c: Seq<u8>|
                    valid_code(c) && s@ == #[trigger] code_text(c)),
            },
    {
        if !s.is_ascii() {
            proof {
                if exists|c: Seq<u8>| valid_code(c) && s@ == #[trigger] code_text(c) {
                    let c = choose|c: Seq<u8>| valid_code(c) && s@ == #[trigger] code_text(c);
                    assert(is_ascii_chars(s@)) by {
                        assert forall|i: int| 0 <= i < s@.len() implies #[trigger] s@[i] <= '\u{7f}' by {
                            assert(s@[i] == c[i] as char);
                        }
                    }
                }
            }
            return Err(Error::InvalidEncoding);
        }
        let b = s.as_bytes();
        if b.len() != 4 {
            return Err(Error::InvalidEncoding);
        }
        let r = ChunkType::from_bytes([b[0], b[1], b[2], b[3]]);
        proof {
            let arr = seq![b@[0], b@[1], b@[2], b@[3]];
            assert(b@ =~= arr);
            assert(s@.len() == 4);
            match r {
                Ok(t) => {
                    assert(s@ =~= code_text(t@));
                },
                Err(_) => {
                    if exists|c: Seq<u8>| valid_code(c) && s@ == #[trigger] code_text(c) {
                        let c = choose|c: Seq<u8>| valid_code(c) && s@ == #[trigger] code_text(c);
                        assert forall|i: int| 0 <= i < 4 implies is_letter(#[trigger] b@[i]) by {
                            assert(s@[i] == c[i] as char);
                            assert(b@[i] == s@[i] as u8);
                        }
                        assert(valid_code(b@));
                    }
                },
            }
        }
        r
    }

    /// The four raw bytes of the code.
    pub fn bytes(&self) -> (r: [u8; 4])
        ensures
            r@ == self@,
    {
        let r = [self.b0, self.b1, self.b2, self.b3];
        assert(r@ =~= self@);
        r
    }

    /// The code as text.
    pub fn to_string(&self) -> (r: String)
        requires
            self.wf(),
        ensures
            r@ == code_text(self@),
    {
        let mut r = String::new();
        push_char(&mut r, self.b0 as char);
        push_char(&mut r, self.b1 as char);
        push_char(&mut r, self.b2 as char);
        push_char(&mut r, self.b3 as char);
        assert(r@ =~= code_text(self@));
        r
    }

    /// A code is valid exactly when its reserved bit is, that is when its third letter is upper case.
    pub fn is_valid(&self) -> (r: bool)
        ensures
            r == is_upper(self@[2]),
    {
        self.is_reserved_bit_valid()
    }

    /// Critical when the first letter is upper case.
    pub fn is_critical(&self) -> (r: bool)
        ensures
            r == is_upper(self@[0]),
    {
        is_ascii_upper(self.b0)
    }

    /// Public when the second letter is upper case.
    pub fn is_public(&self) -> (r: bool)
        ensures
            r == is_upper(self@[1]),
    {
        is_ascii_upper(self.b1)
    }

    /// The reserved bit is valid when the third letter is upper case.
    pub fn is_reserved_bit_valid(&self) -> (r: bool)
        ensures
            r == is_upper(self@[2]),
    {
        is_ascii_upper(self.b2)
    }

    /// Safe to copy when the fourth letter is lower case.
    pub fn is_safe_to_copy(&self) -> (r: bool)
        ensures
            r == !is_upper(self@[3]),
    {
        !is_ascii_upper(self.b3)
    }
}

impl std::str::FromStr for ChunkType {
    type Err = Error;

    fn from_str(s: &str) -> Result<ChunkType, Error> {
        ChunkType::from_text(s)
    }
}

impl TryFrom<[u8; 4]> for ChunkType {
    type Error = Error;

    fn try_from(bytes: [u8; 4]) -> Result<ChunkType, Error> {
        ChunkType::from_bytes(bytes)
    }
}

impl vstd::std_specs::convert::TryFromSpecImpl<[u8; 4]> for ChunkType {
    open spec fn obeys_try_from_spec() -> bool {
        true
    }

    open spec fn try_from_spec(bytes: [u8; 4]) -> Result<ChunkType, Error> {
        if valid_code(bytes@) {
            Ok(ChunkType::code_of(bytes@))
        } else {
            Err(Error::InvalidEncoding)
        }
    }
}

} // verus!
