//! Byte/string conversions shared by the amount formatter, the hex
//! encoder and the address normalizer.

use vstd::prelude::*;

verus! {

/// The characters of a byte sequence read as ASCII.
pub open spec fn ascii_seq(bytes: Seq<u8>) -> Seq<char> {
    bytes.map_values(|b: u8| b as char)
}

/// ASCII uppercase letters fold to lowercase; all else is unchanged.
pub open spec fn lower_char(c: char) -> char {
    if 'A' <= c && c <= 'Z' {
        ((c as u8) + 32) as char
    } else {
        c
    }
}

/// The sequence folded to lowercase, character by character.
pub open spec fn lower_chars(s: Seq<char>) -> Seq<char> {
    s.map_values(|c: char| lower_char(c))
}

/// The canonical form of an address string: ASCII strings folded to
/// lowercase, anything else left as it is.
pub open spec fn normalized(s: Seq<char>) -> Seq<char> {
    if vstd::utf8::is_ascii_chars(s) {
        lower_chars(s)
    } else {
        s
    }
}

/// Folding to canonical form twice is the same as folding once.
pub proof fn lemma_normalized_idempotent(s: Seq<char>)
    ensures
        normalized(normalized(s)) == normalized(s),
{
    if vstd::utf8::is_ascii_chars(s) {
        let l = lower_chars(s);
        assert forall|i: int| 0 <= i < l.len() implies '\0' <= #[trigger] l[i] && l[i]
            <= '\u{7f}' by {
            assert(l[i] == lower_char(s[i]));
        }
        assert(vstd::utf8::is_ascii_chars(l));
        assert forall|i: int| 0 <= i < l.len() implies #[trigger] lower_chars(l)[i] == l[i] by {
            assert(lower_chars(l)[i] == lower_char(lower_char(s[i])));
        }
        assert(lower_chars(l) =~= l);
    }
}

/// The string with ASCII uppercase letters folded to lowercase; a string
/// holding any non-ASCII character is returned unchanged.
pub fn to_lowercase_ascii(s: &str) -> (r: String)
    ensures
        r@ == normalized(s@),
{
    if !s.is_ascii() {
        return s.to_owned();
    }
    proof {
        vstd::string::is_ascii_spec_bytes(s);
    }
    let bytes = s.as_bytes();
    let mut out: Vec<u8> = Vec::new();
    let mut i: usize = 0;
    while i < bytes.len()
        invariant
            i <= bytes@.len(),
            bytes@.len() == s@.len(),
            forall|j: int| 0 <= j < bytes@.len() ==> bytes@[j] == s@[j] as u8,
            forall|j: int| 0 <= j < bytes@.len() ==> '\0' <= #[trigger] s@[j] && s@[j] <= '\u{7f}',
            out@.len() == i,
            forall|j: int| 0 <= j < i ==> (#[trigger] out@[j]) < 128 && out@[j] as char
                == lower_char(s@[j]),
        decreases bytes@.len() - i,
    {
        let b = bytes[i];
        let lb: u8 = if b >= 65 && b <= 90 {
            b + 32
        } else {
            b
        };
        out.push(lb);
        proof {
            let c = s@[i as int];
            assert(b == c as u8);
            assert(((c as u8) as nat) == (c as nat));
            if 65 <= b && b <= 90 {
                assert('A' <= c && c <= 'Z');
                assert(lb as char == lower_char(c));
            } else {
                assert(!('A' <= c && c <= 'Z'));
                assert(((c as u8) as char) == c);
                assert(lb as char == lower_char(c));
            }
        }
        i += 1;
    }
    let r = ascii_to_string(out);
    proof {
        assert(r@ =~= lower_chars(s@));
    }
    r
}

/// Character-for-character string equality.
pub fn str_eq(a: &str, b: &str) -> (r: bool)
    ensures
        r == (a@ == b@),
{
    let la = a.unicode_len();
    let lb = b.unicode_len();
    if la != lb {
        return false;
    }
    let mut i: usize = 0;
    while i < la
        invariant
            la == a@.len(),
            la == b@.len(),
            i <= la,
            forall|j: int| 0 <= j < i ==> a@[j] == b@[j],
        decreases la - i,
    {
        if a.get_char(i) != b.get_char(i) {
            return false;
        }
        i += 1;
    }
    proof {
        assert(a@ =~= b@);
    }
    true
}

/// Relies on String::from_utf8: ASCII bytes are valid UTF-8 and decode to
/// the characters with the same code points.
#[verifier::external_body]
pub fn ascii_to_string(bytes: Vec<u8>) -> (r: String)
    requires
        forall|i: int| 0 <= i < bytes@.len() ==> bytes@[i] < 128,
    ensures
        r@ == ascii_seq(bytes@),
{
    String::from_utf8(bytes).unwrap()
}

} // verus!
