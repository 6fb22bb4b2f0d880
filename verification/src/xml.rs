//! The wire codec: the record types and the encoder and decoder for the
//! `<root byte=".." other=".."/>` element, with proved round-trip identity.

use vstd::prelude::*;
use crate::byte_enum::{ByteEnum, byte_enum_error};
use crate::scalar::{
    FromXmlStr, ScalarError, dec_of, is_digit, lemma_dec_of, strip_plus, u8_to_dec,
    unsigned_accepts, unsigned_error, unsigned_val,
};

verus! {

/// The two attribute-typed fields that are flattened into the parent
/// element: the enumeration's discriminant and a plain unsigned byte.
#[derive(Debug, PartialEq, Eq, Structural, Clone)]
pub struct IntermediateStruct {
    /// Serialized as the attribute `byte`, holding the discriminant code.
    pub byte: ByteEnum,
    /// Serialized as the attribute `other`, holding a plain unsigned byte.
    pub other: u8,
}

/// The parent record: its whole visible surface is the flattened
/// [`IntermediateStruct`], whose fields appear as direct attributes of the
/// `root` element.
#[derive(Debug, PartialEq, Eq, Structural, Clone)]
pub struct RootStruct {
    /// The flattened composite; its fields are the element's attributes.
    pub intermediate: IntermediateStruct,
}

/// What encoding a record produces: the `root` element with the two
/// flattened attributes in declaration order, each holding the canonical
/// decimal form of its value.
pub open spec fn encode_spec(r: RootStruct) -> Seq<char> {
    "<root byte=\""@ + dec_of(r.intermediate.byte.code_spec() as nat) + "\" other=\""@ + dec_of(
        r.intermediate.other as nat,
    ) + "\"/>"@
}

/// Encode a record as markup text. Both attribute values are digit strings,
/// so no markup escaping is ever needed.
pub fn encode(r: &RootStruct) -> (out: String)
    ensures
        out@ == encode_spec(*r),
{
    let mut out = String::from_str("<root byte=\"");
    let b = u8_to_dec(r.intermediate.byte.code());
    out.append(b.as_str());
    out.append("\" other=\"");
    let o = u8_to_dec(r.intermediate.other);
    out.append(o.as_str());
    out.append("\"/>");
    proof {
        assert(out@ =~= encode_spec(*r));
    }
    out
}

/// Error from decoding the markup element.
#[derive(Debug, Clone)]
pub enum DecodeError {
    /// The text is not shaped `<root byte="..." other="..."/>`.
    Structure,
    /// The `byte` attribute's text was rejected; carries the scalar error.
    ByteAttr(ScalarError),
    /// The `other` attribute's text was rejected; carries the scalar error.
    OtherAttr(ScalarError),
}

impl DecodeError {
    /// The human-readable explanation the error carries: which attribute
    /// failed, and the scalar grammar's own explanation.
    pub open spec fn message_spec(self) -> Seq<char> {
        match self {
            DecodeError::Structure => "malformed root element"@,
            DecodeError::ByteAttr(se) => "byte attribute: "@ + se.message_spec(),
            DecodeError::OtherAttr(se) => "other attribute: "@ + se.message_spec(),
        }
    }

    /// Render the explanation.
    pub fn message(&self) -> (r: String)
        ensures
            r@ == self.message_spec(),
    {
        match self {
            DecodeError::Structure => String::from_str("malformed root element"),
            DecodeError::ByteAttr(se) => {
                let mut out = String::from_str("byte attribute: ");
                let m = se.message();
                out.append(m.as_str());
                out
            },
            DecodeError::OtherAttr(se) => {
                let mut out = String::from_str("other attribute: ");
                let m = se.message();
                out.append(m.as_str());
                out
            },
        }
    }
}

/// The position of the first `'"'` in `s` at or after `from`, or the
/// length of `s` if there is none.
pub open spec fn find_quote(s: Seq<char>, from: int) -> int
    decreases s.len() - from when 0 <= from <= s.len()
{
    if from >= s.len() {
        s.len() as int
    } else if s[from] == '"' {
        from
    } else {
        find_quote(s, from + 1)
    }
}

/// What `find_quote` returns is in range, lands on a quote when there is
/// one, and skips nothing but non-quotes.
pub proof fn lemma_find_quote(s: Seq<char>, from: int)
    requires
        0 <= from <= s.len(),
    ensures
        from <= find_quote(s, from) <= s.len(),
        find_quote(s, from) < s.len() ==> s[find_quote(s, from)] == '"',
        forall|k: int| from <= k < find_quote(s, from) ==> s[k] != '"',
    decreases s.len() - from,
{
    if from < s.len() && s[from] != '"' {
        lemma_find_quote(s, from + 1);
    }
}

/// `find_quote` lands exactly on the first quote.
pub proof fn lemma_find_quote_at(s: Seq<char>, from: int, i: int)
    requires
        0 <= from <= i < s.len(),
        s[i] == '"',
        forall|k: int| from <= k < i ==> s[k] != '"',
    ensures
        find_quote(s, from) == i,
    decreases i - from,
{
    if from < i {
        lemma_find_quote_at(s, from + 1, i);
    }
}

/// The fixed frame around the first attribute value.
pub open spec fn prefix_str() -> Seq<char> {
    "<root byte=\""@
}

/// The fixed frame between the two attribute values.
pub open spec fn mid_str() -> Seq<char> {
    "\" other=\""@
}

/// The fixed frame after the second attribute value.
pub open spec fn suffix_str() -> Seq<char> {
    "\"/>"@
}

/// The structural split of the element text: the two attribute value texts,
/// or `None` when the text is not shaped `<root byte="..." other="..."/>`.
/// Each value text runs up to the first quote that follows it, so neither
/// holds a quote.
pub open spec fn decode_split(s: Seq<char>) -> Option<(Seq<char>, Seq<char>)> {
    let p = prefix_str().len() as int;
    if s.len() < p || s.subrange(0, p) != prefix_str() {
        None
    } else {
        let i = find_quote(s, p);
        let m = mid_str().len() as int;
        if i + m > s.len() || s.subrange(i, i + m) != mid_str() {
            None
        } else {
            let j = find_quote(s, i + m);
            if j >= s.len() || s.subrange(j, s.len() as int) != suffix_str() {
                None
            } else {
                Some((s.subrange(p, i), s.subrange(i + m, j)))
            }
        }
    }
}

/// What decoding the element text yields: the record, when the text splits
/// structurally and both attribute texts pass their types' grammars.
pub open spec fn decode_val(s: Seq<char>) -> Option<RootStruct> {
    match decode_split(s) {
        None => None,
        Some(sp) => match (
            <ByteEnum as FromXmlStr>::from_xml_str_spec(sp.0),
            <u8 as FromXmlStr>::from_xml_str_spec(sp.1),
        ) {
            (Some(b), Some(o)) => Some(
                RootStruct { intermediate: IntermediateStruct { byte: b, other: o } },
            ),
            _ => None,
        },
    }
}

/// Scan for the first quote at or after `from`.
fn find_quote_at(s: &str, from: usize) -> (r: usize)
    requires
        from <= s@.len(),
    ensures
        r == find_quote(s@, from as int),
        from <= r <= s@.len(),
{
    let n = s.unicode_len();
    let mut i: usize = from;
    while i < n
        invariant
            from <= i <= n,
            n == s@.len(),
            forall|k: int| from <= k < i ==> s@[k] != '"',
        decreases n - i,
    {
        if s.get_char(i) == '"' {
            proof {
                lemma_find_quote_at(s@, from as int, i as int);
            }
            return i;
        }
        i += 1;
    }
    proof {
        lemma_find_quote(s@, from as int);
    }
    n
}

/// Decode the element text back into a record.
///
/// Both attribute texts route through their types' coercion grammars —
/// `byte` through the enumeration's two-stage grammar, `other` through the
/// plain unsigned-byte grammar — so every accepted text form is stated in
/// one place, the [`FromXmlStr`] impls.
///
/// The contract is exact: success happens on exactly the texts that
/// `decode_val` accepts and yields the value it names; each error variant
/// comes on exactly the texts it describes. Structural errors are raised
/// before either attribute is coerced, and the `byte` attribute is coerced
/// before `other`.
pub fn decode(s: &str) -> (r: Result<RootStruct, DecodeError>)
    ensures
        match r {
            Ok(v) => decode_val(s@) == Some(v),
            Err(e) => decode_val(s@) is None && match e {
                DecodeError::Structure => decode_split(s@) is None,
                DecodeError::ByteAttr(se) => decode_split(s@) matches Some(sp)
                    && <ByteEnum as FromXmlStr>::from_xml_str_spec(sp.0) is None
                    && byte_enum_error(sp.0, se),
                DecodeError::OtherAttr(se) => decode_split(s@) matches Some(sp)
                    && <ByteEnum as FromXmlStr>::from_xml_str_spec(sp.0) is Some
                    && <u8 as FromXmlStr>::from_xml_str_spec(sp.1) is None && unsigned_error(
                    sp.1,
                    255,
                    se,
                ),
            },
        },
{
    let pre = "<root byte=\"";
    let plen = pre.unicode_len();
    let n = s.unicode_len();
    if n < plen {
        return Err(DecodeError::Structure);
    }
    if !crate::scalar::str_eq(s.substring_char(0, plen), pre) {
        return Err(DecodeError::Structure);
    }
    let i = find_quote_at(s, plen);
    let mid = "\" other=\"";
    let mlen = mid.unicode_len();
    if n - i < mlen {
        return Err(DecodeError::Structure);
    }
    if !crate::scalar::str_eq(s.substring_char(i, i + mlen), mid) {
        return Err(DecodeError::Structure);
    }
    let j = find_quote_at(s, i + mlen);
    if j >= n {
        return Err(DecodeError::Structure);
    }
    if !crate::scalar::str_eq(s.substring_char(j, n), "\"/>") {
        return Err(DecodeError::Structure);
    }
    let v1 = s.substring_char(plen, i);
    let v2 = s.substring_char(i + mlen, j);
    let byte = match ByteEnum::from_str(v1) {
        Ok(b) => b,
        Err(e) => {
            return Err(DecodeError::ByteAttr(e));
        },
    };
    let other: u8 = match <u8 as FromXmlStr>::from_str(v2) {
        Ok(o) => o,
        Err(e) => {
            return Err(DecodeError::OtherAttr(e));
        },
    };
    Ok(RootStruct { intermediate: IntermediateStruct { byte, other } })
}

/// Round-trip identity: decoding what encoding any record produces
/// reproduces that record.
pub proof fn lemma_round_trip(v: RootStruct)
    ensures
        decode_val(encode_spec(v)) == Some(v),
{
    let code = v.intermediate.byte.code_spec() as nat;
    let oth = v.intermediate.other as nat;
    let d1 = dec_of(code);
    let d2 = dec_of(oth);
    lemma_dec_of(code);
    lemma_dec_of(oth);
    reveal_strlit("<root byte=\"");
    reveal_strlit("\" other=\"");
    reveal_strlit("\"/>");
    let s = encode_spec(v);
    assert(s =~= prefix_str() + d1 + mid_str() + d2 + suffix_str());
    let p = prefix_str().len() as int;
    assert(p == 12);
    assert(mid_str().len() == 9);
    assert(suffix_str().len() == 3);
    let i = p + d1.len() as int;
    let j = i + 9 + d2.len() as int;
    assert(s.len() == j + 3);
    assert(s.subrange(0, p) =~= prefix_str());
    assert(s[i] == mid_str()[0]);
    assert(mid_str()[0] == '"');
    assert forall|k: int| p <= k < i implies s[k] != '"' by {
        assert(s[k] == d1[k - p]);
        assert(is_digit(d1[k - p]));
    }
    lemma_find_quote_at(s, p, i);
    assert(s.subrange(i, i + 9) =~= mid_str());
    assert(s[j] == suffix_str()[0]);
    assert(suffix_str()[0] == '"');
    assert forall|k: int| i + 9 <= k < j implies s[k] != '"' by {
        assert(s[k] == d2[k - (i + 9)]);
        assert(is_digit(d2[k - (i + 9)]));
    }
    lemma_find_quote_at(s, i + 9, j);
    assert(s.subrange(j, s.len() as int) =~= suffix_str());
    assert(s.subrange(p, i) =~= d1);
    assert(s.subrange(i + 9, j) =~= d2);
    assert(decode_split(s) == Some((d1, d2)));
    assert(is_digit(d1[0]));
    assert(strip_plus(d1) =~= d1);
    assert(unsigned_val(d1) == code);
    assert(unsigned_accepts(d1, 255));
    assert(<ByteEnum as FromXmlStr>::from_xml_str_spec(d1) == Some(v.intermediate.byte));
    assert(is_digit(d2[0]));
    assert(strip_plus(d2) =~= d2);
    assert(unsigned_val(d2) == oth);
    assert(unsigned_accepts(d2, 255));
    assert(<u8 as FromXmlStr>::from_xml_str_spec(d2) == Some(v.intermediate.other));
}

/// Encode idempotence under round-trip: decoding an encoded record succeeds,
/// and re-encoding what came back reproduces the identical text.
pub proof fn lemma_encode_idempotent(v: RootStruct)
    ensures
        decode_val(encode_spec(v)) matches Some(w) && encode_spec(w) == encode_spec(v),
{
    lemma_round_trip(v);
}

} // verus!
