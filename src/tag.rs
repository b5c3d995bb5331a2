//! Identifier octets: the class, the constructed flag and the tag number.
use vstd::prelude::*;

verus! {

/// The class of a type, from the top two bits of the identifier octet.
#[derive(Debug, Clone, Copy, PartialEq, Eq, Structural)]
pub enum Class {
    Universal,
    Application,
    ContextSpecific,
    Private,
}

/// A tag number. The well-known universal numbers have a variant of their
/// own; any other number is carried unchanged in `Unknown`.
#[derive(Debug, Clone, Copy, PartialEq, Eq, Structural)]
pub enum Tag {
    EndOfContent,
    Boolean,
    Integer,
    BitString,
    OctetString,
    Null,
    ObjectId,
    Sequence,
    /// SET and SET OF share this number.
    SetOf,
    Unknown(u32),
}

/// What an identifier describes: class, primitive or constructed, tag number.
#[derive(Debug, Clone, Copy, PartialEq, Eq, Structural)]
pub struct TypeId {
    pub class: Class,
    pub is_constructed: bool,
    pub tag: Tag,
}

/// Why an identifier could not be decoded.
#[derive(Debug, Clone, Copy, PartialEq, Eq, Structural)]
pub enum TagError {
    /// The input ended before the identifier did.
    InsufficientBytes,
    /// A high tag number longer than this decoder accepts; carries the
    /// leading identifier octet.
    UnsupportedTag(u8),
}

/// The most continuation octets a high tag number may take (28 bits).
pub const MAX_TAG_OCTETS: usize = 4;

/// The class that identifier octet `id` gives.
pub open spec fn class_of(id: u8) -> Class {
    if id < 0x40 {
        Class::Universal
    } else if id < 0x80 {
        Class::Application
    } else if id < 0xC0 {
        Class::ContextSpecific
    } else {
        Class::Private
    }
}

/// Whether identifier octet `id` marks a constructed type (bit 5).
pub open spec fn constructed_of(id: u8) -> bool {
    (id / 32) % 2 == 1
}

/// The tag for tag number `n`.
pub open spec fn tag_of(n: u32) -> Tag {
    if n == 0 {
        Tag::EndOfContent
    } else if n == 1 {
        Tag::Boolean
    } else if n == 2 {
        Tag::Integer
    } else if n == 3 {
        Tag::BitString
    } else if n == 4 {
        Tag::OctetString
    } else if n == 5 {
        Tag::Null
    } else if n == 6 {
        Tag::ObjectId
    } else if n == 16 {
        Tag::Sequence
    } else if n == 17 {
        Tag::SetOf
    } else {
        Tag::Unknown(n)
    }
}

/// The type that identifier octet `id` describes when its tag number is `n`.
pub open spec fn type_id_of(id: u8, n: u32) -> TypeId {
    TypeId { class: class_of(id), is_constructed: constructed_of(id), tag: tag_of(n) }
}

/// A high tag number: continuation octets of `s` from index `i` on, where
/// `acc` is the value of those before `i`. Each octet gives seven bits, most
/// significant first, and its top bit says whether another follows. The
/// result is the number of continuation octets and the tag number.
pub open spec fn high_tag_number(s: Seq<u8>, i: int, acc: nat) -> Result<(nat, nat), TagError>
    decreases MAX_TAG_OCTETS + 1 - i,
{
    if i < 1 || i > MAX_TAG_OCTETS {
        Err(TagError::UnsupportedTag(s[0]))
    } else if i >= s.len() {
        Err(TagError::InsufficientBytes)
    } else if s[i] < 128 {
        Ok((i as nat, acc * 128 + s[i] as nat))
    } else {
        high_tag_number(s, i + 1, acc * 128 + (s[i] - 128) as nat)
    }
}

/// What the identifier at the start of `s` decodes to: the number of octets
/// it takes and the type it describes. Low tag numbers (0 to 30) stand in
/// the first octet; the value 31 there announces a high tag number.
pub open spec fn spec_decode_tag(s: Seq<u8>) -> Result<(usize, TypeId), TagError> {
    if s.len() == 0 {
        Err(TagError::InsufficientBytes)
    } else if s[0] % 32 != 31 {
        Ok((1, type_id_of(s[0], (s[0] % 32) as u32)))
    } else {
        match high_tag_number(s, 1, 0) {
            Ok((k, n)) => Ok(((1 + k) as usize, type_id_of(s[0], n as u32))),
            Err(e) => Err(e),
        }
    }
}

proof fn lemma_high_tag_number_bounds(s: Seq<u8>, i: int, acc: nat)
    ensures
        high_tag_number(s, i, acc) matches Ok((k, n)) ==> i <= k <= MAX_TAG_OCTETS && k < s.len(),
    decreases MAX_TAG_OCTETS + 1 - i,
{
    if 1 <= i <= MAX_TAG_OCTETS && i < s.len() && s[i] >= 128 {
        lemma_high_tag_number_bounds(s, i + 1, acc * 128 + (s[i] - 128) as nat);
    }
}

/// An identifier that decodes takes at least one octet, and no more than
/// the input holds.
pub proof fn lemma_decode_tag_consumed(s: Seq<u8>)
    ensures
        spec_decode_tag(s) matches Ok((t, id)) ==> 1 <= t <= s.len() && t <= MAX_TAG_OCTETS + 1,
{
    lemma_high_tag_number_bounds(s, 1, 0);
}

/// Decodes the identifier at the start of `bytes`, in the low or the high
/// tag number form.
pub fn decode_tag(bytes: &[u8]) -> (r: Result<(usize, TypeId), TagError>)
    ensures
        r == spec_decode_tag(bytes@),
{
    if bytes.len() == 0 {
        return Err(TagError::InsufficientBytes);
    }
    let id = bytes[0];
    let low = id & 0x1F;
    assert(low == id % 32) by (bit_vector)
        requires
            low == id & 0x1F,
    ;
    if low != 31 {
        return Ok((1, TypeId::from_byte(id)));
    }
    let mut i: usize = 1;
    let mut acc: u32 = 0;
    loop
        invariant
            1 <= i <= MAX_TAG_OCTETS + 1,
            i == 1 ==> acc == 0,
            i == 2 ==> acc < 0x80,
            i == 3 ==> acc < 0x4000,
            i == 4 ==> acc < 0x20_0000,
            acc < 0x1000_0000,
            bytes@[0] == id,
            id % 32 == 31,
            high_tag_number(bytes@, i as int, acc as nat) == high_tag_number(bytes@, 1, 0),
        decreases MAX_TAG_OCTETS + 1 - i,
    {
        if i > MAX_TAG_OCTETS {
            return Err(TagError::UnsupportedTag(id));
        }
        if i >= bytes.len() {
            return Err(TagError::InsufficientBytes);
        }
        let b = bytes[i];
        if b < 128 {
            let n = acc * 128 + b as u32;
            let t = TypeId {
                class: TypeId::get_class(id),
                is_constructed: TypeId::is_constructed(id),
                tag: TypeId::get_tag(n),
            };
            return Ok((i + 1, t));
        }
        acc = acc * 128 + (b - 128) as u32;
        i += 1;
    }
}

impl From<u8> for TypeId {
    /// The same as [`TypeId::from_byte`].
    fn from(id: u8) -> (r: TypeId)
        ensures
            r == type_id_of(id, (id % 32) as u32),
    {
        TypeId::from_byte(id)
    }
}

impl vstd::std_specs::convert::FromSpecImpl<u8> for TypeId {
    open spec fn obeys_from_spec() -> bool {
        true
    }

    open spec fn from_spec(id: u8) -> TypeId {
        type_id_of(id, (id % 32) as u32)
    }
}

impl TypeId {
    /// Reads a single identifier octet: the low five bits are taken as the
    /// tag number as they stand.
    pub fn from_byte(id: u8) -> (r: TypeId)
        ensures
            r == type_id_of(id, (id % 32) as u32),
    {
        let low = id & 0x1F;
        assert(low == id % 32) by (bit_vector)
            requires
                low == id & 0x1F,
        ;
        TypeId {
            class: TypeId::get_class(id),
            is_constructed: TypeId::is_constructed(id),
            tag: TypeId::get_tag(low as u32),
        }
    }

    fn get_class(id: u8) -> (r: Class)
        ensures
            r == class_of(id),
    {
        let bits = id & 0xC0;
        assert(bits == 0 <==> id < 0x40) by (bit_vector)
            requires
                bits == id & 0xC0,
        ;
        assert(bits == 0x40 <==> 0x40 <= id < 0x80) by (bit_vector)
            requires
                bits == id & 0xC0,
        ;
        assert(bits == 0x80 <==> 0x80 <= id < 0xC0) by (bit_vector)
            requires
                bits == id & 0xC0,
        ;
        match bits {
            0 => Class::Universal,
            0x40 => Class::Application,
            0x80 => Class::ContextSpecific,
            _ => Class::Private,
        }
    }

    fn is_constructed(id: u8) -> (r: bool)
        ensures
            r == constructed_of(id),
    {
        assert((id & 0x20 != 0) == ((id / 32) % 2 == 1)) by (bit_vector);
        id & 0x20 != 0
    }

    fn get_tag(n: u32) -> (r: Tag)
        ensures
            r == tag_of(n),
    {
        match n {
            0 => Tag::EndOfContent,
            1 => Tag::Boolean,
            2 => Tag::Integer,
            3 => Tag::BitString,
            4 => Tag::OctetString,
            5 => Tag::Null,
            6 => Tag::ObjectId,
            16 => Tag::Sequence,
            17 => Tag::SetOf,
            x => Tag::Unknown(x),
        }
    }
}

} // verus!
