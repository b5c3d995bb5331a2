//! Base64 (RFC 4648, standard alphabet, padded) for carrying encoded
//! records over text.
use vstd::prelude::*;

verus! {

/// The padding character.
pub const PAD: u8 = 0x3D;

/// The character for six bits `v`: 'A' to 'Z', 'a' to 'z', '0' to '9',
/// then '+' and '/'.
pub open spec fn alphabet(v: int) -> char {
    // ASCII: 'A' is 65, 'a' 97, '0' 48, '+' 43 and '/' 47.
    let octet = if v < 26 {
        65 + v
    } else if v < 52 {
        97 + (v - 26)
    } else if v < 62 {
        48 + (v - 52)
    } else if v == 62 {
        43
    } else {
        47
    };
    (octet as u8) as char
}

/// The characters for one group of one to three octets: four characters,
/// with '=' for each octet missing from three.
pub open spec fn encode_group(b: Seq<u8>) -> Seq<char> {
    let c0 = alphabet(b[0] as int / 4);
    if b.len() == 1 {
        seq![c0, alphabet((b[0] as int % 4) * 16), '=', '=']
    } else if b.len() == 2 {
        seq![
            c0,
            alphabet((b[0] as int % 4) * 16 + b[1] as int / 16),
            alphabet((b[1] as int % 16) * 4),
            '=',
        ]
    } else {
        seq![
            c0,
            alphabet((b[0] as int % 4) * 16 + b[1] as int / 16),
            alphabet((b[1] as int % 16) * 4 + b[2] as int / 64),
            alphabet(b[2] as int % 64),
        ]
    }
}

/// The base64 text of `b`: its groups of three octets in order, the last
/// group possibly shorter.
pub open spec fn spec_encode(b: Seq<u8>) -> Seq<char>
    decreases b.len(),
{
    if b.len() == 0 {
        Seq::empty()
    } else if b.len() <= 3 {
        encode_group(b)
    } else {
        encode_group(b.take(3)) + spec_encode(b.skip(3))
    }
}

/// A sink for characters.
pub trait CharWriter {
    /// Everything written so far.
    spec fn written(&self) -> Seq<char>;

    fn write(&mut self, c: char)
        ensures
            final(self).written() == old(self).written().push(c),
    ;
}

/// Relies on `String::push`: appends the character.
#[verifier::external_body]
fn push_char(s: &mut String, c: char)
    ensures
        final(s)@ == old(s)@.push(c),
{
    s.push(c)
}

impl CharWriter for String {
    open spec fn written(&self) -> Seq<char> {
        self@
    }

    fn write(&mut self, c: char) {
        push_char(self, c)
    }
}

fn sextet_char(v: u8) -> (c: char)
    requires
        v < 64,
    ensures
        c == alphabet(v as int),
{
    let octet: u8 = if v < 26 {
        65 + v
    } else if v < 52 {
        97 + (v - 26)
    } else if v < 62 {
        48 + (v - 52)
    } else if v == 62 {
        43
    } else {
        47
    };
    octet as char
}

fn get_first_char(first: u8) -> (c: char)
    ensures
        c == alphabet((first as int) / 4),
{
    let v = (first & 0b1111_1100) >> 2;
    assert(v == first / 4) by (bit_vector)
        requires
            v == (first & 0b1111_1100) >> 2,
    ;
    sextet_char(v)
}

fn get_second_char(first: u8, second: u8) -> (c: char)
    ensures
        c == alphabet(((first as int) % 4) * 16 + (second as int) / 16),
{
    let v = ((first & 0b0000_0011) << 4) | ((second & 0b1111_0000) >> 4);
    assert(v == (first % 4) * 16 + second / 16) by (bit_vector)
        requires
            v == ((first & 0b0000_0011) << 4) | ((second & 0b1111_0000) >> 4),
    ;
    sextet_char(v)
}

fn get_third_char(second: u8, third: u8) -> (c: char)
    ensures
        c == alphabet(((second as int) % 16) * 4 + (third as int) / 64),
{
    let v = ((second & 0b0000_1111) << 2) | ((third & 0b1100_0000) >> 6);
    assert(v == (second % 16) * 4 + third / 64) by (bit_vector)
        requires
            v == ((second & 0b0000_1111) << 2) | ((third & 0b1100_0000) >> 6),
    ;
    sextet_char(v)
}

fn get_fourth_char(third: u8) -> (c: char)
    ensures
        c == alphabet((third as int) % 64),
{
    let v = third & 0b0011_1111;
    assert(v == third % 64) by (bit_vector)
        requires
            v == third & 0b0011_1111,
    ;
    sextet_char(v)
}

/// Writes the base64 text of `bytes` to `writer`.
pub fn encode<T: CharWriter>(bytes: &[u8], writer: &mut T)
    ensures
        final(writer).written() == old(writer).written() + spec_encode(bytes@),
{
    let ghost start = writer.written();
    let mut pos: usize = 0;
    assert(bytes@.skip(0) =~= bytes@);
    while pos < bytes.len()
        invariant
            pos <= bytes@.len(),
            start + spec_encode(bytes@) == writer.written() + spec_encode(bytes@.skip(pos as int)),
        decreases bytes@.len() - pos,
    {
        let ghost rest = bytes@.skip(pos as int);
        let ghost before = writer.written();
        let remainder = bytes.len() - pos;
        if remainder == 1 {
            writer.write(get_first_char(bytes[pos]));
            writer.write(get_second_char(bytes[pos], 0));
            writer.write('=');
            writer.write('=');
        } else if remainder == 2 {
            writer.write(get_first_char(bytes[pos]));
            writer.write(get_second_char(bytes[pos], bytes[pos + 1]));
            writer.write(get_third_char(bytes[pos + 1], 0));
            writer.write('=');
        } else {
            writer.write(get_first_char(bytes[pos]));
            writer.write(get_second_char(bytes[pos], bytes[pos + 1]));
            writer.write(get_third_char(bytes[pos + 1], bytes[pos + 2]));
            writer.write(get_fourth_char(bytes[pos + 2]));
        }
        proof {
            if remainder <= 3 {
                assert(writer.written() =~= before + encode_group(rest));
                assert(before + spec_encode(rest) =~= writer.written() + Seq::<char>::empty());
            } else {
                assert(rest.take(3) =~= bytes@.subrange(pos as int, pos + 3));
                assert(writer.written() =~= before + encode_group(rest.take(3)));
                assert(rest.skip(3) =~= bytes@.skip(pos + 3));
                assert(before + spec_encode(rest) =~= writer.written() + spec_encode(rest.skip(3)));
            }
        }
        pos = if remainder <= 3 {
            bytes.len()
        } else {
            pos + 3
        };
    }
    proof {
        assert(bytes@.skip(pos as int) =~= Seq::<u8>::empty());
        assert(writer.written() + Seq::<char>::empty() =~= writer.written());
    }
}

/// The base64 text of `bytes` as a string.
pub fn encode_as_string(bytes: &[u8]) -> (r: String)
    ensures
        r@ == spec_encode(bytes@),
{
    let mut value = String::new();
    encode(bytes, &mut value);
    assert(value@ =~= Seq::<char>::empty() + spec_encode(bytes@));
    value
}

/// Why base64 text could not be decoded.
#[derive(Debug, Clone, Copy, PartialEq, Eq, Structural)]
pub enum DecodeErr {
    /// The text, whitespace left out, is not a multiple of four characters.
    NotMultFour,
    /// This character is not of the alphabet.
    BadValue(u8),
    /// This character follows the padding that ends the text.
    BadEndChar(u8),
}

/// Space, tab, line feed and carriage return, which decoding skips.
pub open spec fn is_whitespace(c: u8) -> bool {
    c == 0x20 || c == 0x09 || c == 0x0A || c == 0x0D
}

/// The characters of `s` that are not whitespace, in order.
pub open spec fn strip(s: Seq<u8>) -> Seq<u8>
    decreases s.len(),
{
    if s.len() == 0 {
        Seq::empty()
    } else if is_whitespace(s[0]) {
        strip(s.skip(1))
    } else {
        seq![s[0]] + strip(s.skip(1))
    }
}

/// The six bits that character `c` stands for, or the error for a
/// character outside the alphabet.
pub open spec fn spec_get_value(c: u8) -> Result<u8, DecodeErr> {
    if 65 <= c <= 90 {
        Ok((c - 65) as u8)
    } else if 97 <= c <= 122 {
        Ok((c - 71) as u8)
    } else if 48 <= c <= 57 {
        Ok((c + 4) as u8)
    } else if c == 43 {
        Ok(62)
    } else if c == 47 {
        Ok(63)
    } else {
        Err(DecodeErr::BadValue(c))
    }
}

/// The octets that sextets `v1` to `v4` stand for, eight bits at a time.
pub open spec fn first_byte(v1: u8, v2: u8) -> u8 {
    (v1 * 4 + v2 / 16) as u8
}

pub open spec fn second_byte(v2: u8, v3: u8) -> u8 {
    ((v2 % 16) * 16 + v3 / 4) as u8
}

pub open spec fn third_byte(v3: u8, v4: u8) -> u8 {
    ((v3 % 4) * 64 + v4) as u8
}

/// The octets that base64 text `t`, with no whitespace, stands for. Text is
/// read in groups of four characters; a group that ends in one or two '='
/// gives two or one octets and must be the last. The first error met, from
/// the left, is the one reported.
pub open spec fn spec_decode(t: Seq<u8>) -> Result<Seq<u8>, DecodeErr>
    decreases t.len(),
{
    if t.len() == 0 {
        Ok(Seq::empty())
    } else if t.len() < 4 {
        Err(DecodeErr::NotMultFour)
    } else if t[2] == PAD && t[3] == PAD {
        match spec_get_value(t[0]) {
            Err(e) => Err(e),
            Ok(v1) => match spec_get_value(t[1]) {
                Err(e) => Err(e),
                Ok(v2) => if t.len() > 4 {
                    Err(DecodeErr::BadEndChar(t[4]))
                } else {
                    Ok(seq![first_byte(v1, v2)])
                },
            },
        }
    } else if t[3] == PAD {
        match spec_get_value(t[0]) {
            Err(e) => Err(e),
            Ok(v1) => match spec_get_value(t[1]) {
                Err(e) => Err(e),
                Ok(v2) => match spec_get_value(t[2]) {
                    Err(e) => Err(e),
                    Ok(v3) => if t.len() > 4 {
                        Err(DecodeErr::BadEndChar(t[4]))
                    } else {
                        Ok(seq![first_byte(v1, v2), second_byte(v2, v3)])
                    },
                },
            },
        }
    } else {
        match spec_get_value(t[0]) {
            Err(e) => Err(e),
            Ok(v1) => match spec_get_value(t[1]) {
                Err(e) => Err(e),
                Ok(v2) => match spec_get_value(t[2]) {
                    Err(e) => Err(e),
                    Ok(v3) => match spec_get_value(t[3]) {
                        Err(e) => Err(e),
                        Ok(v4) => match spec_decode(t.skip(4)) {
                            Err(e) => Err(e),
                            Ok(rest) => Ok(
                                seq![first_byte(v1, v2), second_byte(v2, v3), third_byte(v3, v4)]
                                    + rest,
                            ),
                        },
                    },
                },
            },
        }
    }
}

/// `r` with `done` before its octets.
pub open spec fn prefixed(done: Seq<u8>, r: Result<Seq<u8>, DecodeErr>) -> Result<
    Seq<u8>,
    DecodeErr,
> {
    match r {
        Ok(rest) => Ok(done + rest),
        Err(e) => Err(e),
    }
}

/// The octets of ASCII text `s`, one per character.
pub open spec fn octets_of(s: Seq<char>) -> Seq<u8> {
    Seq::new(s.len(), |i: int| s[i] as u8)
}

proof fn lemma_alphabet_value(v: int)
    requires
        0 <= v < 64,
    ensures
        spec_get_value(alphabet(v) as u8) == Ok::<u8, DecodeErr>(v as u8),
        alphabet(v) as u8 != PAD,
        !is_whitespace(alphabet(v) as u8),
{
}

proof fn lemma_strip_append(x: Seq<u8>, y: Seq<u8>)
    ensures
        strip(x + y) == strip(x) + strip(y),
    decreases x.len(),
{
    if x.len() == 0 {
        assert(x + y =~= y);
        assert(strip(x) + strip(y) =~= strip(y));
    } else {
        assert((x + y).skip(1) =~= x.skip(1) + y);
        lemma_strip_append(x.skip(1), y);
        if !is_whitespace(x[0]) {
            assert(seq![x[0]] + strip(x.skip(1)) + strip(y) =~= seq![x[0]] + (strip(x.skip(1))
                + strip(y)));
        }
    }
}

proof fn lemma_group_arithmetic(b0: u8, b1: u8, b2: u8)
    ensures
        first_byte((b0 as int / 4) as u8, ((b0 as int % 4) * 16 + b1 as int / 16) as u8) == b0,
        second_byte(
            ((b0 as int % 4) * 16 + b1 as int / 16) as u8,
            ((b1 as int % 16) * 4 + b2 as int / 64) as u8,
        ) == b1,
        third_byte(((b1 as int % 16) * 4 + b2 as int / 64) as u8, (b2 as int % 64) as u8) == b2,
{
}

/// The text of one group decodes to the group, and holds no whitespace.
proof fn lemma_group_round_trip(g: Seq<u8>, rest: Seq<u8>)
    requires
        1 <= g.len() <= 3,
        g.len() < 3 ==> rest.len() == 0,
    ensures
        strip(octets_of(encode_group(g))) == octets_of(encode_group(g)),
        spec_decode(octets_of(encode_group(g)) + rest) == prefixed(g, spec_decode(rest)),
{
    let t = octets_of(encode_group(g));
    let b0 = g[0];
    let b1: u8 = if g.len() > 1 {
        g[1]
    } else {
        0
    };
    let b2: u8 = if g.len() > 2 {
        g[2]
    } else {
        0
    };
    lemma_group_arithmetic(b0, b1, b2);
    lemma_alphabet_value(b0 as int / 4);
    lemma_alphabet_value((b0 as int % 4) * 16 + b1 as int / 16);
    lemma_alphabet_value((b1 as int % 16) * 4 + b2 as int / 64);
    lemma_alphabet_value(b2 as int % 64);
    assert(t.len() == 4);
    assert(strip(t.skip(4)) == Seq::<u8>::empty());
    assert(t.skip(3).skip(1) =~= t.skip(4));
    assert(t.skip(2).skip(1) =~= t.skip(3));
    assert(t.skip(1).skip(1) =~= t.skip(2));
    assert(strip(t.skip(3)) =~= t.skip(3));
    assert(strip(t.skip(2)) =~= t.skip(2));
    assert(strip(t.skip(1)) =~= t.skip(1));
    assert(strip(t) =~= t);
    let u = t + rest;
    assert(u.skip(4) =~= rest);
    if g.len() == 1 {
        assert(g =~= seq![b0]);
    } else if g.len() == 2 {
        assert(g =~= seq![b0, b1]);
    } else {
        assert(g =~= seq![b0, b1, b2]);
        if let Ok(r) = spec_decode(rest) {
            assert(seq![b0, b1, b2] + r =~= g + r);
        }
    }
}

/// Decoding the base64 text of any octets gives those octets back.
pub proof fn lemma_decode_encode(b: Seq<u8>)
    ensures
        spec_decode(strip(octets_of(spec_encode(b)))) == Ok::<Seq<u8>, DecodeErr>(b),
    decreases b.len(),
{
    if b.len() == 0 {
        assert(octets_of(spec_encode(b)) =~= Seq::<u8>::empty());
        assert(b =~= Seq::<u8>::empty());
    } else if b.len() <= 3 {
        lemma_group_round_trip(b, Seq::empty());
        assert(octets_of(encode_group(b)) + Seq::<u8>::empty() =~= octets_of(encode_group(b)));
        assert(b + Seq::<u8>::empty() =~= b);
    } else {
        let g = b.take(3);
        let text = octets_of(spec_encode(b.skip(3)));
        lemma_decode_encode(b.skip(3));
        assert(octets_of(spec_encode(b)) =~= octets_of(encode_group(g)) + text);
        lemma_strip_append(octets_of(encode_group(g)), text);
        lemma_group_round_trip(g, strip(text));
        assert(g + b.skip(3) =~= b);
    }
}

/// A sink for octets.
pub trait ByteWriter {
    /// Everything written so far.
    spec fn written(&self) -> Seq<u8>;

    fn write(&mut self, b: u8)
        ensures
            final(self).written() == old(self).written().push(b),
    ;
}

impl ByteWriter for Vec<u8> {
    open spec fn written(&self) -> Seq<u8> {
        self@
    }

    fn write(&mut self, b: u8) {
        self.push(b)
    }
}

fn get_value(c: u8) -> (r: Result<u8, DecodeErr>)
    ensures
        r == spec_get_value(c),
        r matches Ok(v) ==> v < 64,
{
    if 65 <= c && c <= 90 {
        Ok(c - 65)
    } else if 97 <= c && c <= 122 {
        Ok(c - 71)
    } else if 48 <= c && c <= 57 {
        Ok(c + 4)
    } else if c == 43 {
        Ok(62)
    } else if c == 47 {
        Ok(63)
    } else {
        Err(DecodeErr::BadValue(c))
    }
}

fn get_first_byte(b1: u8, b2: u8) -> (r: u8)
    requires
        b1 < 64,
        b2 < 64,
    ensures
        r == first_byte(b1, b2),
{
    let r = ((b1 & 0b0011_1111) << 2) | ((b2 & 0b0011_0000) >> 4);
    assert(r == b1 * 4 + b2 / 16) by (bit_vector)
        requires
            b1 < 64,
            b2 < 64,
            r == ((b1 & 0b0011_1111) << 2) | ((b2 & 0b0011_0000) >> 4),
    ;
    r
}

fn get_second_byte(b2: u8, b3: u8) -> (r: u8)
    requires
        b2 < 64,
        b3 < 64,
    ensures
        r == second_byte(b2, b3),
{
    let r = ((b2 & 0b0000_1111) << 4) | ((b3 & 0b0011_1100) >> 2);
    assert(r == (b2 % 16) * 16 + b3 / 4) by (bit_vector)
        requires
            b2 < 64,
            b3 < 64,
            r == ((b2 & 0b0000_1111) << 4) | ((b3 & 0b0011_1100) >> 2),
    ;
    r
}

fn get_third_byte(b3: u8, b4: u8) -> (r: u8)
    requires
        b3 < 64,
        b4 < 64,
    ensures
        r == third_byte(b3, b4),
{
    let r = ((b3 & 0b0000_0011) << 6) | (b4 & 0b0011_1111);
    assert(r == (b3 % 4) * 64 + b4) by (bit_vector)
        requires
            b3 < 64,
            b4 < 64,
            r == ((b3 & 0b0000_0011) << 6) | (b4 & 0b0011_1111),
    ;
    r
}

/// The character `opt` holds; where it holds none the text ended inside a
/// group of four.
pub fn to_result(opt: Option<&u8>) -> (r: Result<u8, DecodeErr>)
    ensures
        match opt {
            Some(c) => r == Ok::<u8, DecodeErr>(*c),
            None => r == Err::<u8, DecodeErr>(DecodeErr::NotMultFour),
        },
{
    match opt {
        Some(c) => Ok(*c),
        None => Err(DecodeErr::NotMultFour),
    }
}

/// The first character at or after `*i` that is not whitespace; `*i` moves
/// past it, or to the end where there is none.
fn next_significant<'b>(bytes: &'b [u8], i: &mut usize) -> (r: Option<&'b u8>)
    requires
        *old(i) <= bytes@.len(),
    ensures
        *old(i) <= *final(i) <= bytes@.len(),
        match r {
            None => strip(bytes@.skip(*old(i) as int)) == Seq::<u8>::empty(),
            Some(c) => *final(i) > *old(i) && strip(bytes@.skip(*old(i) as int)) == seq![*c]
                + strip(bytes@.skip(*final(i) as int)),
        },
{
    let ghost start = *i;
    while *i < bytes.len() && is_space(bytes[*i])
        invariant
            start <= *i <= bytes@.len(),
            strip(bytes@.skip(start as int)) == strip(bytes@.skip(*i as int)),
        decreases bytes@.len() - *i,
    {
        proof {
            assert(bytes@.skip(*i as int).skip(1) =~= bytes@.skip(*i + 1));
        }
        *i = *i + 1;
    }
    if *i == bytes.len() {
        assert(bytes@.skip(*i as int) =~= Seq::<u8>::empty());
        None
    } else {
        let c = &bytes[*i];
        proof {
            assert(bytes@.skip(*i as int).skip(1) =~= bytes@.skip(*i + 1));
        }
        *i = *i + 1;
        Some(c)
    }
}

/// Decodes base64 text, skipping whitespace, and writes the octets to
/// `writer`. Returns how many octets were written. On an error the octets
/// of the groups before it may have been written.
pub fn decode<T: ByteWriter>(bytes: &[u8], writer: &mut T) -> (r: Result<usize, DecodeErr>)
    ensures
        old(writer).written().is_prefix_of(final(writer).written()),
        match spec_decode(strip(bytes@)) {
            Ok(out) => {
                &&& r == Ok::<usize, DecodeErr>(out.len() as usize)
                &&& final(writer).written() == old(writer).written() + out
            },
            Err(e) => r == Err::<usize, DecodeErr>(e),
        },
{
    let ghost w0 = writer.written();
    let ghost mut done: Seq<u8> = Seq::empty();
    let mut i: usize = 0;
    let mut count: usize = 0;
    assert(bytes@.skip(0) =~= bytes@);
    assert(w0 + done =~= w0);
    assert(w0.subrange(0, w0.len() as int) =~= w0);
    loop
        invariant
            i <= bytes@.len(),
            count == done.len(),
            count <= i,
            w0 == old(writer).written(),
            writer.written() == w0 + done,
            w0.is_prefix_of(writer.written()),
            spec_decode(strip(bytes@)) == prefixed(done, spec_decode(strip(bytes@.skip(i as int)))),
        decreases bytes@.len() - i,
    {
        let ghost t = strip(bytes@.skip(i as int));
        let ghost i0 = i;
        let c1 = match next_significant(bytes, &mut i) {
            Some(c) => *c,
            None => {
                assert(done + Seq::<u8>::empty() =~= done);
                return Ok(count);
            },
        };
        let ghost t1 = strip(bytes@.skip(i as int));
        let c2 = match to_result(next_significant(bytes, &mut i)) {
            Ok(c) => c,
            Err(e) => return Err(e),
        };
        let ghost t2 = strip(bytes@.skip(i as int));
        let c3 = match to_result(next_significant(bytes, &mut i)) {
            Ok(c) => c,
            Err(e) => {
                assert(t.len() == 2);
                return Err(e);
            },
        };
        let ghost t3 = strip(bytes@.skip(i as int));
        let c4 = match to_result(next_significant(bytes, &mut i)) {
            Ok(c) => c,
            Err(e) => {
                assert(t.len() == 3);
                return Err(e);
            },
        };
        let ghost t4 = strip(bytes@.skip(i as int));
        assert(t =~= seq![c1, c2, c3, c4] + t4);
        assert(t.skip(4) =~= t4);
        assert(t[0] == c1 && t[1] == c2 && t[2] == c3 && t[3] == c4);
        if c3 == PAD && c4 == PAD {
            let v1 = match get_value(c1) {
                Ok(v) => v,
                Err(e) => return Err(e),
            };
            let v2 = match get_value(c2) {
                Ok(v) => v,
                Err(e) => return Err(e),
            };
            writer.write(get_first_byte(v1, v2));
            count += 1;
            proof {
                done = done.push(first_byte(v1, v2));
                assert(writer.written() =~= w0 + done);
                assert(writer.written().subrange(0, w0.len() as int) =~= w0);
            }
            return match next_significant(bytes, &mut i) {
                Some(x) => Err(DecodeErr::BadEndChar(*x)),
                None => {
                    assert(done =~= done.drop_last() + seq![first_byte(v1, v2)]);
                    Ok(count)
                },
            };
        } else if c4 == PAD {
            let v1 = match get_value(c1) {
                Ok(v) => v,
                Err(e) => return Err(e),
            };
            let v2 = match get_value(c2) {
                Ok(v) => v,
                Err(e) => return Err(e),
            };
            let v3 = match get_value(c3) {
                Ok(v) => v,
                Err(e) => return Err(e),
            };
            writer.write(get_first_byte(v1, v2));
            writer.write(get_second_byte(v2, v3));
            count += 2;
            let ghost group = seq![first_byte(v1, v2), second_byte(v2, v3)];
            proof {
                done = done + group;
                assert(writer.written() =~= w0 + done);
                assert(writer.written().subrange(0, w0.len() as int) =~= w0);
            }
            return match next_significant(bytes, &mut i) {
                Some(x) => Err(DecodeErr::BadEndChar(*x)),
                None => Ok(count),
            };
        } else {
            let v1 = match get_value(c1) {
                Ok(v) => v,
                Err(e) => return Err(e),
            };
            let v2 = match get_value(c2) {
                Ok(v) => v,
                Err(e) => return Err(e),
            };
            let v3 = match get_value(c3) {
                Ok(v) => v,
                Err(e) => return Err(e),
            };
            let v4 = match get_value(c4) {
                Ok(v) => v,
                Err(e) => return Err(e),
            };
            writer.write(get_first_byte(v1, v2));
            writer.write(get_second_byte(v2, v3));
            writer.write(get_third_byte(v3, v4));
            count += 3;
            let ghost group = seq![first_byte(v1, v2), second_byte(v2, v3), third_byte(v3, v4)];
            proof {
                let old_done = done;
                done = done + group;
                assert(writer.written() =~= w0 + done);
                assert(writer.written().subrange(0, w0.len() as int) =~= w0);
                if let Ok(rest) = spec_decode(t4) {
                    assert(old_done + (group + rest) =~= done + rest);
                }
            }
        }
    }
}

/// Decodes base64 text, skipping whitespace, into a new vector.
pub fn decode_as_vec(bytes: &[u8]) -> (r: Result<Vec<u8>, DecodeErr>)
    ensures
        match spec_decode(strip(bytes@)) {
            Ok(out) => r matches Ok(v) && v@ == out,
            Err(e) => r == Err::<Vec<u8>, DecodeErr>(e),
        },
{
    let mut vec: Vec<u8> = Vec::new();
    match decode(bytes, &mut vec) {
        Ok(_) => {
            assert(vec@ =~= Seq::<u8>::empty() + spec_decode(strip(bytes@))->Ok_0);
            Ok(vec)
        },
        Err(e) => Err(e),
    }
}

fn is_space(c: u8) -> (r: bool)
    ensures
        r == is_whitespace(c),
{
    c == 0x20 || c == 0x09 || c == 0x0A || c == 0x0D
}

} // verus!
