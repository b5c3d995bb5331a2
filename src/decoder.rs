//! The record parser: a cursor over a buffer that yields one decoded
//! tag-length-value record per call, descending into constructed values.
use vstd::prelude::*;

use crate::length::{lemma_read_len_consumed, read_len, spec_read_len, Length, LengthError};
use crate::tag::{
    decode_tag, lemma_decode_tag_consumed, spec_decode_tag, Class, Tag, TagError, TypeId,
};

verus! {

/// The value of a record.
#[derive(Debug, PartialEq, Eq)]
pub enum Value<'a> {
    /// The content octets of a primitive record, borrowed from the input.
    Primitive(&'a [u8]),
    /// The records nested in a constructed record, in order.
    Constructed(Vec<Node<'a>>),
}

/// A decoded record. `start..end` is the range of its content octets in the
/// buffer the parser was given.
#[derive(Debug, PartialEq, Eq)]
pub struct Node<'a> {
    pub type_id: TypeId,
    pub start: usize,
    pub end: usize,
    pub value: Value<'a>,
}

/// Why a record could not be decoded.
#[derive(Debug, Clone, Copy, PartialEq, Eq, Structural)]
pub enum DecodeError {
    /// The identifier octets are malformed.
    Tag(TagError),
    /// The length octets are malformed.
    Length(LengthError),
    /// The declared length runs past the end of the enclosing region.
    BadLength(usize),
    /// Constructed records are nested deeper than the parser allows.
    TooDeep,
    /// A record of another type than the one asked for.
    UnknownType(TypeId),
}

impl From<LengthError> for DecodeError {
    fn from(e: LengthError) -> (r: DecodeError)
        ensures
            r == DecodeError::Length(e),
    {
        DecodeError::Length(e)
    }
}

impl vstd::std_specs::convert::FromSpecImpl<LengthError> for DecodeError {
    open spec fn obeys_from_spec() -> bool {
        true
    }

    open spec fn from_spec(e: LengthError) -> DecodeError {
        DecodeError::Length(e)
    }
}

impl From<TagError> for DecodeError {
    fn from(e: TagError) -> (r: DecodeError)
        ensures
            r == DecodeError::Tag(e),
    {
        DecodeError::Tag(e)
    }
}

impl vstd::std_specs::convert::FromSpecImpl<TagError> for DecodeError {
    open spec fn obeys_from_spec() -> bool {
        true
    }

    open spec fn from_spec(e: TagError) -> DecodeError {
        DecodeError::Tag(e)
    }
}

/// The reading of a record that [`Parser::next_token`] expects: an object
/// identifier, or the clean end of the input.
#[derive(Debug, PartialEq, Eq)]
pub enum Token<'a> {
    /// The content octets of a universal, primitive OBJECT IDENTIFIER.
    ObjectIdentifier(&'a [u8]),
    NoMoreTokens,
}

/// The mathematical value of a record's content.
pub enum ValueModel {
    Primitive(Seq<u8>),
    Constructed(Seq<NodeModel>),
}

/// The mathematical value of a record: its type, the range of its content
/// octets, and the content.
pub struct NodeModel {
    pub type_id: TypeId,
    pub start: int,
    pub end: int,
    pub value: ValueModel,
}

impl<'a> Node<'a> {
    /// The record as a mathematical value, nested records included.
    pub open spec fn model(&self) -> NodeModel
        decreases self,
    {
        NodeModel {
            type_id: self.type_id,
            start: self.start as int,
            end: self.end as int,
            value: match self.value {
                Value::Primitive(b) => ValueModel::Primitive(b@),
                Value::Constructed(children) => ValueModel::Constructed(models(children@)),
            },
        }
    }
}

/// The records of `s` as mathematical values, in order.
pub open spec fn models<'a>(s: Seq<Node<'a>>) -> Seq<NodeModel>
    decreases s,
{
    if s.len() == 0 {
        Seq::empty()
    } else {
        models(s.drop_last()).push(s.last().model())
    }
}

/// The identifier and length octets of the record at `pos`, which must end
/// by `end`: its type, where its content starts, and the content's length.
pub open spec fn spec_header(buf: Seq<u8>, pos: int, end: int) -> Result<
    (TypeId, int, int),
    DecodeError,
> {
    let w = buf.subrange(pos, end);
    match spec_decode_tag(w) {
        Err(e) => Err(DecodeError::Tag(e)),
        Ok((t, id)) => match spec_read_len(w.subrange(t as int, w.len() as int)) {
            Err(e) => Err(DecodeError::Length(e)),
            Ok((l, Length::Definite(n))) => {
                let vs = pos + t + l;
                if n > end - vs {
                    Err(DecodeError::BadLength(n))
                } else {
                    Ok((id, vs, n as int))
                }
            },
        },
    }
}

/// A header that decodes takes at least two octets and declares content
/// that ends by `end`.
pub proof fn lemma_header_bounds(buf: Seq<u8>, pos: int, end: int)
    ensures
        spec_header(buf, pos, end) matches Ok((id, vs, n)) ==> pos + 2 <= vs && 0 <= n && vs + n
            <= end,
{
    let w = buf.subrange(pos, end);
    lemma_decode_tag_consumed(w);
    if let Ok((t, id)) = spec_decode_tag(w) {
        lemma_read_len_consumed(w.subrange(t as int, w.len() as int));
    }
}

/// The record whose header was decoded as type `id` with `n` content
/// octets at `vs`. Constructed content is parsed as a sequence of records
/// that must fill it exactly, with one level less of nesting allowed.
pub open spec fn spec_node_body(buf: Seq<u8>, id: TypeId, vs: int, n: int, depth: nat) -> Result<
    NodeModel,
    DecodeError,
>
    decreases depth, 0int,
{
    if !id.is_constructed {
        Ok(
            NodeModel {
                type_id: id,
                start: vs,
                end: vs + n,
                value: ValueModel::Primitive(buf.subrange(vs, vs + n)),
            },
        )
    } else if depth == 0 {
        Err(DecodeError::TooDeep)
    } else {
        match spec_parse_seq(buf, vs, vs + n, (depth - 1) as nat) {
            Ok(children) => Ok(
                NodeModel {
                    type_id: id,
                    start: vs,
                    end: vs + n,
                    value: ValueModel::Constructed(children),
                },
            ),
            Err(e) => Err(e),
        }
    }
}

/// The records that fill `buf[pos..end]` one after another, or the first
/// error met on the way.
pub open spec fn spec_parse_seq(buf: Seq<u8>, pos: int, end: int, depth: nat) -> Result<
    Seq<NodeModel>,
    DecodeError,
>
    decreases depth, if pos < end {
        end - pos
    } else {
        0
    },
{
    if pos >= end {
        Ok(Seq::empty())
    } else {
        match spec_header(buf, pos, end) {
            Err(e) => Err(e),
            Ok((id, vs, n)) => {
                proof {
                    lemma_header_bounds(buf, pos, end);
                }
                match spec_node_body(buf, id, vs, n, depth) {
                    Err(e) => Err(e),
                    Ok(node) => match spec_parse_seq(buf, vs + n, end, depth) {
                        Ok(rest) => Ok(seq![node] + rest),
                        Err(e) => Err(e),
                    },
                }
            },
        }
    }
}

/// The record at `pos`, which must end by `end`.
pub open spec fn spec_node(buf: Seq<u8>, pos: int, end: int, depth: nat) -> Result<
    NodeModel,
    DecodeError,
> {
    match spec_header(buf, pos, end) {
        Err(e) => Err(e),
        Ok((id, vs, n)) => spec_node_body(buf, id, vs, n, depth),
    }
}

fn read_header(buf: &[u8], pos: usize, end: usize) -> (r: Result<
    (TypeId, usize, usize),
    DecodeError,
>)
    requires
        pos < end <= buf@.len(),
    ensures
        match r {
            Ok((id, vs, n)) => spec_header(buf@, pos as int, end as int) == Ok::<
                (TypeId, int, int),
                DecodeError,
            >((id, vs as int, n as int)),
            Err(e) => spec_header(buf@, pos as int, end as int) == Err::<
                (TypeId, int, int),
                DecodeError,
            >(e),
        },
{
    let w = &buf[pos..end];
    let ghost ws = buf@.subrange(pos as int, end as int);
    assert(w@ == ws);
    match decode_tag(w) {
        Err(e) => Err(DecodeError::from(e)),
        Ok((t, id)) => {
            proof {
                lemma_decode_tag_consumed(ws);
            }
            let rest = &w[t..w.len()];
            match read_len(rest) {
                Err(e) => Err(DecodeError::from(e)),
                Ok((l, Length::Definite(n))) => {
                    proof {
                        lemma_read_len_consumed(rest@);
                    }
                    let vs = pos + t + l;
                    if n > end - vs {
                        Err(DecodeError::BadLength(n))
                    } else {
                        Ok((id, vs, n))
                    }
                },
            }
        },
    }
}

fn parse_node<'a>(buf: &'a [u8], pos: usize, end: usize, depth: usize) -> (r: Result<
    Node<'a>,
    DecodeError,
>)
    requires
        pos < end <= buf@.len(),
    ensures
        match r {
            Ok(node) => spec_node(buf@, pos as int, end as int, depth as nat) == Ok::<
                NodeModel,
                DecodeError,
            >(node.model()),
            Err(e) => spec_node(buf@, pos as int, end as int, depth as nat) == Err::<
                NodeModel,
                DecodeError,
            >(e),
        },
    decreases depth, 0int,
{
    let (id, vs, n) = match read_header(buf, pos, end) {
        Ok(h) => h,
        Err(e) => return Err(e),
    };
    proof {
        lemma_header_bounds(buf@, pos as int, end as int);
    }
    if !id.is_constructed {
        let content = &buf[vs..vs + n];
        Ok(Node { type_id: id, start: vs, end: vs + n, value: Value::Primitive(content) })
    } else if depth == 0 {
        Err(DecodeError::TooDeep)
    } else {
        match parse_children(buf, vs, vs + n, depth - 1) {
            Ok(children) => Ok(
                Node { type_id: id, start: vs, end: vs + n, value: Value::Constructed(children) },
            ),
            Err(e) => Err(e),
        }
    }
}

fn parse_children<'a>(buf: &'a [u8], pos: usize, end: usize, depth: usize) -> (r: Result<
    Vec<Node<'a>>,
    DecodeError,
>)
    requires
        pos <= end <= buf@.len(),
    ensures
        match r {
            Ok(nodes) => spec_parse_seq(buf@, pos as int, end as int, depth as nat) == Ok::<
                Seq<NodeModel>,
                DecodeError,
            >(models(nodes@)),
            Err(e) => spec_parse_seq(buf@, pos as int, end as int, depth as nat) == Err::<
                Seq<NodeModel>,
                DecodeError,
            >(e),
        },
    decreases depth, 1int,
{
    let mut nodes: Vec<Node<'a>> = Vec::new();
    let mut p = pos;
    while p < end
        invariant
            pos <= p <= end <= buf@.len(),
            spec_parse_seq(buf@, pos as int, end as int, depth as nat) == match spec_parse_seq(
                buf@,
                p as int,
                end as int,
                depth as nat,
            ) {
                Ok(rest) => Ok(models(nodes@) + rest),
                Err(e) => Err(e),
            },
        decreases end - p,
    {
        let node = match parse_node(buf, p, end, depth) {
            Ok(node) => node,
            Err(e) => return Err(e),
        };
        proof {
            lemma_header_bounds(buf@, p as int, end as int);
        }
        let next = node.end;
        let ghost before = nodes@;
        nodes.push(node);
        proof {
            let m = node.model();
            assert(nodes@.drop_last() == before);
            assert(models(nodes@) == models(before).push(m));
            if let Ok(rest) = spec_parse_seq(buf@, next as int, end as int, depth as nat) {
                assert(models(nodes@) + rest =~= models(before) + (seq![m] + rest));
            }
        }
        p = next;
    }
    proof {
        assert(models(nodes@) + Seq::<NodeModel>::empty() =~= models(nodes@));
    }
    Ok(nodes)
}

/// How many levels of constructed records a parser from [`Parser::new`]
/// descends into.
pub const DEFAULT_MAX_DEPTH: usize = 32;

/// A cursor over a buffer of records laid end to end.
pub struct Parser<'a> {
    bytes: &'a [u8],
    pos: usize,
    max_depth: usize,
}

/// The state of a parser: the input, the offset of the next record, and how
/// many levels of constructed records it descends into.
pub struct ParserView {
    pub bytes: Seq<u8>,
    pub pos: int,
    pub max_depth: nat,
}

impl<'a> View for Parser<'a> {
    type V = ParserView;

    closed spec fn view(&self) -> ParserView {
        ParserView { bytes: self.bytes@, pos: self.pos as int, max_depth: self.max_depth as nat }
    }
}

/// What the next call of [`Parser::next`] returns in state `p`: nothing at
/// the end of the input, else the record at the cursor.
pub open spec fn spec_next(p: ParserView) -> Result<Option<NodeModel>, DecodeError> {
    if p.pos >= p.bytes.len() {
        Ok(None)
    } else {
        match spec_node(p.bytes, p.pos, p.bytes.len() as int, p.max_depth) {
            Ok(m) => Ok(Some(m)),
            Err(e) => Err(e),
        }
    }
}

/// The state after that call: past the record when one was decoded, else
/// unchanged, so that an error comes again rather than a later record.
pub open spec fn spec_advance(p: ParserView) -> ParserView {
    match spec_next(p) {
        Ok(Some(m)) => ParserView { bytes: p.bytes, pos: m.end, max_depth: p.max_depth },
        _ => p,
    }
}

/// The type of a universal, primitive OBJECT IDENTIFIER.
pub open spec fn object_identifier_type() -> TypeId {
    TypeId { class: Class::Universal, is_constructed: false, tag: Tag::ObjectId }
}

impl<'a> Parser<'a> {
    #[verifier::type_invariant]
    spec fn inv(&self) -> bool {
        self.pos <= self.bytes@.len()
    }

    /// A parser at the start of `input`, descending into at most
    /// [`DEFAULT_MAX_DEPTH`] levels of constructed records.
    pub fn new(input: &'a [u8]) -> (p: Parser<'a>)
        ensures
            p@ == (ParserView { bytes: input@, pos: 0, max_depth: DEFAULT_MAX_DEPTH as nat }),
    {
        Parser { bytes: input, pos: 0, max_depth: DEFAULT_MAX_DEPTH }
    }

    /// A parser at the start of `input`, descending into at most
    /// `max_depth` levels of constructed records.
    pub fn with_max_depth(input: &'a [u8], max_depth: usize) -> (p: Parser<'a>)
        ensures
            p@ == (ParserView { bytes: input@, pos: 0, max_depth: max_depth as nat }),
    {
        Parser { bytes: input, pos: 0, max_depth }
    }

    /// How many octets of the input lie after the cursor.
    pub fn remainder(&self) -> (r: usize)
        ensures
            r == self@.bytes.len() - self@.pos,
    {
        proof {
            use_type_invariant(self);
        }
        self.bytes.len() - self.pos
    }

    /// Decodes the record at the cursor and moves past it. Returns `None`
    /// at the end of the input. On an error the cursor stays where it was.
    pub fn next(&mut self) -> (r: Result<Option<Node<'a>>, DecodeError>)
        ensures
            match r {
                Ok(None) => spec_next(old(self)@) == Ok::<Option<NodeModel>, DecodeError>(None),
                Ok(Some(node)) => spec_next(old(self)@) == Ok::<Option<NodeModel>, DecodeError>(
                    Some(node.model()),
                ),
                Err(e) => spec_next(old(self)@) == Err::<Option<NodeModel>, DecodeError>(e),
            },
            final(self)@ == spec_advance(old(self)@),
    {
        proof {
            use_type_invariant(&*self);
        }
        if self.pos == self.bytes.len() {
            return Ok(None);
        }
        match parse_node(self.bytes, self.pos, self.bytes.len(), self.max_depth) {
            Ok(node) => {
                proof {
                    lemma_header_bounds(self.bytes@, self.pos as int, self.bytes@.len() as int);
                }
                self.pos = node.end;
                Ok(Some(node))
            },
            Err(e) => Err(e),
        }
    }

    /// Decodes the record at the cursor as an object identifier, as
    /// [`Parser::next`] does, and gives its content octets. A record of any
    /// other type is an `UnknownType` error.
    pub fn next_token(&mut self) -> (r: Result<Token<'a>, DecodeError>)
        ensures
            match spec_next(old(self)@) {
                Ok(None) => r == Ok::<Token<'a>, DecodeError>(Token::NoMoreTokens),
                Ok(Some(m)) => if m.type_id == object_identifier_type() {
                    &&& r matches Ok(Token::ObjectIdentifier(b))
                    &&& r->Ok_0->ObjectIdentifier_0@ == old(self)@.bytes.subrange(m.start, m.end)
                } else {
                    r == Err::<Token<'a>, DecodeError>(DecodeError::UnknownType(m.type_id))
                },
                Err(e) => r == Err::<Token<'a>, DecodeError>(e),
            },
            final(self)@ == spec_advance(old(self)@),
    {
        match self.next() {
            Ok(None) => Ok(Token::NoMoreTokens),
            Ok(Some(node)) => {
                let t = node.type_id;
                if t.class == Class::Universal && !t.is_constructed && t.tag == Tag::ObjectId {
                    match node.value {
                        Value::Primitive(content) => Ok(Token::ObjectIdentifier(content)),
                        Value::Constructed(_) => Err(DecodeError::UnknownType(t)),
                    }
                } else {
                    Err(DecodeError::UnknownType(t))
                }
            },
            Err(e) => Err(e),
        }
    }
}

/// A buffer that holds exactly one record, identifier, length and content,
/// yields that record or an error, and after the record the end of the
/// input. Only constructed content can make it an error.
pub proof fn lemma_single_record(buf: Seq<u8>, max_depth: nat)
    requires
        spec_header(buf, 0, buf.len() as int) matches Ok((id, vs, n)) && vs + n == buf.len(),
    ensures
        ({
            let p = ParserView { bytes: buf, pos: 0, max_depth };
            &&& spec_next(p) != Ok::<Option<NodeModel>, DecodeError>(None)
            &&& spec_next(p) is Err ==> spec_header(buf, 0, buf.len() as int)->Ok_0.0.is_constructed
            &&& spec_next(p) is Ok ==> spec_next(spec_advance(p)) == Ok::<
                Option<NodeModel>,
                DecodeError,
            >(None)
        }),
{
    lemma_header_bounds(buf, 0, buf.len() as int);
}

/// A record whose declared length runs past the end of the input is
/// refused with a `BadLength` error that carries the declared length.
pub proof fn lemma_truncated_record(p: ParserView, t: usize, id: TypeId, l: usize, n: usize)
    requires
        0 <= p.pos < p.bytes.len(),
        spec_decode_tag(p.bytes.subrange(p.pos, p.bytes.len() as int)) == Ok::<
            (usize, TypeId),
            TagError,
        >((t, id)),
        spec_read_len(p.bytes.subrange(p.pos + t, p.bytes.len() as int)) == Ok::<
            (usize, Length),
            LengthError,
        >((l, Length::Definite(n))),
        p.pos + t + l + n > p.bytes.len(),
    ensures
        spec_next(p) == Err::<Option<NodeModel>, DecodeError>(DecodeError::BadLength(n)),
{
    let w = p.bytes.subrange(p.pos, p.bytes.len() as int);
    lemma_decode_tag_consumed(w);
    let rest = p.bytes.subrange(p.pos + t, p.bytes.len() as int);
    assert(w.subrange(t as int, w.len() as int) =~= rest);
}

} // verus!
