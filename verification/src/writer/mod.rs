//! Writer for restricted XML 1.0: an [`Encoder`] turns [`Item`]s or
//! [`ResolvedEvent`]s into bytes.
use vstd::prelude::*;
use vstd::utf8::*;

use crate::parser::namespaces::{
    opt_ns_view, rc_clone, rqname_view, AttrMap, AttrsView, RQNameView, ResolvedEvent, ResolvedEventView,
    ResolvedQName,
};
use crate::parser::{RcPtr, XMLVersion, XMLNS_XML, XMLNS_XMLNS};
use crate::strings::{join_qname, CData, CDataStr, NCNameStr, Name};

pub mod escape;
pub mod namespaces;

pub use namespaces::{
    NsKey, NsView, PrefixError, SimpleNamespaces, TrackNamespace, PREFIX_XML, PREFIX_XMLNS,
};

use escape::{escape, escape_spec, put_bytes};
use namespaces::{all_auto, auto_spec, lemma_all_auto_steps, lemma_auto_prefix_free, push_spec, pop_spec, with_auto_prefix_spec};

verus! {

broadcast use vstd::string::group_string_axioms;

/// An encodable item. Items borrow their strings, as the encoder copies them
/// anyway.
pub enum Item<'x> {
    /// XML declaration.
    XMLDeclaration(XMLVersion),
    /// Start of an element header: namespace URI (or none) and local name.
    ElementHeadStart(Option<RcPtr<CData>>, &'x NCNameStr),
    /// An attribute: namespace URI (or none), local name and value.
    Attribute(Option<RcPtr<CData>>, &'x NCNameStr, &'x CDataStr),
    /// End of an element header.
    ElementHeadEnd,
    /// A piece of text (in element content, not in attributes).
    Text(&'x CDataStr),
    /// Footer of an element.
    ElementFoot,
}

/// The characters of an [`Item`].
pub enum ItemView {
    XMLDeclaration(XMLVersion),
    ElementHeadStart(NsKey, Seq<char>),
    Attribute(NsKey, Seq<char>, Seq<char>),
    ElementHeadEnd,
    Text(Seq<char>),
    ElementFoot,
}

impl<'x> View for Item<'x> {
    type V = ItemView;

    open spec fn view(&self) -> ItemView {
        match self {
            Item::XMLDeclaration(v) => ItemView::XMLDeclaration(*v),
            Item::ElementHeadStart(u, l) => ItemView::ElementHeadStart(opt_ns_view(*u), l@),
            Item::Attribute(u, l, v) => ItemView::Attribute(opt_ns_view(*u), l@, v@),
            Item::ElementHeadEnd => ItemView::ElementHeadEnd,
            Item::Text(t) => ItemView::Text(t@),
            Item::ElementFoot => ItemView::ElementFoot,
        }
    }
}

/// Errors of the encoder: an item which is not allowed at its position.
#[derive(Debug, Clone, Copy, PartialEq, Eq, Structural)]
pub enum EncodeError {
    /// An XML declaration after the first element started, or a second one.
    MisplacedXMLDeclaration,
    /// Content after the end of the root element.
    EndOfDocument,
    /// Text inside an element header.
    TextNotAllowed,
    /// An attribute outside an element header.
    AttributeNotAllowed,
    /// An element start inside an element header.
    ElementStartNotAllowed,
    /// An element foot inside an element header or before the root element.
    ElementFootNotAllowed,
    /// Unbalanced element head start and end.
    NoOpenElement,
}

/// The description of an encoder error.
pub open spec fn encode_error_message(e: EncodeError) -> Seq<char> {
    match e {
        EncodeError::MisplacedXMLDeclaration => "misplaced XML declaration"@,
        EncodeError::ElementStartNotAllowed => "element start not allowed inside element headers"@,
        EncodeError::NoOpenElement => "no open element"@,
        EncodeError::EndOfDocument => "no content allowed after end of root element"@,
        EncodeError::TextNotAllowed => "text not allowed inside element headers"@,
        EncodeError::AttributeNotAllowed => "attributes not allowed outside element headers"@,
        EncodeError::ElementFootNotAllowed => "cannot close element while writing the header or before the root element"@,
    }
}

impl EncodeError {
    /// A description of the error.
    pub fn message(&self) -> (r: &'static str)
        ensures r@ == encode_error_message(*self),
    {
        match self {
            EncodeError::MisplacedXMLDeclaration => "misplaced XML declaration",
            EncodeError::ElementStartNotAllowed => "element start not allowed inside element headers",
            EncodeError::NoOpenElement => "no open element",
            EncodeError::EndOfDocument => "no content allowed after end of root element",
            EncodeError::TextNotAllowed => "text not allowed inside element headers",
            EncodeError::AttributeNotAllowed => "attributes not allowed outside element headers",
            EncodeError::ElementFootNotAllowed => "cannot close element while writing the header or before the root element",
        }
    }
}

/// The bytes of the XML declaration which the encoder writes.
pub open spec fn xml_decl_bytes() -> Seq<u8> {
    seq![0x3cu8, 0x3f, 0x78, 0x6d, 0x6c, 0x20, 0x76, 0x65, 0x72, 0x73, 0x69, 0x6f, 0x6e, 0x3d, 0x27,
        0x31, 0x2e, 0x30, 0x27, 0x20, 0x65, 0x6e, 0x63, 0x6f, 0x64, 0x69, 0x6e, 0x67, 0x3d, 0x27, 0x75,
        0x74, 0x66, 0x2d, 0x38, 0x27, 0x3f, 0x3e, 0x0a]
}

/// The bytes of a namespace declaration attribute.
pub open spec fn nsdecl_bytes(prefix: Option<Seq<char>>, uri: NsKey) -> Seq<u8> {
    let head = match prefix {
        Some(p) => seq![0x20u8, 0x78, 0x6d, 0x6c, 0x6e, 0x73, 0x3a] + encode_utf8(p) + seq![0x3du8, 0x27],
        None => seq![0x20u8, 0x78, 0x6d, 0x6c, 0x6e, 0x73, 0x3d, 0x27],
    };
    let value = match uri {
        Some(u) => escape_spec(encode_utf8(u), true),
        None => seq![],
    };
    head + value + seq![0x27u8]
}

#[derive(Debug, Clone, Copy, PartialEq, Eq, Structural)]
enum EncoderState {
    Start,
    Declared,
    ElementHead,
    Content,
    EndOfDocument,
}

/// The state of an encoder, as a spec value.
struct EncView {
    state: EncoderState,
    names: Seq<Seq<char>>,
    ns: NsView,
}

/// What encoding one or more items does, as a spec value.
struct EncStep {
    res: Result<(), EncodeError>,
    bytes: Seq<u8>,
    next: EncView,
}

spec fn step(res: Result<(), EncodeError>, bytes: Seq<u8>, state: EncoderState, names: Seq<Seq<char>>,
    ns: NsView) -> EncStep {
    EncStep { res, bytes, next: EncView { state, names, ns } }
}

spec fn reject(v: EncView, e: EncodeError) -> EncStep {
    EncStep { res: Err(e), bytes: seq![], next: v }
}

/// What encoding `item` in state `v` does.
spec fn enc_step(v: EncView, item: ItemView) -> EncStep {
    if v.state is EndOfDocument {
        reject(v, EncodeError::EndOfDocument)
    } else {
        match item {
            ItemView::XMLDeclaration(_) => if v.state is Start {
                step(Ok(()), xml_decl_bytes(), EncoderState::Declared, v.names, v.ns)
            } else {
                reject(v, EncodeError::MisplacedXMLDeclaration)
            },
            ItemView::ElementHeadStart(u, l) => if v.state is ElementHead {
                reject(v, EncodeError::ElementStartNotAllowed)
            } else {
                let a = auto_spec(v.ns, u);
                let (name_bytes, qname) = match a.2 {
                    Some(p) => (encode_utf8(p) + seq![0x3au8], join_qname(p, l)),
                    None => (encode_utf8(l), l),
                };
                let decl = if a.1 { nsdecl_bytes(a.2, u) } else { seq![] };
                step(Ok(()), seq![0x3cu8] + name_bytes + decl, EncoderState::ElementHead,
                    v.names.push(qname), a.0)
            },
            ItemView::Attribute(u, l, val) => if v.state is ElementHead {
                let value = seq![0x3du8, 0x22] + escape_spec(encode_utf8(val), true) + seq![0x22u8];
                match u {
                    Some(_) => {
                        let a = with_auto_prefix_spec(v.ns, u);
                        let decl = if a.1 { nsdecl_bytes(Some(a.2), u) } else { seq![] };
                        step(Ok(()), decl + seq![0x20u8] + encode_utf8(a.2) + seq![0x3au8]
                            + encode_utf8(l) + value, v.state, v.names, a.0)
                    },
                    None => step(Ok(()), seq![0x20u8] + encode_utf8(l) + value, v.state, v.names, v.ns),
                }
            } else {
                reject(v, EncodeError::AttributeNotAllowed)
            },
            ItemView::ElementHeadEnd => if v.state is ElementHead {
                step(Ok(()), seq![0x3eu8], EncoderState::Content, v.names, push_spec(v.ns))
            } else {
                reject(v, EncodeError::NoOpenElement)
            },
            ItemView::Text(t) => if v.state is Content {
                step(Ok(()), escape_spec(encode_utf8(t), false), v.state, v.names, v.ns)
            } else {
                reject(v, EncodeError::TextNotAllowed)
            },
            ItemView::ElementFoot => if v.state is Content {
                step(Ok(()), seq![0x3cu8, 0x2f] + encode_utf8(v.names.last()) + seq![0x3eu8],
                    if v.names.len() == 1 { EncoderState::EndOfDocument } else { EncoderState::Content },
                    v.names.drop_last(), pop_spec(v.ns))
            } else {
                reject(v, EncodeError::ElementFootNotAllowed)
            },
        }
    }
}

/// What encoding `items` one after the other in state `v` does: the first
/// error ends the encoding, and the bytes of the items before it stay
/// written.
spec fn enc_items(v: EncView, items: Seq<ItemView>) -> EncStep
    decreases items.len(),
{
    if items.len() == 0 {
        EncStep { res: Ok(()), bytes: seq![], next: v }
    } else {
        let s = enc_step(v, items[0]);
        if s.res is Err {
            s
        } else {
            let r = enc_items(s.next, items.drop_first());
            EncStep { res: r.res, bytes: s.bytes + r.bytes, next: r.next }
        }
    }
}

proof fn lemma_enc_items_append(v: EncView, a: Seq<ItemView>, b: Seq<ItemView>)
    ensures
        enc_items(v, a).res is Err ==> enc_items(v, a + b) == enc_items(v, a),
        enc_items(v, a).res is Ok ==> enc_items(v, a + b) == (EncStep {
            res: enc_items(enc_items(v, a).next, b).res,
            bytes: enc_items(v, a).bytes + enc_items(enc_items(v, a).next, b).bytes,
            next: enc_items(enc_items(v, a).next, b).next,
        }),
    decreases a.len(),
{
    if a.len() == 0 {
        assert(a + b =~= b);
        assert(enc_items(v, a).bytes + enc_items(v, b).bytes =~= enc_items(v, b).bytes);
    } else {
        assert((a + b)[0] == a[0]);
        assert((a + b).drop_first() =~= a.drop_first() + b);
        let s = enc_step(v, a[0]);
        if s.res is Ok {
            lemma_enc_items_append(s.next, a.drop_first(), b);
            let ra = enc_items(s.next, a.drop_first());
            if ra.res is Ok {
                let rb = enc_items(ra.next, b);
                assert(s.bytes + (ra.bytes + rb.bytes) =~= (s.bytes + ra.bytes) + rb.bytes);
            }
        }
    }
}

proof fn lemma_enc_items_single(v: EncView, x: ItemView)
    ensures
        enc_items(v, seq![x]).res == enc_step(v, x).res,
        enc_items(v, seq![x]).bytes == enc_step(v, x).bytes,
        enc_items(v, seq![x]).next == enc_step(v, x).next,
{
    let s = enc_step(v, x);
    assert(seq![x].drop_first() =~= Seq::<ItemView>::empty());
    assert(enc_items(s.next, Seq::<ItemView>::empty()).bytes == Seq::<u8>::empty());
    assert(s.bytes + Seq::<u8>::empty() =~= s.bytes);
}

/// The items of an element's start: the head start, each attribute in
/// order, the head end.
pub open spec fn start_items(name: RQNameView, attrs: AttrsView) -> Seq<ItemView> {
    seq![ItemView::ElementHeadStart(name.0, name.1)]
        + attrs.map_values(|a: (RQNameView, Seq<char>)| ItemView::Attribute(a.0.0, a.0.1, a.1))
        + seq![ItemView::ElementHeadEnd]
}

/// The items into which an event is decomposed for encoding.
pub open spec fn event_items(ev: ResolvedEventView) -> Seq<ItemView> {
    match ev {
        ResolvedEventView::XMLDeclaration(_, v) => seq![ItemView::XMLDeclaration(v)],
        ResolvedEventView::StartElement(_, name, attrs) => start_items(name, attrs),
        ResolvedEventView::EndElement(_) => seq![ItemView::ElementFoot],
        ResolvedEventView::Text(_, t) => seq![ItemView::Text(t)],
    }
}

/// Encodes XML into buffers.
///
/// Encoders are stateful: one encodes a single XML document.
#[derive(Debug)]
pub struct Encoder<T> {
    state: EncoderState,
    qname_stack: Vec<Name>,
    ns: T,
}

impl Encoder<SimpleNamespaces> {
    /// The state of the namespace tracker.
    pub closed spec fn tracker(&self) -> NsView {
        self.ns@
    }

    /// The names of the open elements, outermost first.
    pub closed spec fn open_names(&self) -> Seq<Seq<char>> {
        self.qname_stack@.map_values(|n: Name| n@)
    }

    /// Whether nothing has been encoded yet.
    pub closed spec fn at_start(&self) -> bool {
        self.state is Start
    }

    /// Whether the root element has been closed.
    pub closed spec fn done(&self) -> bool {
        self.state is EndOfDocument
    }

    /// Whether an element head has been started and not yet ended.
    pub closed spec fn head_open(&self) -> bool {
        self.state is ElementHead
    }

    /// The internal consistency of the encoder.
    pub closed spec fn wf(&self) -> bool {
        &&& self.ns.reserved_ok()
        &&& all_auto(self.ns@)
        &&& (self.state is ElementHead || self.state is Content) ==> self.qname_stack@.len() > 0
        &&& !(self.state is ElementHead) ==> self.ns@.next_default is None
    }

    /// The automatic prefixes which are left before the counter of the
    /// namespace tracker would overflow.
    pub closed spec fn prefix_room(&self) -> int {
        usize::MAX - self.ns@.temp_ctr
    }

    spec fn eview(&self) -> EncView {
        EncView { state: self.state, names: self.open_names(), ns: self.ns@ }
    }

    /// `new` is this encoder after encoding `item`, with result `res`, and
    /// `bytes` is what was written: on an error nothing is written and
    /// nothing changes; otherwise the bytes are the serialization of the
    /// item and the open elements and namespace declarations advance.
    pub closed spec fn encodes(&self, item: ItemView, new: Encoder<SimpleNamespaces>, bytes: Seq<u8>,
        res: Result<(), EncodeError>) -> bool {
        let s = enc_step(self.eview(), item);
        &&& res == s.res
        &&& bytes == s.bytes
        &&& new.eview() == s.next
    }

    /// `new` is this encoder after encoding `items` one after the other,
    /// with result `res`, and `bytes` is what was written: the first error
    /// ends the encoding and is the result, and the bytes of the items
    /// before it stay written.
    pub closed spec fn encodes_all(&self, items: Seq<ItemView>, new: Encoder<SimpleNamespaces>, bytes: Seq<u8>,
        res: Result<(), EncodeError>) -> bool {
        let s = enc_items(self.eview(), items);
        &&& res == s.res
        &&& bytes == s.bytes
        &&& new.eview() == s.next
    }

    /// The bytes which encoding `items` one after the other writes.
    pub closed spec fn encoded_items_bytes(&self, items: Seq<ItemView>) -> Seq<u8> {
        enc_items(self.eview(), items).bytes
    }

    /// Create a new encoder with the [`SimpleNamespaces`] tracker.
    pub fn new() -> (r: Self)
        ensures r.wf(), r.at_start(), r.open_names() == Seq::<Seq<char>>::empty(), !r.done(), r.prefix_room() == usize::MAX,
    {
        let r = Encoder { state: EncoderState::Start, qname_stack: Vec::new(), ns: SimpleNamespaces::new() };
        assert(r.open_names() =~= Seq::<Seq<char>>::empty());
        r
    }
}

/// Append a namespace declaration attribute.
fn encode_nsdecl(prefix: Option<&NCNameStr>, nsuri: Option<&CDataStr>, output: &mut Vec<u8>)
    ensures
        final(output)@ == old(output)@ + nsdecl_bytes(
            match prefix { Some(p) => Some(p@), None => None },
            match nsuri { Some(u) => Some(u@), None => None },
        ),
{
    match prefix {
        Some(p) => {
            put_bytes(output, &[0x20u8, 0x78, 0x6d, 0x6c, 0x6e, 0x73, 0x3a]);
            put_bytes(output, p.as_str().as_bytes());
            put_bytes(output, &[0x3du8, 0x27]);
        },
        None => {
            put_bytes(output, &[0x20u8, 0x78, 0x6d, 0x6c, 0x6e, 0x73, 0x3d, 0x27]);
        },
    }
    match nsuri {
        Some(u) => escape(output, u.as_str().as_bytes(), true),
        None => {},
    }
    output.push(0x27u8);
    assert(output@ =~= old(output)@ + nsdecl_bytes(
        match prefix { Some(p) => Some(p@), None => None },
        match nsuri { Some(u) => Some(u@), None => None },
    ));
}

impl Encoder<SimpleNamespaces> {
    /// The bytes which encoding `item` writes.
    pub closed spec fn encoded_bytes(&self, item: ItemView) -> Seq<u8> {
        enc_step(self.eview(), item).bytes
    }

    /// Whether encoding `item` succeeds, and the error otherwise.
    pub closed spec fn encode_result(&self, item: ItemView) -> Result<(), EncodeError> {
        enc_step(self.eview(), item).res
    }

    /// Encode a single item, appending its bytes to `output`.
    ///
    /// There is no requirement for the buffer to be the same for subsequent
    /// calls.
    pub fn encode(&mut self, item: Item<'_>, output: &mut Vec<u8>) -> (res: Result<(), EncodeError>)
        requires old(self).wf(), old(self).prefix_room() > 0,
        ensures
            final(self).wf(),
            final(output)@ == old(output)@ + old(self).encoded_bytes(item@),
            old(self).encodes(item@, *final(self), old(self).encoded_bytes(item@), res),
            final(self).prefix_room() >= old(self).prefix_room() - 1,
    {
        let ghost iv = item@;
        let ghost names = self.open_names();
        proof {
            lemma_all_auto_steps(self.ns@, match iv {
                ItemView::ElementHeadStart(u, _) => u,
                ItemView::Attribute(u, _, _) => u,
                _ => None,
            });
        }
        match self.state {
            EncoderState::EndOfDocument => return Err(EncodeError::EndOfDocument),
            _ => {},
        }
        match item {
            Item::XMLDeclaration(_) => match self.state {
                EncoderState::Start => {
                    put_bytes(output, &[0x3cu8, 0x3f, 0x78, 0x6d, 0x6c, 0x20, 0x76, 0x65, 0x72, 0x73, 0x69, 0x6f, 0x6e, 0x3d, 0x27,
                        0x31, 0x2e, 0x30, 0x27, 0x20, 0x65, 0x6e, 0x63, 0x6f, 0x64, 0x69, 0x6e, 0x67, 0x3d, 0x27, 0x75,
                        0x74, 0x66, 0x2d, 0x38, 0x27, 0x3f, 0x3e, 0x0a]);
                    self.state = EncoderState::Declared;
                    assert(output@ =~= old(output)@ + xml_decl_bytes());
                    Ok(())
                },
                _ => Err(EncodeError::MisplacedXMLDeclaration),
            },
            Item::ElementHeadStart(nsuri, local_name) => match self.state {
                EncoderState::ElementHead => Err(EncodeError::ElementStartNotAllowed),
                _ => {
                    output.push(0x3cu8);
                    let (new, prefix) = self.ns.declare_auto(match &nsuri {
                        Some(u) => Some(rc_clone(u)),
                        None => None,
                    });
                    let qname = match prefix {
                        Some(p) => {
                            put_bytes(output, p.as_str().as_bytes());
                            output.push(0x3au8);
                            p.with_suffix(local_name)
                        },
                        None => {
                            put_bytes(output, local_name.as_str().as_bytes());
                            local_name.to_name()
                        },
                    };
                    if new {
                        let u: Option<&CDataStr> = match &nsuri {
                            Some(u) => Some(&**u),
                            None => None,
                        };
                        encode_nsdecl(prefix, u, output);
                    }
                    let ghost qv = qname@;
                    self.qname_stack.push(qname);
                    assert(self.open_names() =~= names.push(qv));
                    self.state = EncoderState::ElementHead;
                    assert(output@ =~= old(output)@ + old(self).encoded_bytes(iv));
                    Ok(())
                },
            },
            Item::Attribute(nsuri, local_name, value) => match self.state {
                EncoderState::ElementHead => {
                    match nsuri {
                        Some(v) => {
                            proof { lemma_auto_prefix_free(self.ns@); }
                            let (new, prefix) = self.ns.declare_with_auto_prefix(Some(rc_clone(&v)));
                            if new {
                                encode_nsdecl(Some(prefix), Some(&*v), output);
                            }
                            output.push(0x20u8);
                            put_bytes(output, prefix.as_str().as_bytes());
                            output.push(0x3au8);
                            put_bytes(output, local_name.as_str().as_bytes());
                        },
                        None => {
                            output.push(0x20u8);
                            put_bytes(output, local_name.as_str().as_bytes());
                        },
                    }
                    output.push(0x3du8);
                    output.push(0x22u8);
                    escape(output, value.as_str().as_bytes(), true);
                    output.push(0x22u8);
                    assert(output@ =~= old(output)@ + old(self).encoded_bytes(iv));
                    Ok(())
                },
                _ => Err(EncodeError::AttributeNotAllowed),
            },
            Item::ElementHeadEnd => match self.state {
                EncoderState::ElementHead => {
                    output.push(0x3eu8);
                    self.ns.push();
                    self.state = EncoderState::Content;
                    assert(output@ =~= old(output)@ + seq![0x3eu8]);
                    Ok(())
                },
                _ => Err(EncodeError::NoOpenElement),
            },
            Item::Text(cdata) => match self.state {
                EncoderState::Content => {
                    escape(output, cdata.as_str().as_bytes(), false);
                    Ok(())
                },
                _ => Err(EncodeError::TextNotAllowed),
            },
            Item::ElementFoot => match self.state {
                EncoderState::Content => {
                    self.ns.pop();
                    put_bytes(output, &[0x3cu8, 0x2f]);
                    let name = match self.qname_stack.pop() {
                        Some(n) => n,
                        None => vstd::pervasive::unreached(),
                    };
                    assert(self.open_names() =~= names.drop_last());
                    put_bytes(output, name.as_str().as_bytes());
                    output.push(0x3eu8);
                    if self.qname_stack.len() == 0 {
                        self.state = EncoderState::EndOfDocument;
                    }
                    assert(output@ =~= old(output)@ + old(self).encoded_bytes(iv));
                    Ok(())
                },
                _ => Err(EncodeError::ElementFootNotAllowed),
            },
        }
    }
}

#[verifier::external_type_specification]
#[verifier::external_body]
pub struct ExBytesMut(bytes::BytesMut);

/// The bytes which a [`bytes::BytesMut`] holds.
pub uninterp spec fn bytes_mut_contents(b: bytes::BytesMut) -> Seq<u8>;

/// Appends `data` to the buffer ([`bytes::BytesMut::extend_from_slice`]);
/// as documented, the buffer then holds its previous contents followed by
/// `data`. Growing the buffer panics when its capacity would overflow,
/// which `requires` rules out.
#[verifier::external_body]
fn bytes_mut_extend(b: &mut bytes::BytesMut, data: &[u8])
    requires bytes_mut_contents(*old(b)).len() + data@.len() <= isize::MAX,
    ensures bytes_mut_contents(*final(b)) == bytes_mut_contents(*old(b)) + data@,
{
    b.extend_from_slice(data)
}

impl Encoder<SimpleNamespaces> {
    /// Encode a single item into a [`bytes::BytesMut`].
    pub fn encode_into_bytes(&mut self, item: Item<'_>, output: &mut bytes::BytesMut) -> (res: Result<(), EncodeError>)
        requires
            old(self).wf(),
            old(self).prefix_room() > 0,
            bytes_mut_contents(*old(output)).len() + old(self).encoded_bytes(item@).len() <= isize::MAX,
        ensures
            final(self).wf(),
            bytes_mut_contents(*final(output)) == bytes_mut_contents(*old(output)) + old(self).encoded_bytes(item@),
            old(self).encodes(item@, *final(self), old(self).encoded_bytes(item@), res),
            final(self).prefix_room() >= old(self).prefix_room() - 1,
    {
        let mut buf: Vec<u8> = Vec::new();
        let res = self.encode(item, &mut buf);
        assert(buf@ =~= old(self).encoded_bytes(item@));
        bytes_mut_extend(output, buf.as_slice());
        res
    }

    /// Encode the items of an element start: the head start, each
    /// attribute, the head end.
    fn encode_start(&mut self, ns: &Option<RcPtr<CData>>, name: &NCNameStr, attrs: &AttrMap, output: &mut Vec<u8>) -> (res: Result<(), EncodeError>)
        requires
            old(self).wf(),
            old(self).prefix_room() > attrs@.len() + 1,
        ensures
            final(self).wf(),
            final(output)@ == old(output)@ + old(self).encoded_items_bytes(start_items((opt_ns_view(*ns), name@), attrs@)),
            old(self).encodes_all(start_items((opt_ns_view(*ns), name@), attrs@), *final(self),
                old(self).encoded_items_bytes(start_items((opt_ns_view(*ns), name@), attrs@)), res),
    {
        let ghost start = output@;
        let ghost v0 = self.eview();
        let ghost items = start_items((opt_ns_view(*ns), name@), attrs@);
        let u = match ns {
            Some(u) => Some(rc_clone(u)),
            None => None,
        };
        let ghost e0 = *self;
        let r = self.encode(Item::ElementHeadStart(u, name), output);
        proof {
            lemma_enc_items_single(v0, items[0]);
            assert(items.take(1) =~= seq![items[0]]);
            lemma_enc_items_append(v0, items.take(1), items.skip(1));
            assert(items.take(1) + items.skip(1) =~= items);
        }
        match r {
            Ok(()) => {},
            Err(e) => {
                return Err(e);
            },
        }
        let entries = attrs.entries();
        let n = entries.len();
        assert(entries@.len() == attrs@.len());
        assert(items.len() == n + 2);
        let mut i: usize = 0;
        while i < n
            invariant
                self.wf(),
                n == entries@.len(),
                n == attrs@.len(),
                entries@.map_values(|e: (ResolvedQName, CData)| (rqname_view(e.0), e.1@)) == attrs@,
                items == start_items((opt_ns_view(*ns), name@), attrs@),
                items.len() == n + 2,
                i <= n,
                self.prefix_room() > n - i,
                start == old(output)@,
                v0 == old(self).eview(),
                enc_items(v0, items.take(i + 1)).res is Ok,
                self.eview() == enc_items(v0, items.take(i + 1)).next,
                output@ == start + enc_items(v0, items.take(i + 1)).bytes,
            decreases n - i,
        {
            let ghost before = output@;
            let ghost vi = self.eview();
            let ((ans, aname), value) = &entries[i];
            let au = match ans {
                Some(u) => Some(rc_clone(u)),
                None => None,
            };
            let item = Item::Attribute(au, aname, value);
            proof {
                assert(entries@.map_values(|e: (ResolvedQName, CData)| (rqname_view(e.0), e.1@))[i as int]
                    == attrs@[i as int]);
                assert(items[i + 1] == item@);
            }
            let r = self.encode(item, output);
            proof {
                lemma_enc_items_single(vi, items[i + 1]);
                assert(items.take(i + 2) =~= items.take(i + 1) + seq![items[i + 1]]);
                lemma_enc_items_append(v0, items.take(i + 1), seq![items[i + 1]]);
                assert(items.take(i + 2) + items.skip(i + 2) =~= items);
                lemma_enc_items_append(v0, items.take(i + 2), items.skip(i + 2));
                assert(output@ =~= start + enc_items(v0, items.take(i + 2)).bytes);
            }
            match r {
                Ok(()) => {},
                Err(e) => return Err(e),
            }
            i = i + 1;
        }
        let ghost vn = self.eview();
        let r = self.encode(Item::ElementHeadEnd, output);
        proof {
            lemma_enc_items_single(vn, items[n + 1]);
            assert(items =~= items.take(n + 1) + seq![items[n + 1]]);
            lemma_enc_items_append(v0, items.take(n + 1), seq![items[n + 1]]);
            assert(output@ =~= start + enc_items(v0, items).bytes);
        }
        r
    }

    /// Encode a single event: it is decomposed into items, which are
    /// encoded in turn; the first error ends the encoding.
    pub fn encode_event(&mut self, ev: &ResolvedEvent, output: &mut Vec<u8>) -> (res: Result<(), EncodeError>)
        requires
            old(self).wf(),
            old(self).prefix_room() > match ev@ {
                ResolvedEventView::StartElement(_, _, attrs) => attrs.len() + 1,
                _ => 1,
            },
        ensures
            final(self).wf(),
            final(output)@ == old(output)@ + old(self).encoded_items_bytes(event_items(ev@)),
            old(self).encodes_all(event_items(ev@), *final(self), old(self).encoded_items_bytes(event_items(ev@)), res),
    {
        let ghost v0 = self.eview();
        match ev {
            ResolvedEvent::StartElement(_, (ns, name), attrs) => self.encode_start(ns, name, attrs, output),
            ResolvedEvent::XMLDeclaration(_, version) => {
                proof { lemma_enc_items_single(v0, ItemView::XMLDeclaration(*version)); }
                self.encode(Item::XMLDeclaration(*version), output)
            },
            ResolvedEvent::EndElement(_) => {
                proof { lemma_enc_items_single(v0, ItemView::ElementFoot); }
                self.encode(Item::ElementFoot, output)
            },
            ResolvedEvent::Text(_, text) => {
                proof { lemma_enc_items_single(v0, ItemView::Text(text@)); }
                self.encode(Item::Text(text), output)
            },
        }
    }

    /// Encode a single event into a [`bytes::BytesMut`]: it is decomposed
    /// into items, which are encoded in turn; the first error ends the
    /// encoding.
    pub fn encode_event_into_bytes(&mut self, ev: &ResolvedEvent, output: &mut bytes::BytesMut) -> (res: Result<(), EncodeError>)
        requires
            old(self).wf(),
            old(self).prefix_room() > match ev@ {
                ResolvedEventView::StartElement(_, _, attrs) => attrs.len() + 1,
                _ => 1,
            },
            bytes_mut_contents(*old(output)).len() + old(self).encoded_items_bytes(event_items(ev@)).len() <= isize::MAX,
        ensures
            final(self).wf(),
            bytes_mut_contents(*final(output)) == bytes_mut_contents(*old(output))
                + old(self).encoded_items_bytes(event_items(ev@)),
            old(self).encodes_all(event_items(ev@), *final(self), old(self).encoded_items_bytes(event_items(ev@)), res),
    {
        let mut buf: Vec<u8> = Vec::new();
        let res = self.encode_event(ev, &mut buf);
        assert(buf@ =~= old(self).encoded_items_bytes(event_items(ev@)));
        bytes_mut_extend(output, buf.as_slice());
        res
    }
}

/// Once the root element has been closed, every further item is rejected
/// with [`EncodeError::EndOfDocument`], nothing is written and the encoder
/// stays as it is.
pub proof fn law_encoder_closed_after_root(e: Encoder<SimpleNamespaces>, item: ItemView, new: Encoder<SimpleNamespaces>, res: Result<(), EncodeError>)
    requires e.done(), e.encodes(item, new, e.encoded_bytes(item), res),
    ensures
        res == Err::<(), EncodeError>(EncodeError::EndOfDocument),
        e.encoded_bytes(item) == Seq::<u8>::empty(),
        new.done(),
        new.open_names() == e.open_names(),
        new.tracker() == e.tracker(),
{
}

/// An encoder at the start accepts the XML declaration and writes it.
pub proof fn law_declaration_accepted_at_start(e: Encoder<SimpleNamespaces>, v: XMLVersion, new: Encoder<SimpleNamespaces>,
    bytes: Seq<u8>, res: Result<(), EncodeError>)
    requires e.at_start(), e.encodes(ItemView::XMLDeclaration(v), new, bytes, res),
    ensures
        res == Ok::<(), EncodeError>(()),
        bytes == xml_decl_bytes(),
        !new.at_start(),
        !new.done(),
        new.open_names() == e.open_names(),
{
}

/// Closing the element which is the only one open, that is the root,
/// ends the document.
pub proof fn law_closing_root_ends_document(e: Encoder<SimpleNamespaces>, new: Encoder<SimpleNamespaces>,
    bytes: Seq<u8>)
    requires e.open_names().len() == 1, e.encodes(ItemView::ElementFoot, new, bytes, Ok(())),
    ensures new.done(), new.open_names() == Seq::<Seq<char>>::empty(),
{
}

/// An item which the encoder rejects writes nothing and leaves the open
/// elements, the namespace declarations and the end of the document as
/// they were.
pub proof fn law_encoder_error_writes_nothing(e: Encoder<SimpleNamespaces>, item: ItemView, new: Encoder<SimpleNamespaces>,
    bytes: Seq<u8>, res: Result<(), EncodeError>)
    requires e.encodes(item, new, bytes, res), res is Err,
    ensures
        bytes == Seq::<u8>::empty(),
        new.open_names() == e.open_names(),
        new.tracker() == e.tracker(),
        new.done() == e.done(),
        new.encode_result(item) == res,
{
}

/// An XML declaration is accepted only as the first item: after any other
/// item has been encoded successfully, it is rejected.
pub proof fn law_xml_declaration_only_first(e: Encoder<SimpleNamespaces>, item: ItemView, new: Encoder<SimpleNamespaces>, v: XMLVersion)
    requires e.encodes(item, new, e.encoded_bytes(item), Ok(())),
    ensures new.encode_result(ItemView::XMLDeclaration(v)) is Err,
{
}

/// An element started where no element head is open writes `<` and its
/// local name, followed by a default namespace declaration for its
/// namespace `u` (`xmlns=''` for no namespace) exactly when `u` differs
/// from the default namespace in scope, that of the enclosing element (none
/// at the root); so an element in no namespace inside an element with a
/// default namespace is declared to be in no namespace. Once the head ends,
/// `u` is the default namespace in scope.
pub proof fn law_element_namespace_declared_when_it_changes(e: Encoder<SimpleNamespaces>, u: NsKey, l: Seq<char>,
    new: Encoder<SimpleNamespaces>, bytes: Seq<u8>, res: Result<(), EncodeError>)
    requires
        e.wf(),
        !e.done(),
        !e.head_open(),
        u != Some(XMLNS_XML@),
        u != Some(XMLNS_XMLNS@),
        e.encodes(ItemView::ElementHeadStart(u, l), new, bytes, res),
    ensures
        res == Ok::<(), EncodeError>(()),
        bytes == seq![0x3cu8] + encode_utf8(l) + (if u != (if e.tracker().default_stack.len() > 0 {
            e.tracker().default_stack.last() } else { None }) { nsdecl_bytes(None, u) } else { Seq::<u8>::empty() }),
        new.head_open(),
        push_spec(new.tracker()).default_stack.last() == u,
{
    assert(seq![0x3cu8] + encode_utf8(l) + Seq::<u8>::empty() =~= seq![0x3cu8] + encode_utf8(l));
}

} // verus!
