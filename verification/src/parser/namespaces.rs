//! Namespace resolution: combines and converts [`RawEvent`]s into
//! [`ResolvedEvent`]s, as described in Namespaces in XML 1.0.
use std::rc::Rc;

use vstd::prelude::*;
use vstd::string::*;

use crate::error::{
    xml_error_with_context, Error, Result, XmlError, ERRCTX_ATTNAME, ERRCTX_NAME, ERRCTX_UNKNOWN,
};
use crate::strings::{CData, NCName};

use super::common::{EventMetrics, XMLVersion, XMLNS_XML};
use super::raw::{clone_qname, qname_view, QNameView, RawEvent, RawEventView, RawQName};

verus! {

/// Reference-counted pointer around namespace URIs.
pub type RcPtr<T> = Rc<T>;

/// Shared namespace URI.
pub type NamespaceName = RcPtr<CData>;

/// Pair of an optional namespace name (URI) and a localpart, commonly used
/// in element and attribute names.
pub type ResolvedQName = (Option<NamespaceName>, NCName);

/// The characters of a [`ResolvedQName`].
pub type RQNameView = (Option<Seq<char>>, Seq<char>);

/// The characters of the parts of a resolved name.
pub open spec fn rqname_view(q: ResolvedQName) -> RQNameView {
    (match q.0 {
        Some(u) => Some(u@),
        None => None,
    }, q.1@)
}

/// Shares a namespace URI ([`Rc::clone`]); the clone points to the same
/// value, which is all the contract claims.
#[verifier::external_body]
pub(crate) fn rc_clone(u: &NamespaceName) -> (r: NamespaceName)
    ensures r == *u,
{
    Rc::clone(u)
}

/// Copy a resolved name.
pub fn clone_rqname(q: &ResolvedQName) -> (r: ResolvedQName)
    ensures rqname_view(r) == rqname_view(*q),
{
    let u = match &q.0 {
        Some(u) => Some(rc_clone(u)),
        None => None,
    };
    (u, q.1.clone())
}

/// Whether two resolved names have the same characters.
pub fn rqname_eq(a: &ResolvedQName, b: &ResolvedQName) -> (r: bool)
    ensures r == (rqname_view(*a) == rqname_view(*b)),
{
    let same_ns = match (&a.0, &b.0) {
        (Some(x), Some(y)) => {
            let xs: &CData = &**x;
            let ys: &CData = &**y;
            *xs == *ys
        },
        (None, None) => true,
        _ => false,
    };
    same_ns && a.1 == b.1
}

/// The attributes of an element: resolved names with their values, in
/// document order, each name at most once.
#[derive(Debug, PartialEq, Eq)]
pub struct AttrMap {
    entries: Vec<(ResolvedQName, CData)>,
}

/// The characters of the attributes, in document order.
pub type AttrsView = Seq<(RQNameView, Seq<char>)>;

/// No two entries have the same name.
pub open spec fn unique_keys(s: AttrsView) -> bool {
    forall|i: int, j: int| 0 <= i < j < s.len() ==> #[trigger] s[i].0 != #[trigger] s[j].0
}

/// Whether an entry with name `k` exists.
pub open spec fn has_key(s: AttrsView, k: RQNameView) -> bool {
    exists|i: int| 0 <= i < s.len() && #[trigger] s[i].0 == k
}

impl View for AttrMap {
    type V = AttrsView;

    closed spec fn view(&self) -> AttrsView {
        self.entries@.map_values(|e: (ResolvedQName, CData)| (rqname_view(e.0), e.1@))
    }
}

impl AttrMap {
    #[verifier::type_invariant]
    closed spec fn keys_unique(&self) -> bool {
        unique_keys(self@)
    }

    fn empty() -> (r: AttrMap)
        ensures r@ == AttrsView::empty(),
    {
        let r = AttrMap { entries: Vec::new() };
        assert(r@ =~= AttrsView::empty());
        r
    }

    /// The number of attributes.
    pub fn len(&self) -> (r: usize)
        ensures r == self@.len(),
    {
        self.entries.len()
    }

    /// Whether there are no attributes.
    pub fn is_empty(&self) -> (r: bool)
        ensures r == (self@.len() == 0),
    {
        self.entries.len() == 0
    }

    /// The position of the attribute named `key`, if any.
    fn position(&self, key: &ResolvedQName) -> (r: Option<usize>)
        ensures
            match r {
                Some(i) => i < self@.len() && self@[i as int].0 == rqname_view(*key),
                None => !has_key(self@, rqname_view(*key)),
            },
    {
        let mut i: usize = 0;
        while i < self.entries.len()
            invariant
                i <= self.entries.len(),
                forall|j: int| 0 <= j < i ==> #[trigger] self@[j].0 != rqname_view(*key),
            decreases self.entries.len() - i,
        {
            if rqname_eq(&self.entries[i].0, key) {
                return Some(i);
            }
            i = i + 1;
        }
        None
    }

    /// Whether an attribute named `key` exists.
    pub fn contains_key(&self, key: &ResolvedQName) -> (r: bool)
        ensures r == has_key(self@, rqname_view(*key)),
    {
        self.position(key).is_some()
    }

    /// The value of the attribute named `key`, if any.
    pub fn get(&self, key: &ResolvedQName) -> (r: Option<&CData>)
        ensures
            match r {
                Some(v) => exists|i: int| 0 <= i < self@.len() && #[trigger] self@[i] == (rqname_view(*key), v@),
                None => !has_key(self@, rqname_view(*key)),
            },
    {
        match self.position(key) {
            Some(i) => {
                assert(self@[i as int] == (rqname_view(*key), self.entries@[i as int].1@));
                Some(&self.entries[i].1)
            },
            None => None,
        }
    }

    /// The attributes, in document order.
    pub fn entries(&self) -> (r: &[(ResolvedQName, CData)])
        ensures
            r@.map_values(|e: (ResolvedQName, CData)| (rqname_view(e.0), e.1@)) == self@,
            unique_keys(self@),
    {
        proof { use_type_invariant(self); }
        self.entries.as_slice()
    }

    /// Add an attribute whose name is not present yet.
    fn insert_new(&mut self, key: ResolvedQName, value: CData)
        requires !has_key(old(self)@, rqname_view(key)),
        ensures final(self)@ == old(self)@.push((rqname_view(key), value@)),
    {
        proof { use_type_invariant(&*self); }
        let ghost kv = (rqname_view(key), value@);
        let mut entries: Vec<(ResolvedQName, CData)> = Vec::new();
        std::mem::swap(&mut entries, &mut self.entries);
        proof {
            assert(entries@.map_values(|e: (ResolvedQName, CData)| (rqname_view(e.0), e.1@)) == old(self)@);
        }
        entries.push((key, value));
        assert(entries@.map_values(|e: (ResolvedQName, CData)| (rqname_view(e.0), e.1@)) =~= old(self)@.push(kv));
        self.entries = entries;
    }
}

/// High-level, logical XML document parts, with namespaces resolved.
///
/// Observing these from a [`NamespaceResolver`] fed by a raw parser
/// guarantees that the document has been well-formed and
/// namespace-well-formed up to this point.
#[derive(PartialEq, Eq, Debug)]
pub enum ResolvedEvent {
    /// The XML declaration.
    XMLDeclaration(EventMetrics, XMLVersion),
    /// The start of an XML element: its name and its attributes, without
    /// the namespace declarations.
    StartElement(EventMetrics, ResolvedQName, AttrMap),
    /// The end of an XML element.
    EndElement(EventMetrics),
    /// Text content.
    Text(EventMetrics, CData),
}

/// Spec-level view of a [`ResolvedEvent`].
pub enum ResolvedEventView {
    XMLDeclaration(usize, XMLVersion),
    StartElement(usize, RQNameView, AttrsView),
    EndElement(usize),
    Text(usize, Seq<char>),
}

impl View for ResolvedEvent {
    type V = ResolvedEventView;

    open spec fn view(&self) -> ResolvedEventView {
        match self {
            ResolvedEvent::XMLDeclaration(m, v) => ResolvedEventView::XMLDeclaration(m.spec_len(), *v),
            ResolvedEvent::StartElement(m, q, a) => ResolvedEventView::StartElement(m.spec_len(), rqname_view(*q), a@),
            ResolvedEvent::EndElement(m) => ResolvedEventView::EndElement(m.spec_len()),
            ResolvedEvent::Text(m, t) => ResolvedEventView::Text(m.spec_len(), t@),
        }
    }
}

/// The metrics of a resolved event.
pub open spec fn resolved_event_metrics(ev: ResolvedEvent) -> EventMetrics {
    match ev {
        ResolvedEvent::XMLDeclaration(m, ..) => m,
        ResolvedEvent::StartElement(m, ..) => m,
        ResolvedEvent::EndElement(m) => m,
        ResolvedEvent::Text(m, ..) => m,
    }
}

impl ResolvedEvent {
    /// Return the [`EventMetrics`] of the event.
    pub fn metrics(&self) -> (r: &EventMetrics)
        ensures *r == resolved_event_metrics(*self),
    {
        match self {
            ResolvedEvent::XMLDeclaration(m, ..) => m,
            ResolvedEvent::StartElement(m, ..) => m,
            ResolvedEvent::EndElement(m) => m,
            ResolvedEvent::Text(m, ..) => m,
        }
    }
}

/// The namespace declarations of one element: its default namespace
/// declaration, if any, and its prefix declarations.
pub type NsFrame = (Option<Seq<char>>, Seq<(Seq<char>, Seq<char>)>);

/// The default namespace in scope on top of `stack`: that of the innermost
/// element which declares one, unless it is declared empty.
pub open spec fn default_ns(stack: Seq<NsFrame>) -> Option<Seq<char>>
    decreases stack.len(),
{
    if stack.len() == 0 {
        None
    } else {
        match stack.last().0 {
            Some(u) => if u.len() > 0 { Some(u) } else { None },
            None => default_ns(stack.drop_last()),
        }
    }
}

/// The URI which `decls` bind to the prefix `p`.
pub open spec fn decl_lookup(decls: Seq<(Seq<char>, Seq<char>)>, p: Seq<char>) -> Option<Seq<char>>
    decreases decls.len(),
{
    if decls.len() == 0 {
        None
    } else if decls.last().0 == p {
        Some(decls.last().1)
    } else {
        decl_lookup(decls.drop_last(), p)
    }
}

/// The URI bound to the prefix `p` by the innermost element declaring it.
pub open spec fn prefix_ns(stack: Seq<NsFrame>, p: Seq<char>) -> Option<Seq<char>>
    decreases stack.len(),
{
    if stack.len() == 0 {
        None
    } else {
        match decl_lookup(stack.last().1, p) {
            Some(u) => Some(u),
            None => prefix_ns(stack.drop_last(), p),
        }
    }
}

/// The namespace URI of an optional prefix: the default namespace for no
/// prefix, the fixed URI for `xml`, else the innermost declaration; an
/// undeclared prefix is an error.
pub open spec fn lookup_spec(stack: Seq<NsFrame>, prefix: Option<Seq<char>>) -> Result<Option<Seq<char>>> {
    match prefix {
        None => Ok(default_ns(stack)),
        Some(p) => if p == "xml"@ {
            Ok(Some(XMLNS_XML@))
        } else {
            match prefix_ns(stack, p) {
                Some(u) => Ok(Some(u)),
                None => Err(Error::NotNamespaceWellFormed(XmlError::UndeclaredNamespacePrefix(ERRCTX_UNKNOWN))),
            }
        },
    }
}

/// The result `r` with the context of its error replaced by `ctx`.
pub open spec fn in_context<T>(r: Result<T>, ctx: &'static str) -> Result<T> {
    match r {
        Ok(v) => Ok(v),
        Err(Error::NotNamespaceWellFormed(e)) => Err(Error::NotNamespaceWellFormed(xml_error_with_context(e, ctx))),
        Err(e) => Err(e),
    }
}

/// The attributes `attrs` of an element with their prefixes resolved in
/// `stack`, in document order; an undeclared prefix or two attributes with
/// the same resolved name are errors.
pub open spec fn resolve_attrs(stack: Seq<NsFrame>, attrs: Seq<(QNameView, Seq<char>)>) -> Result<AttrsView>
    decreases attrs.len(),
{
    if attrs.len() == 0 {
        Ok(AttrsView::empty())
    } else {
        match resolve_attrs(stack, attrs.drop_last()) {
            Err(e) => Err(e),
            Ok(done) => {
                let q = attrs.last().0;
                let ns = match q.0 {
                    Some(p) => in_context(lookup_spec(stack, Some(p)), ERRCTX_ATTNAME),
                    None => Ok(None),
                };
                match ns {
                    Err(e) => Err(e),
                    Ok(u) => if has_key(done, (u, q.1)) {
                        Err(Error::NotWellFormed(XmlError::DuplicateAttribute))
                    } else {
                        Ok(done.push(((u, q.1), attrs.last().1)))
                    },
                }
            },
        }
    }
}

#[derive(Debug, Clone, Copy, PartialEq, Eq, Structural)]
enum NsState {
    Initial,
    Element,
}

#[derive(Debug)]
struct ElementScratchpad {
    phyqname: RawQName,
    attributes: Vec<(RawQName, CData)>,
    default_decl: Option<NamespaceName>,
    nsdecl: Vec<(NCName, NamespaceName)>,
}

/// The characters of an element header being collected: its name, its
/// attributes, its default namespace declaration and its prefix
/// declarations.
pub type ScratchView = (QNameView, Seq<(QNameView, Seq<char>)>, Option<Seq<char>>, Seq<(Seq<char>, Seq<char>)>);

/// The characters of prefix declarations.
pub open spec fn decls_view(d: Seq<(NCName, NamespaceName)>) -> Seq<(Seq<char>, Seq<char>)> {
    d.map_values(|e: (NCName, NamespaceName)| (e.0@, e.1@))
}

/// The characters of an optional URI.
pub open spec fn opt_ns_view(u: Option<NamespaceName>) -> Option<Seq<char>> {
    match u {
        Some(u) => Some(u@),
        None => None,
    }
}

/// The characters of the namespace declarations of one element.
pub open spec fn frame_view(f: (Option<NamespaceName>, Vec<(NCName, NamespaceName)>)) -> NsFrame {
    (opt_ns_view(f.0), decls_view(f.1@))
}

/// The characters of raw attributes.
pub open spec fn raw_attrs_view(a: Seq<(RawQName, CData)>) -> Seq<(QNameView, Seq<char>)> {
    a.map_values(|e: (RawQName, CData)| (qname_view(e.0), e.1@))
}

/// What one raw event does to the resolver, as a spec value.
struct NsStep {
    err: Option<Error>,
    state: NsState,
    stack: Seq<NsFrame>,
    scratch: Option<ScratchView>,
    accum: usize,
    out: Option<ResolvedEventView>,
}

/// The length of a raw event.
pub open spec fn raw_event_len(ev: RawEventView) -> usize {
    match ev {
        RawEventView::XMLDeclaration(l, _) => l,
        RawEventView::ElementHeadOpen(l, _) => l,
        RawEventView::Attribute(l, ..) => l,
        RawEventView::ElementHeadClose(l) => l,
        RawEventView::ElementFoot(l) => l,
        RawEventView::Text(l, _) => l,
    }
}

/// Namespace and attribute resolver.
///
/// It converts prefixes into namespace names (URIs) as described in
/// Namespaces in XML 1.0, taking [`RawEvent`]s and combining them into
/// [`ResolvedEvent`]s. It does not check that the raw events form a
/// well-formed document; an event which cannot occur at its position in
/// any output of the raw parser is reported as an error.
#[derive(Debug)]
pub struct NamespaceResolver {
    fixed_xml_namespace: NamespaceName,
    namespace_stack: Vec<(Option<NamespaceName>, Vec<(NCName, NamespaceName)>)>,
    scratchpad: Option<ElementScratchpad>,
    event_length_accum: usize,
    state: NsState,
    poison: Option<Error>,
}

/// The resolver does not take more than this many raw events in one call
/// of [`NamespaceResolver::next`] without emitting an event; a source which
/// delivers more of them gets an error.
pub const MAX_RAW_EVENTS_PER_EVENT: u64 = 0xffff_ffff_ffff_ffff;

impl NamespaceResolver {
    /// The error which poisons the resolver, if any.
    pub closed spec fn poisoned(&self) -> Option<Error> {
        self.poison
    }

    /// This resolver without its error.
    pub closed spec fn unpoisoned(&self) -> NamespaceResolver {
        NamespaceResolver { poison: None, ..*self }
    }

    /// The namespace declarations of the open elements, outermost first.
    pub closed spec fn ns_stack(&self) -> Seq<NsFrame> {
        self.namespace_stack@.map_values(|f: (Option<NamespaceName>, Vec<(NCName, NamespaceName)>)| frame_view(f))
    }

    /// The length of the raw events which were taken since the last
    /// resolved event was emitted.
    pub closed spec fn pending_len(&self) -> usize {
        self.event_length_accum
    }

    /// Whether the resolver is between elements: it collects no element
    /// header.
    pub closed spec fn between_elements(&self) -> bool {
        self.state is Initial
    }

    /// The element header being collected, if any.
    pub closed spec fn scratch(&self) -> Option<ScratchView> {
        match self.scratchpad {
            Some(sp) => Some((qname_view(sp.phyqname), raw_attrs_view(sp.attributes@),
                opt_ns_view(sp.default_decl), decls_view(sp.nsdecl@))),
            None => None,
        }
    }

    /// The internal consistency of the resolver.
    pub closed spec fn wf(&self) -> bool {
        &&& self.fixed_xml_namespace@ == XMLNS_XML@
        &&& self.poison is None ==> (self.state is Element <==> self.scratchpad is Some)
    }

    /// What the raw event `ev` does to the resolver.
    closed spec fn event_spec(&self, ev: RawEventView) -> NsStep {
        let fail = |e: Error| NsStep { err: Some(e), state: self.state, stack: self.ns_stack(),
            scratch: self.scratch(), accum: self.event_length_accum, out: None };
        let order = Error::RestrictedXml("raw event out of order");
        if self.event_length_accum + raw_event_len(ev) > usize::MAX {
            fail(Error::RestrictedXml("event too long"))
        } else {
            let acc = (self.event_length_accum + raw_event_len(ev)) as usize;
            match ev {
                RawEventView::ElementHeadOpen(_, q) => if self.state is Initial {
                    NsStep { err: None, state: NsState::Element, stack: self.ns_stack(),
                        scratch: Some((q, seq![], None, seq![])), accum: acc, out: None }
                } else {
                    fail(order)
                },
                RawEventView::Attribute(_, q, v) => match self.scratch() {
                    None => fail(order),
                    Some(sp) => if q.0 == Some("xmlns"@) {
                        if decl_lookup(sp.3, q.1) is Some {
                            fail(Error::NotWellFormed(XmlError::DuplicateAttribute))
                        } else {
                            NsStep { err: None, state: self.state, stack: self.ns_stack(),
                                scratch: Some((sp.0, sp.1, sp.2, sp.3.push((q.1, v)))), accum: acc, out: None }
                        }
                    } else if q.0 is None && q.1 == "xmlns"@ {
                        NsStep { err: None, state: self.state, stack: self.ns_stack(),
                            scratch: Some((sp.0, sp.1, Some(v), sp.3)), accum: acc, out: None }
                    } else {
                        NsStep { err: None, state: self.state, stack: self.ns_stack(),
                            scratch: Some((sp.0, sp.1.push((q, v)), sp.2, sp.3)), accum: acc, out: None }
                    },
                },
                RawEventView::ElementHeadClose(_) => match self.scratch() {
                    None => fail(order),
                    Some(sp) => {
                        let stack = self.ns_stack().push((sp.2, sp.3));
                        match resolve_attrs(stack, sp.1) {
                            Err(e) => fail(e),
                            Ok(attrs) => match in_context(lookup_spec(stack, sp.0.0), ERRCTX_NAME) {
                                Err(e) => fail(e),
                                Ok(u) => NsStep { err: None, state: NsState::Initial, stack, scratch: None,
                                    accum: 0, out: Some(ResolvedEventView::StartElement(acc, (u, sp.0.1), attrs)) },
                            },
                        }
                    },
                },
                RawEventView::ElementFoot(l) => NsStep { err: None, state: self.state,
                    stack: if self.ns_stack().len() > 0 { self.ns_stack().drop_last() } else { self.ns_stack() },
                    scratch: self.scratch(), accum: acc, out: Some(ResolvedEventView::EndElement(l)) },
                RawEventView::XMLDeclaration(l, v) => NsStep { err: None, state: self.state, stack: self.ns_stack(),
                    scratch: self.scratch(), accum: 0, out: Some(ResolvedEventView::XMLDeclaration(l, v)) },
                RawEventView::Text(l, t) => NsStep { err: None, state: self.state, stack: self.ns_stack(),
                    scratch: self.scratch(), accum: 0, out: Some(ResolvedEventView::Text(l, t)) },
            }
        }
    }

    /// `new` is this resolver after it has taken the raw event `ev`, with
    /// result `res`: on an error it is poisoned with it; otherwise the open
    /// elements, the header being collected and the emitted event are as
    /// Namespaces in XML 1.0 demands.
    pub closed spec fn takes(&self, ev: RawEventView, new: NamespaceResolver, res: Result<Option<ResolvedEvent>>) -> bool {
        let s = self.event_spec(ev);
        match s.err {
            Some(e) => res == Err::<Option<ResolvedEvent>, Error>(e) && new.poison == Some(e),
            None => {
                &&& new.poison is None
                &&& new.state == s.state
                &&& new.ns_stack() =~= s.stack
                &&& new.scratch() == s.scratch
                &&& new.event_length_accum == s.accum
                &&& match (res, s.out) {
                    (Ok(Some(r)), Some(o)) => r@ == o,
                    (Ok(None), None) => true,
                    _ => false,
                }
            },
        }
    }
}

proof fn lemma_resolve_err_prefix(stack: Seq<NsFrame>, s: Seq<(QNameView, Seq<char>)>, k: int)
    requires
        0 <= k <= s.len(),
        resolve_attrs(stack, s.take(k)) is Err,
    ensures resolve_attrs(stack, s) == resolve_attrs(stack, s.take(k)),
    decreases s.len() - k,
{
    if k == s.len() {
        assert(s.take(k) =~= s);
    } else {
        assert(s.drop_last().take(k) =~= s.take(k));
        lemma_resolve_err_prefix(stack, s.drop_last(), k);
    }
}

proof fn lemma_resolve_attrs_not_io(stack: Seq<NsFrame>, attrs: Seq<(QNameView, Seq<char>)>)
    ensures resolve_attrs(stack, attrs) matches Err(e) ==> !(e is IO),
    decreases attrs.len(),
{
    if attrs.len() > 0 {
        lemma_resolve_attrs_not_io(stack, attrs.drop_last());
    }
}

proof fn lemma_take_last<A>(s: Seq<A>, i: int)
    requires 0 <= i < s.len(),
    ensures
        s.take(i + 1).drop_last() =~= s.take(i),
        s.take(i + 1).last() == s[i],
        s.take(i + 1).len() == i + 1,
{
}

fn xml_namespace() -> (r: NamespaceName)
    ensures r@ == XMLNS_XML@,
{
    proof {
        reveal_strlit("http://www.w3.org/XML/1998/namespace");
    }
    assert(crate::validation::is_valid_cdata(XMLNS_XML@));
    match CData::from_str(XMLNS_XML) {
        Ok(c) => Rc::new(c),
        Err(_) => vstd::pervasive::unreached(),
    }
}

impl NamespaceResolver {
    /// Create a new namespace resolver.
    pub fn new() -> (r: Self)
        ensures
            r.wf(),
            r.poisoned() is None,
            r.ns_stack() == Seq::<NsFrame>::empty(),
            r.scratch() is None,
            r.pending_len() == 0,
            r.between_elements(),
    {
        let r = NamespaceResolver {
            fixed_xml_namespace: xml_namespace(),
            namespace_stack: Vec::new(),
            scratchpad: None,
            event_length_accum: 0,
            state: NsState::Initial,
            poison: None,
        };
        assert(r.ns_stack() =~= Seq::<NsFrame>::empty());
        r
    }

    /// The innermost default namespace declaration in scope.
    fn lookup_default(&self) -> (r: Option<NamespaceName>)
        ensures opt_ns_view(r) == default_ns(self.ns_stack()),
    {
        let ghost st = self.ns_stack();
        let mut i = self.namespace_stack.len();
        assert(st.take(i as int) =~= st);
        while i > 0
            invariant
                i <= self.namespace_stack.len(),
                st == self.ns_stack(),
                default_ns(st) == default_ns(st.take(i as int)),
            decreases i,
        {
            i = i - 1;
            proof {
                lemma_take_last(st, i as int);
                assert(st[i as int] == frame_view(self.namespace_stack@[i as int]));
            }
            match &self.namespace_stack[i].0 {
                Some(u) => {
                    let uc: &CData = &**u;
                    if uc.as_str().unicode_len() > 0 {
                        return Some(rc_clone(u));
                    } else {
                        return None;
                    }
                },
                None => {},
            }
        }
        None
    }

    /// The URI which the innermost declaration binds to `prefix`.
    fn lookup_declared(&self, prefix: &NCName) -> (r: Option<NamespaceName>)
        ensures opt_ns_view(r) == prefix_ns(self.ns_stack(), prefix@),
    {
        let ghost st = self.ns_stack();
        let mut i = self.namespace_stack.len();
        assert(st.take(i as int) =~= st);
        while i > 0
            invariant
                i <= self.namespace_stack.len(),
                st == self.ns_stack(),
                prefix_ns(st, prefix@) == prefix_ns(st.take(i as int), prefix@),
            decreases i,
        {
            i = i - 1;
            proof {
                lemma_take_last(st, i as int);
                assert(st[i as int] == frame_view(self.namespace_stack@[i as int]));
            }
            let decls = &self.namespace_stack[i].1;
            let ghost dv = decls_view(decls@);
            let mut j = decls.len();
            assert(dv.take(j as int) =~= dv);
            while j > 0
                invariant
                    j <= decls.len(),
                    i < self.namespace_stack.len(),
                    st == self.ns_stack(),
                    *decls == self.namespace_stack@[i as int].1,
                    dv == decls_view(decls@),
                    st.take(i + 1).last().1 == dv,
                    st.take(i + 1).drop_last() == st.take(i as int),
                    st.take(i + 1).len() == i + 1,
                    prefix_ns(st, prefix@) == prefix_ns(st.take(i + 1), prefix@),
                    decl_lookup(dv, prefix@) == decl_lookup(dv.take(j as int), prefix@),
                decreases j,
            {
                j = j - 1;
                proof {
                    lemma_take_last(dv, j as int);
                }
                if decls[j].0 == *prefix {
                    assert(dv[j as int].0 == prefix@);
                    return Some(rc_clone(&decls[j].1));
                }
            }
            assert(dv.take(0) =~= Seq::<(Seq<char>, Seq<char>)>::empty());
        }
        None
    }

    /// The namespace URI of an optional prefix.
    fn lookup_prefix(&self, prefix: Option<&NCName>) -> (r: Result<Option<NamespaceName>>)
        requires self.fixed_xml_namespace@ == XMLNS_XML@,
        ensures
            match lookup_spec(self.ns_stack(), match prefix { Some(p) => Some(p@), None => None }) {
                Ok(u) => r is Ok && opt_ns_view(r->Ok_0) == u,
                Err(e) => r == Err::<Option<NamespaceName>, Error>(e),
            },
    {
        match prefix {
            None => Ok(self.lookup_default()),
            Some(p) => {
                if *p == "xml" {
                    return Ok(Some(rc_clone(&self.fixed_xml_namespace)));
                }
                match self.lookup_declared(p) {
                    Some(u) => Ok(Some(u)),
                    None => Err(Error::NotNamespaceWellFormed(XmlError::UndeclaredNamespacePrefix(ERRCTX_UNKNOWN))),
                }
            },
        }
    }
}

impl NamespaceResolver {
    /// Record an attribute of the element header being collected.
    fn push_attribute(sp: &mut ElementScratchpad, q: RawQName, v: CData) -> (res: Result<()>)
        ensures
            qname_view(q).0 == Some("xmlns"@) && decl_lookup(decls_view(old(sp).nsdecl@), q.1@) is Some
                ==> res == Err::<(), Error>(Error::NotWellFormed(XmlError::DuplicateAttribute)),
            qname_view(q).0 == Some("xmlns"@) && decl_lookup(decls_view(old(sp).nsdecl@), q.1@) is None
                ==> res is Ok && decls_view(final(sp).nsdecl@) == decls_view(old(sp).nsdecl@).push((q.1@, v@))
                && final(sp).phyqname == old(sp).phyqname
                && final(sp).attributes == old(sp).attributes
                && final(sp).default_decl == old(sp).default_decl,
            q.0 is None && q.1@ == "xmlns"@ ==> res is Ok && opt_ns_view(final(sp).default_decl) == Some(v@)
                && final(sp).phyqname == old(sp).phyqname
                && final(sp).attributes == old(sp).attributes
                && final(sp).nsdecl == old(sp).nsdecl,
            qname_view(q).0 != Some("xmlns"@) && !(q.0 is None && q.1@ == "xmlns"@) ==> res is Ok
                && raw_attrs_view(final(sp).attributes@) == raw_attrs_view(old(sp).attributes@).push((qname_view(q), v@))
                && final(sp).phyqname == old(sp).phyqname
                && final(sp).default_decl == old(sp).default_decl
                && final(sp).nsdecl == old(sp).nsdecl,
    {
        let ghost qv = qname_view(q);
        let (prefix, local) = q;
        match prefix {
            Some(p) => {
                if p == "xmlns" {
                    let ghost d = decls_view(sp.nsdecl@);
                    let mut j = sp.nsdecl.len();
                    assert(d.take(j as int) =~= d);
                    while j > 0
                        invariant
                            j <= sp.nsdecl.len(),
                            d == decls_view(sp.nsdecl@),
                            *sp == *old(sp),
                            qv == (Some(p@), local@),
                            qv == qname_view(q),
                            q.0 is Some,
                            q.1@ == local@,
                            p@ == "xmlns"@,
                            decl_lookup(d, local@) == decl_lookup(d.take(j as int), local@),
                        decreases j,
                    {
                        j = j - 1;
                        proof { lemma_take_last(d, j as int); }
                        if sp.nsdecl[j].0 == local {
                            assert(d[j as int].0 == local@);
                            assert(decl_lookup(d.take(j + 1), local@) is Some);
                            return Err(Error::NotWellFormed(XmlError::DuplicateAttribute));
                        }
                    }
                    assert(d.take(0) =~= Seq::<(Seq<char>, Seq<char>)>::empty());
                    let ghost lv = local@;
                    let ghost vv = v@;
                    sp.nsdecl.push((local, Rc::new(v)));
                    assert(decls_view(sp.nsdecl@) =~= d.push((lv, vv)));
                    return Ok(());
                }
                let ghost qv = qname_view((Some(p), local));
                let ghost av = raw_attrs_view(sp.attributes@);
                let ghost vv = v@;
                sp.attributes.push(((Some(p), local), v));
                assert(raw_attrs_view(sp.attributes@) =~= av.push((qv, vv)));
                Ok(())
            },
            None => {
                if local == "xmlns" {
                    sp.default_decl = Some(Rc::new(v));
                    return Ok(());
                }
                let ghost qv = qname_view((None, local));
                let ghost av = raw_attrs_view(sp.attributes@);
                let ghost vv = v@;
                sp.attributes.push(((None, local), v));
                assert(raw_attrs_view(sp.attributes@) =~= av.push((qv, vv)));
                Ok(())
            },
        }
    }

    /// Resolve the attributes of the element header in the namespace
    /// declarations now in scope.
    fn resolve_attributes(&self, attrs: Vec<(RawQName, CData)>) -> (res: Result<AttrMap>)
        requires self.fixed_xml_namespace@ == XMLNS_XML@,
        ensures
            match resolve_attrs(self.ns_stack(), raw_attrs_view(attrs@)) {
                Ok(a) => res is Ok && res->Ok_0@ == a,
                Err(e) => res == Err::<AttrMap, Error>(e),
            },
    {
        let ghost st = self.ns_stack();
        let ghost av = raw_attrs_view(attrs@);
        let mut out = AttrMap::empty();
        let n = attrs.len();
        let mut i: usize = 0;
        assert(av.take(0) =~= Seq::<(QNameView, Seq<char>)>::empty());
        for item in it: attrs
            invariant
                self.fixed_xml_namespace@ == XMLNS_XML@,
                st == self.ns_stack(),
                av == raw_attrs_view(it.seq()),
                av.len() == n,
                i == it.index(),
                resolve_attrs(st, av.take(i as int)) == Ok::<AttrsView, Error>(out@),
        {
            proof {
                lemma_take_last(av, i as int);
                assert(av[i as int] == (qname_view(item.0), item.1@));
            }
            let ((prefix, local), value) = item;
            let nsuri = match &prefix {
                Some(p) => match self.lookup_prefix(Some(p)) {
                    Ok(u) => u,
                    Err(e) => {
                        proof { lemma_resolve_err_prefix(st, av, i + 1); }
                        return Err(e.with_context(ERRCTX_ATTNAME));
                    },
                },
                None => None,
            };
            let key = (nsuri, local);
            if out.contains_key(&key) {
                proof { lemma_resolve_err_prefix(st, av, i + 1); }
                return Err(Error::NotWellFormed(XmlError::DuplicateAttribute));
            }
            out.insert_new(key, value);
            i = i + 1;
        }
        assert(av.take(i as int) =~= av);
        Ok(out)
    }
}

impl NamespaceResolver {
    /// `new` is this resolver after the raw event `ev` has been processed
    /// (without poisoning), with result `res`.
    closed spec fn took(&self, ev: RawEventView, new: NamespaceResolver, res: Result<Option<ResolvedEvent>>) -> bool {
        let s = self.event_spec(ev);
        match s.err {
            Some(e) => res == Err::<Option<ResolvedEvent>, Error>(e),
            None => {
                &&& new.state == s.state
                &&& new.ns_stack() =~= s.stack
                &&& new.scratch() == s.scratch
                &&& new.event_length_accum == s.accum
                &&& match (res, s.out) {
                    (Ok(Some(r)), Some(o)) => r@ == o,
                    (Ok(None), None) => true,
                    _ => false,
                }
            },
        }
    }

    fn take_event(&mut self, ev: RawEvent) -> (res: Result<Option<ResolvedEvent>>)
        requires old(self).wf(), old(self).poison is None,
        ensures
            final(self).fixed_xml_namespace == old(self).fixed_xml_namespace,
            final(self).poison is None,
            old(self).took(ev@, *final(self), res),
            res is Ok ==> final(self).wf(),
            res matches Err(e) ==> !(e is IO),
    {
        let ghost evv = ev@;
        let len = ev.metrics().len();
        let acc = match self.event_length_accum.checked_add(len) {
            Some(a) => a,
            None => return Err(Error::RestrictedXml("event too long")),
        };
        match ev {
            RawEvent::ElementHeadOpen(_, q) => match self.state {
                NsState::Initial => {
                    self.state = NsState::Element;
                    self.scratchpad = Some(ElementScratchpad {
                        phyqname: q,
                        attributes: Vec::new(),
                        default_decl: None,
                        nsdecl: Vec::new(),
                    });
                    self.event_length_accum = acc;
                    assert(raw_attrs_view(Seq::<(RawQName, CData)>::empty()) =~= Seq::<(QNameView, Seq<char>)>::empty());
                    assert(decls_view(Seq::<(NCName, NamespaceName)>::empty()) =~= Seq::<(Seq<char>, Seq<char>)>::empty());
                    Ok(None)
                },
                NsState::Element => Err(Error::RestrictedXml("raw event out of order")),
            },
            RawEvent::Attribute(_, q, v) => match self.scratchpad.take() {
                None => Err(Error::RestrictedXml("raw event out of order")),
                Some(sp) => {
                    let mut sp = sp;
                    let r = Self::push_attribute(&mut sp, q, v);
                    self.scratchpad = Some(sp);
                    match r {
                        Ok(()) => {
                            self.event_length_accum = acc;
                            Ok(None)
                        },
                        Err(e) => Err(e),
                    }
                },
            },
            RawEvent::ElementHeadClose(_) => match self.scratchpad.take() {
                None => Err(Error::RestrictedXml("raw event out of order")),
                Some(sp) => {
                    let ElementScratchpad { phyqname, attributes, default_decl, nsdecl } = sp;
                    let ghost frame = (opt_ns_view(default_decl), decls_view(nsdecl@));
                    let ghost before = self.ns_stack();
                    self.namespace_stack.push((default_decl, nsdecl));
                    assert(self.ns_stack() =~= before.push(frame));
                    proof { lemma_resolve_attrs_not_io(self.ns_stack(), raw_attrs_view(attributes@)); }
                    let attrs = match self.resolve_attributes(attributes) {
                        Ok(a) => a,
                        Err(e) => return Err(e),
                    };
                    let (prefix, local) = phyqname;
                    let lookup = match &prefix {
                        Some(p) => self.lookup_prefix(Some(p)),
                        None => self.lookup_prefix(None),
                    };
                    let nsuri = match lookup {
                        Ok(u) => u,
                        Err(e) => return Err(e.with_context(ERRCTX_NAME)),
                    };
                    self.state = NsState::Initial;
                    self.event_length_accum = 0;
                    Ok(Some(ResolvedEvent::StartElement(EventMetrics::new(acc), (nsuri, local), attrs)))
                },
            },
            RawEvent::ElementFoot(em) => {
                let ghost before = self.ns_stack();
                self.namespace_stack.pop();
                assert(before.len() > 0 ==> self.ns_stack() =~= before.drop_last());
                assert(before.len() == 0 ==> self.ns_stack() =~= before);
                self.event_length_accum = acc;
                Ok(Some(ResolvedEvent::EndElement(em)))
            },
            RawEvent::XMLDeclaration(em, v) => {
                self.event_length_accum = 0;
                Ok(Some(ResolvedEvent::XMLDeclaration(em, v)))
            },
            RawEvent::Text(em, t) => {
                self.event_length_accum = 0;
                Ok(Some(ResolvedEvent::Text(em, t)))
            },
        }
    }

    /// Process one raw event.
    ///
    /// If the resolver is poisoned, its error is returned and nothing
    /// changes. Otherwise the event is processed as
    /// [`NamespaceResolver::takes`] describes: an error poisons the
    /// resolver; `None` means that more raw events are needed.
    pub fn process_event(&mut self, ev: RawEvent) -> (res: Result<Option<ResolvedEvent>>)
        requires old(self).wf(),
        ensures
            final(self).wf(),
            old(self).poisoned() matches Some(e) ==> res == Err::<Option<ResolvedEvent>, Error>(e)
                && *final(self) == *old(self),
            old(self).poisoned() is None ==> old(self).takes(ev@, *final(self), res),
            old(self).poisoned() is None ==> match res {
                Err(e) => final(self).poisoned() == Some(e) && !(e is IO),
                Ok(_) => final(self).poisoned() is None,
            },
    {
        match &self.poison {
            Some(e) => return Err(e.clone()),
            None => {},
        }
        match self.take_event(ev) {
            Ok(v) => Ok(v),
            Err(e) => {
                self.poison = Some(e.clone());
                Err(e)
            },
        }
    }

    /// `new` is this resolver after it has taken the raw events `evs` one
    /// after the other, each successfully and without emitting an event.
    pub open spec fn feeds(&self, evs: Seq<RawEventView>, new: NamespaceResolver) -> bool
        decreases evs.len(),
    {
        if evs.len() == 0 {
            new == *self
        } else {
            exists|mid: NamespaceResolver| self.feeds(evs.drop_last(), mid)
                && #[trigger] mid.takes(evs.last(), new, Ok(None))
        }
    }

    /// Each of the raw events `evs` is one which `F` can return.
    pub open spec fn delivered<F: FnMut() -> Result<Option<RawEvent>>>(evs: Seq<RawEventView>) -> bool {
        forall|i: int| 0 <= i < evs.len() ==> exists|g: F, x: RawEvent|
            #[trigger] g.ensures((), Ok::<Option<RawEvent>, Error>(Some(x))) && x@ == #[trigger] evs[i]
    }

    /// Read raw events from `f` until either an error occurs or a resolved
    /// event can be emitted.
    ///
    /// If the resolver detects an error (such as a duplicate attribute),
    /// that error is returned henceforth whenever this function is called,
    /// whatever `f`; the resolver is then poisoned. Errors from `f` are
    /// forwarded, but do not poison the resolver; `None` from `f` is
    /// passed on as the end of the input.
    pub fn next<F: FnMut() -> Result<Option<RawEvent>>>(&mut self, f: F) -> (res: Result<Option<ResolvedEvent>>)
        requires
            old(self).wf(),
            forall|g: F| g.requires(()),
        ensures
            final(self).wf(),
            old(self).poisoned() matches Some(e) ==> res == Err::<Option<ResolvedEvent>, Error>(e)
                && *final(self) == *old(self),
            old(self).poisoned() is None ==> match res {
                Err(e) => final(self).poisoned() is None || final(self).poisoned() == Some(e),
                Ok(_) => final(self).poisoned() is None,
            },
            old(self).poisoned() is None ==> match res {
                Ok(Some(_)) => exists|evs: Seq<RawEventView>, mid: NamespaceResolver, last: RawEvent|
                    #![trigger old(self).feeds(evs, mid), mid.takes(last@, *final(self), res)]
                    old(self).feeds(evs, mid) && Self::delivered::<F>(evs) && mid.takes(last@, *final(self), res)
                    && exists|g: F| #[trigger] g.ensures((), Ok::<Option<RawEvent>, Error>(Some(last))),
                Ok(None) => (exists|evs: Seq<RawEventView>| #[trigger] old(self).feeds(evs, *final(self))
                    && Self::delivered::<F>(evs))
                    && exists|g: F| #[trigger] g.ensures((), Ok::<Option<RawEvent>, Error>(None)),
                Err(e) => (final(self).poisoned() is None ==> (exists|evs: Seq<RawEventView>|
                    #[trigger] old(self).feeds(evs, *final(self)) && Self::delivered::<F>(evs))
                    && exists|g: F| #[trigger] g.ensures((), Err::<Option<RawEvent>, Error>(e)))
                    && (final(self).poisoned() is Some ==> (e == Error::RestrictedXml("too many raw events without an event")
                        && exists|evs: Seq<RawEventView>| #[trigger] old(self).feeds(evs, final(self).unpoisoned())
                            && Self::delivered::<F>(evs) && evs.len() == MAX_RAW_EVENTS_PER_EVENT)
                    || exists|evs: Seq<RawEventView>, mid: NamespaceResolver, last: RawEvent|
                        #![trigger old(self).feeds(evs, mid), mid.takes(last@, *final(self), res)]
                        old(self).feeds(evs, mid) && Self::delivered::<F>(evs) && mid.takes(last@, *final(self), res)
                        && exists|g: F| #[trigger] g.ensures((), Ok::<Option<RawEvent>, Error>(Some(last)))),
            },
    {
        let mut f = f;
        match &self.poison {
            Some(e) => return Err(e.clone()),
            None => {},
        }
        let mut budget: u64 = MAX_RAW_EVENTS_PER_EVENT;
        let ghost mut evs: Seq<RawEventView> = Seq::empty();
        proof { assert(old(self).feeds(evs, *self)); }
        loop
            invariant
                self.wf(),
                self.poison is None,
                old(self).poison is None,
                forall|g: F| g.requires(()),
                old(self).feeds(evs, *self),
                Self::delivered::<F>(evs),
                evs.len() + budget == MAX_RAW_EVENTS_PER_EVENT,
            decreases budget,
        {
            if budget == 0 {
                let ghost before = *self;
                let e = Error::RestrictedXml("too many raw events without an event");
                self.poison = Some(e.clone());
                proof {
                    assert(self.unpoisoned() == before);
                }
                return Err(e);
            }
            budget = budget - 1;
            let ghost fprev = f;
            let fr = f();
            let pev = match fr {
                Ok(None) => return Ok(None),
                Err(e) => return Err(e),
                Ok(Some(pev)) => pev,
            };
            let ghost prev = *self;
            let ghost pv = pev@;
            let ghost praw = pev;
            let pr = self.process_event(pev);
            match pr {
                Err(e) => {
                    proof {
                        assert(prev.takes(pv, *self, Err::<Option<ResolvedEvent>, Error>(e)));
                        assert(fprev.ensures((), Ok::<Option<RawEvent>, Error>(Some(praw))));
                    }
                    return Err(e);
                },
                Ok(Some(v)) => {
                    proof {
                        assert(prev.takes(pv, *self, Ok(Some(v))));
                    }
                    return Ok(Some(v));
                },
                Ok(None) => {},
            }
            proof {
                let ne = evs.push(pv);
                assert(ne.drop_last() =~= evs);
                assert(ne.last() == pv);
                assert(prev.takes(pv, *self, Ok(None)));
                assert(old(self).feeds(ne, *self));
                assert(fprev.ensures((), Ok::<Option<RawEvent>, Error>(Some(praw))));
                assert forall|i: int| 0 <= i < ne.len() implies exists|g: F, x: RawEvent|
                    #[trigger] g.ensures((), Ok::<Option<RawEvent>, Error>(Some(x))) && x@ == #[trigger] ne[i] by {
                    if i < evs.len() {
                        assert(ne[i] == evs[i]);
                    } else {
                        assert(ne[i] == praw@);
                    }
                }
                evs = ne;
            }
        }
    }
}

impl std::default::Default for NamespaceResolver {
    fn default() -> (r: Self)
        ensures
            r.wf(),
            r.poisoned() is None,
            r.ns_stack() == Seq::<NsFrame>::empty(),
            r.scratch() is None,
            r.pending_len() == 0,
            r.between_elements(),
    {
        NamespaceResolver::new()
    }
}

impl NamespaceResolver {
    /// The error which poisons the resolver, if any.
    pub(crate) fn process_poison(&self) -> (r: Option<Error>)
        ensures r == self.poisoned(),
    {
        match &self.poison {
            Some(e) => Some(e.clone()),
            None => None,
        }
    }

    /// Poison the resolver because its source delivered too many raw
    /// events without one which completes an event.
    pub(crate) fn give_up(&mut self) -> (e: Error)
        requires old(self).wf(),
        ensures
            final(self).wf(),
            final(self).poisoned() == Some(e),
            e == Error::RestrictedXml("too many raw events without an event"),
    {
        let e = Error::RestrictedXml("too many raw events without an event");
        self.poison = Some(e.clone());
        e
    }
}

/// The default namespace declaration of an element is in scope exactly
/// within the element: once its header closes, an unprefixed name resolves
/// to the declared URI, or to no namespace where the declaration is empty
/// (`xmlns=''`), whatever the enclosing elements declare; an element
/// without a default declaration keeps the enclosing default; its foot
/// restores the enclosing default.
pub proof fn law_default_declaration_scoped_to_element(
    r1: NamespaceResolver,
    close_len: usize,
    r2: NamespaceResolver,
    res2: Result<Option<ResolvedEvent>>,
    foot_len: usize,
    r3: NamespaceResolver,
    res3: Result<Option<ResolvedEvent>>,
)
    requires
        r1.takes(RawEventView::ElementHeadClose(close_len), r2, res2),
        res2 is Ok,
        r2.takes(RawEventView::ElementFoot(foot_len), r3, res3),
        res3 is Ok,
    ensures
        r1.scratch() matches Some(sp) && (sp.2 matches Some(d) ==> lookup_spec(r2.ns_stack(), None)
            == Ok::<Option<Seq<char>>, Error>(if d.len() > 0 { Some(d) } else { None })),
        r1.scratch() matches Some(sp) && (sp.2 is None ==> lookup_spec(r2.ns_stack(), None)
            == lookup_spec(r1.ns_stack(), None)),
        lookup_spec(r3.ns_stack(), None) == lookup_spec(r1.ns_stack(), None),
{
    let sp = r1.scratch().unwrap();
    let stack = r1.ns_stack().push((sp.2, sp.3));
    assert(stack.last() == (sp.2, sp.3));
    assert(stack.drop_last() =~= r1.ns_stack());
}

/// The namespace declarations of an element are in scope exactly within
/// the element: closing its header puts them on top of the open elements'
/// declarations, so that each declared prefix (other than `xml`) resolves
/// to its declared URI, and the element's foot removes them again.
pub proof fn law_declarations_scoped_to_element(
    r1: NamespaceResolver,
    close_len: usize,
    r2: NamespaceResolver,
    res2: Result<Option<ResolvedEvent>>,
    foot_len: usize,
    r3: NamespaceResolver,
    res3: Result<Option<ResolvedEvent>>,
)
    requires
        r1.takes(RawEventView::ElementHeadClose(close_len), r2, res2),
        res2 is Ok,
        r2.takes(RawEventView::ElementFoot(foot_len), r3, res3),
        res3 is Ok,
    ensures
        r1.scratch() matches Some(sp) && r2.ns_stack() == r1.ns_stack().push((sp.2, sp.3)),
        r1.scratch() matches Some(sp) ==> forall|p: Seq<char>| #[trigger] decl_lookup(sp.3, p) is Some
            && p != "xml"@ ==> lookup_spec(r2.ns_stack(), Some(p)) == Ok::<Option<Seq<char>>, Error>(decl_lookup(sp.3, p)),
        r3.ns_stack() == r1.ns_stack(),
{
    let sp = r1.scratch().unwrap();
    let stack = r1.ns_stack().push((sp.2, sp.3));
    assert(stack.last() == (sp.2, sp.3));
    assert(stack.drop_last() =~= r1.ns_stack());
}

} // verus!