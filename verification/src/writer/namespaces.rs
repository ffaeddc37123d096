//! Tracking of namespace declarations while encoding.
use vstd::prelude::*;
use vstd::string::*;

use crate::parser::namespaces::{opt_ns_view, rc_clone};
use crate::parser::{NamespaceName, XMLNS_XML, XMLNS_XMLNS};
use crate::strings::{NCName, NCNameStr};
use crate::validation::{is_name_char, is_name_start_char, is_valid_ncname, name_pos_ok, ncname_pos_ok};

verus! {

/// The reserved prefix of the XML namespace.
pub const PREFIX_XML: &'static str = "xml";

/// The reserved prefix of namespace declarations.
pub const PREFIX_XMLNS: &'static str = "xmlns";

/// Error from looking up a namespace prefix.
#[derive(Debug, Clone, Copy, PartialEq, Eq, Structural)]
pub enum PrefixError {
    /// No prefix is declared for the namespace.
    Undeclared,
}

/// The characters of an optional namespace URI (`None`: no namespace).
pub type NsKey = Option<Seq<char>>;

/// A map from namespace URIs to prefixes, as entries in insertion order.
pub type NsMapView = Seq<(NsKey, Seq<char>)>;

/// Whether the map has an entry for `k`.
pub open spec fn has_ns_key(m: NsMapView, k: NsKey) -> bool {
    exists|i: int| 0 <= i < m.len() && #[trigger] m[i].0 == k
}

/// `i` is the first entry of the map for `k`.
pub open spec fn is_first_key(m: NsMapView, k: NsKey, i: int) -> bool {
    &&& 0 <= i < m.len()
    &&& m[i].0 == k
    &&& forall|j: int| 0 <= j < i ==> #[trigger] m[j].0 != k
}

/// The first entry of the map for `k`.
pub open spec fn first_key(m: NsMapView, k: NsKey) -> int {
    choose|i: int| is_first_key(m, k, i)
}

/// The prefix which the map holds for `k`.
pub open spec fn ns_map_get(m: NsMapView, k: NsKey) -> Option<Seq<char>> {
    if has_ns_key(m, k) { Some(m[first_key(m, k)].1) } else { None }
}

/// The map with the prefix of `k` set to `v`.
pub open spec fn ns_map_insert(m: NsMapView, k: NsKey, v: Seq<char>) -> NsMapView {
    if has_ns_key(m, k) { m.update(first_key(m, k), (k, v)) } else { m.push((k, v)) }
}

/// Whether the set holds `x`.
pub open spec fn set_has(s: Seq<Seq<char>>, x: Seq<char>) -> bool {
    exists|i: int| 0 <= i < s.len() && #[trigger] s[i] == x
}

/// The set with `x` added.
pub open spec fn set_add(s: Seq<Seq<char>>, x: Seq<char>) -> Seq<Seq<char>> {
    if set_has(s, x) { s } else { s.push(x) }
}

/// The decimal digit `d`.
pub open spec fn digit_char(d: nat) -> char {
    (48 + d) as char
}

/// The decimal representation of `n`.
pub open spec fn decimal(n: nat) -> Seq<char>
    decreases n,
{
    if n < 10 { seq![digit_char(n)] } else { decimal(n / 10).push(digit_char(n % 10)) }
}

/// The `n`-th automatically generated prefix: `tns` and the number.
pub open spec fn auto_prefix(n: nat) -> Seq<char> {
    "tns"@ + decimal(n)
}

/// The state of a namespace tracker: the declarations of the root element
/// (global) with their prefixes and counter, the stack of default
/// namespaces, and the declarations of the element being started.
pub struct NsView {
    pub global: NsMapView,
    pub global_rev: Seq<Seq<char>>,
    pub global_ctr: nat,
    pub default_stack: Seq<NsKey>,
    pub next_default: Option<NsKey>,
    pub temp_ctr: nat,
    pub temp: NsMapView,
    pub temp_rev: Seq<Seq<char>>,
}

/// Whether [`TrackNamespace::declare_fixed`] may be called: the reserved
/// prefixes only with their namespaces, the reserved namespaces only with
/// their prefixes, no prefix declared twice and at most one default
/// namespace per element.
pub open spec fn fixed_ok(v: NsView, prefix: Option<Seq<char>>, name: NsKey) -> bool {
    match prefix {
        Some(p) => if p == "xml"@ {
            name == Some(XMLNS_XML@)
        } else if p == "xmlns"@ {
            name == Some(XMLNS_XMLNS@)
        } else {
            &&& name != Some(XMLNS_XML@)
            &&& name != Some(XMLNS_XMLNS@)
            &&& !set_has(v.global_rev, p)
            &&& !set_has(v.temp_rev, p)
        },
        None => {
            &&& name != Some(XMLNS_XML@)
            &&& name != Some(XMLNS_XMLNS@)
            &&& v.next_default is None
        },
    }
}

/// What [`TrackNamespace::declare_fixed`] does: the new state and whether
/// the declaration is new.
pub open spec fn fixed_spec(v: NsView, prefix: Option<Seq<char>>, name: NsKey) -> (NsView, bool) {
    match prefix {
        Some(p) => if p == "xml"@ || p == "xmlns"@ {
            (v, false)
        } else {
            (NsView { temp: ns_map_insert(v.temp, name, p), temp_rev: set_add(v.temp_rev, p), ..v }, true)
        },
        None => (NsView { next_default: Some(name), ..v }, true),
    }
}

/// Whether the next automatic prefix is free and the counter can advance.
pub open spec fn auto_prefix_free(v: NsView) -> bool {
    &&& !set_has(v.global_rev, auto_prefix(v.temp_ctr))
    &&& !set_has(v.temp_rev, auto_prefix(v.temp_ctr))
    &&& v.temp_ctr < usize::MAX
}

/// Whether [`TrackNamespace::declare_with_auto_prefix`] may be called.
pub open spec fn with_auto_prefix_ok(v: NsView, name: NsKey) -> bool {
    name == Some(XMLNS_XML@) || name == Some(XMLNS_XMLNS@) || has_ns_key(v.temp, name) || auto_prefix_free(v)
}

/// What [`TrackNamespace::declare_with_auto_prefix`] does: the new state,
/// whether the declaration is new and the prefix.
pub open spec fn with_auto_prefix_spec(v: NsView, name: NsKey) -> (NsView, bool, Seq<char>) {
    if name == Some(XMLNS_XML@) {
        (v, false, "xml"@)
    } else if name == Some(XMLNS_XMLNS@) {
        (v, false, "xmlns"@)
    } else if has_ns_key(v.temp, name) {
        (v, false, ns_map_get(v.temp, name).unwrap())
    } else {
        let p = auto_prefix(v.temp_ctr);
        (NsView { temp_ctr: v.temp_ctr + 1, temp_rev: v.temp_rev.push(p), temp: v.temp.push((name, p)), ..v }, true, p)
    }
}

/// Whether [`TrackNamespace::declare_auto`] may be called.
pub open spec fn auto_ok(v: NsView, name: NsKey) -> bool {
    match v.next_default {
        Some(d) => d == name || with_auto_prefix_ok(v, name),
        None => true,
    }
}

/// What [`TrackNamespace::declare_auto`] does: the new state, whether the
/// declaration is new and the prefix (`None`: the default namespace).
pub open spec fn auto_spec(v: NsView, name: NsKey) -> (NsView, bool, Option<Seq<char>>) {
    if name == Some(XMLNS_XML@) {
        (v, false, Some("xml"@))
    } else if name == Some(XMLNS_XMLNS@) {
        (v, false, Some("xmlns"@))
    } else {
        match v.next_default {
            Some(d) => if d == name {
                (v, false, None)
            } else {
                let r = with_auto_prefix_spec(v, name);
                (r.0, r.1, Some(r.2))
            },
            None => {
                let new = if v.default_stack.len() > 0 { v.default_stack.last() != name } else { name is Some };
                (NsView { next_default: Some(name), ..v }, new, None)
            },
        }
    }
}

/// What [`TrackNamespace::get_prefix`] returns.
pub open spec fn prefix_spec(v: NsView, name: NsKey) -> Result<Seq<char>, PrefixError> {
    match ns_map_get(v.temp, name) {
        Some(p) => Ok(p),
        None => match ns_map_get(v.global, name) {
            Some(p) => Ok(p),
            None => Err(PrefixError::Undeclared),
        },
    }
}

/// What [`TrackNamespace::get_prefix_or_default`] returns.
pub open spec fn prefix_or_default_spec(v: NsView, name: NsKey) -> Result<Option<Seq<char>>, PrefixError> {
    if v.next_default == Some(name) {
        Ok(None)
    } else if v.default_stack.len() > 0 && v.default_stack.last() == name {
        Ok(None)
    } else {
        match prefix_spec(v, name) {
            Ok(p) => Ok(Some(p)),
            Err(e) => Err(e),
        }
    }
}

/// What [`TrackNamespace::push`] does: the default namespace of the new
/// element is the one declared, else that of the parent; the declarations
/// of the root element become global; those of other elements are dropped.
pub open spec fn push_spec(v: NsView) -> NsView {
    let top: NsKey = match v.next_default {
        Some(d) => d,
        None => if v.default_stack.len() > 0 { v.default_stack.last() } else { None },
    };
    let stack = v.default_stack.push(top);
    let root = stack.len() == 1;
    let gctr = if root { v.temp_ctr } else { v.global_ctr };
    NsView {
        global: if root { v.temp } else { v.global },
        global_rev: if root { v.temp_rev } else { v.global_rev },
        global_ctr: gctr,
        default_stack: stack,
        next_default: None,
        temp_ctr: gctr,
        temp: seq![],
        temp_rev: seq![],
    }
}

/// What [`TrackNamespace::pop`] does.
pub open spec fn pop_spec(v: NsView) -> NsView {
    NsView { default_stack: if v.default_stack.len() > 0 { v.default_stack.drop_last() } else { v.default_stack }, ..v }
}

/// Every prefix which the tracker knows was generated automatically, with a
/// number below the corresponding counter.
pub open spec fn all_auto(v: NsView) -> bool {
    &&& v.global_ctr <= v.temp_ctr
    &&& rev_auto(v.global_rev, v.global_ctr)
    &&& rev_auto(v.temp_rev, v.temp_ctr)
}

/// `k` is the number of the automatic prefix `p`, below `c`.
pub open spec fn auto_below(p: Seq<char>, k: nat, c: nat) -> bool {
    k < c && p == auto_prefix(k)
}

/// Every prefix of the set is automatic, with a number below `c`.
pub open spec fn rev_auto(s: Seq<Seq<char>>, c: nat) -> bool {
    forall|i: int| 0 <= i < s.len() ==> #[trigger] has_auto_number(s[i], c)
}

/// `p` is an automatic prefix with a number below `c`.
pub open spec fn has_auto_number(p: Seq<char>, c: nat) -> bool {
    exists|k: nat| #[trigger] auto_below(p, k, c)
}

proof fn lemma_decimal_digits(n: nat)
    ensures
        decimal(n).len() >= 1,
        n >= 10 ==> decimal(n).len() >= 2,
        forall|i: int| 0 <= i < decimal(n).len() ==> 48 <= (#[trigger] decimal(n)[i]) as u32 <= 57,
    decreases n,
{
    if n >= 10 {
        lemma_decimal_digits(n / 10);
        let d = decimal(n / 10);
        assert forall|i: int| 0 <= i < decimal(n).len() implies 48 <= (#[trigger] decimal(n)[i]) as u32 <= 57 by {
            if i < d.len() {
                assert(decimal(n)[i] == d[i]);
            }
        }
    }
}

proof fn lemma_decimal_injective(a: nat, b: nat)
    requires decimal(a) == decimal(b),
    ensures a == b,
    decreases a + b,
{
    lemma_decimal_digits(a);
    lemma_decimal_digits(b);
    if a < 10 && b < 10 {
        assert(decimal(a)[0] == digit_char(a));
        assert(decimal(b)[0] == digit_char(b));
    } else if a >= 10 && b >= 10 {
        let da = decimal(a);
        let db = decimal(b);
        assert(da.last() == digit_char(a % 10));
        assert(db.last() == digit_char(b % 10));
        assert(da.drop_last() =~= decimal(a / 10));
        assert(db.drop_last() =~= decimal(b / 10));
        lemma_decimal_injective(a / 10, b / 10);
    }
}

proof fn lemma_auto_prefix_injective(a: nat, b: nat)
    requires auto_prefix(a) == auto_prefix(b),
    ensures a == b,
{
    reveal_strlit("tns");
    assert(auto_prefix(a).subrange(3, auto_prefix(a).len() as int) =~= decimal(a));
    assert(auto_prefix(b).subrange(3, auto_prefix(b).len() as int) =~= decimal(b));
    lemma_decimal_injective(a, b);
}

proof fn lemma_auto_prefix_valid(n: nat)
    ensures is_valid_ncname(auto_prefix(n)),
{
    reveal_strlit("tns");
    lemma_decimal_digits(n);
    let s = auto_prefix(n);
    assert forall|i: int| 0 <= i < s.len() implies #[trigger] ncname_pos_ok(s, i) by {
        if i >= 3 {
            assert(s[i] == decimal(n)[i - 3]);
        }
    }
}

/// The free automatic prefix, given that all known prefixes were generated
/// automatically.
pub proof fn lemma_auto_prefix_free(v: NsView)
    requires all_auto(v), v.temp_ctr < usize::MAX,
    ensures auto_prefix_free(v),
{
    let p = auto_prefix(v.temp_ctr);
    if set_has(v.global_rev, p) {
        let i = choose|i: int| 0 <= i < v.global_rev.len() && #[trigger] v.global_rev[i] == p;
        assert(has_auto_number(v.global_rev[i], v.global_ctr));
        let k = choose|k: nat| #[trigger] auto_below(v.global_rev[i], k, v.global_ctr);
        lemma_auto_prefix_injective(k, v.temp_ctr);
    }
    if set_has(v.temp_rev, p) {
        let i = choose|i: int| 0 <= i < v.temp_rev.len() && #[trigger] v.temp_rev[i] == p;
        assert(has_auto_number(v.temp_rev[i], v.temp_ctr));
        let k = choose|k: nat| #[trigger] auto_below(v.temp_rev[i], k, v.temp_ctr);
        lemma_auto_prefix_injective(k, v.temp_ctr);
    }
}

proof fn lemma_first_key_unique(m: NsMapView, k: NsKey, i: int)
    requires is_first_key(m, k, i),
    ensures has_ns_key(m, k), first_key(m, k) == i,
{
    assert(m[i].0 == k);
    let j = first_key(m, k);
    assert(is_first_key(m, k, j));
    if j < i {
        assert(m[j].0 != k);
    }
    if i < j {
        assert(m[i].0 != k);
    }
}

/// The characters of the entries of a namespace map.
pub open spec fn ns_map_view(m: Seq<(Option<NamespaceName>, NCName)>) -> NsMapView {
    m.map_values(|e: (Option<NamespaceName>, NCName)| (opt_ns_view(e.0), e.1@))
}

/// The characters of a set of prefixes.
pub open spec fn prefix_set_view(s: Seq<NCName>) -> Seq<Seq<char>> {
    s.map_values(|n: NCName| n@)
}

/// Whether two optional namespace URIs have the same characters.
fn opt_ns_eq(a: &Option<NamespaceName>, b: &Option<NamespaceName>) -> (r: bool)
    ensures r == (opt_ns_view(*a) == opt_ns_view(*b)),
{
    match (a, b) {
        (Some(x), Some(y)) => {
            let xs: &crate::strings::CData = &**x;
            let ys: &crate::strings::CData = &**y;
            *xs == *ys
        },
        (None, None) => true,
        _ => false,
    }
}

fn clone_opt_ns(a: &Option<NamespaceName>) -> (r: Option<NamespaceName>)
    ensures opt_ns_view(r) == opt_ns_view(*a),
{
    match a {
        Some(x) => Some(rc_clone(x)),
        None => None,
    }
}

/// The first entry of the map for `k`, if any.
fn find_key(m: &Vec<(Option<NamespaceName>, NCName)>, k: &Option<NamespaceName>) -> (r: Option<usize>)
    ensures
        match r {
            Some(i) => is_first_key(ns_map_view(m@), opt_ns_view(*k), i as int)
                && first_key(ns_map_view(m@), opt_ns_view(*k)) == i && has_ns_key(ns_map_view(m@), opt_ns_view(*k)),
            None => !has_ns_key(ns_map_view(m@), opt_ns_view(*k)),
        },
{
    let ghost mv = ns_map_view(m@);
    let mut i: usize = 0;
    while i < m.len()
        invariant
            i <= m.len(),
            mv == ns_map_view(m@),
            forall|j: int| 0 <= j < i ==> #[trigger] mv[j].0 != opt_ns_view(*k),
        decreases m.len() - i,
    {
        if opt_ns_eq(&m[i].0, k) {
            proof { lemma_first_key_unique(mv, opt_ns_view(*k), i as int); }
            return Some(i);
        }
        i = i + 1;
    }
    None
}

/// Whether the set holds the prefix `x`.
fn set_contains(s: &Vec<NCName>, x: &NCName) -> (r: bool)
    ensures r == set_has(prefix_set_view(s@), x@),
{
    let ghost sv = prefix_set_view(s@);
    let mut i: usize = 0;
    while i < s.len()
        invariant
            i <= s.len(),
            sv == prefix_set_view(s@),
            forall|j: int| 0 <= j < i ==> #[trigger] sv[j] != x@,
        decreases s.len() - i,
    {
        if s[i] == *x {
            assert(sv[i as int] == x@);
            return true;
        }
        i = i + 1;
    }
    false
}

fn digit_str(d: usize) -> (r: &'static str)
    requires d < 10,
    ensures r@ == seq![digit_char(d as nat)],
{
    proof {
        reveal_strlit("0"); reveal_strlit("1"); reveal_strlit("2"); reveal_strlit("3"); reveal_strlit("4");
        reveal_strlit("5"); reveal_strlit("6"); reveal_strlit("7"); reveal_strlit("8"); reveal_strlit("9");
    }
    let r = if d == 0 { "0" } else if d == 1 { "1" } else if d == 2 { "2" } else if d == 3 { "3" }
        else if d == 4 { "4" } else if d == 5 { "5" } else if d == 6 { "6" } else if d == 7 { "7" }
        else if d == 8 { "8" } else { "9" };
    assert(r@ =~= seq![digit_char(d as nat)]);
    r
}

fn push_decimal(s: &mut String, n: usize)
    ensures final(s)@ == old(s)@ + decimal(n as nat),
    decreases n,
{
    if n >= 10 {
        push_decimal(s, n / 10);
    }
    s.append(digit_str(n % 10));
    assert(decimal(n as nat) == if n < 10 { seq![digit_char(n as nat)] } else { decimal((n / 10) as nat).push(digit_char((n % 10) as nat)) });
    assert(s@ =~= old(s)@ + decimal(n as nat));
}

/// The `n`-th automatically generated prefix.
fn make_auto_prefix(n: usize) -> (r: NCName)
    ensures r@ == auto_prefix(n as nat),
{
    let mut s = String::from_str("tns");
    push_decimal(&mut s, n);
    proof { lemma_auto_prefix_valid(n as nat); }
    match NCName::from_string(s) {
        Ok(p) => p,
        Err(_) => vstd::pervasive::unreached(),
    }
}

fn reserved_prefix(s: &str) -> (r: NCName)
    requires s@ == "xml"@ || s@ == "xmlns"@,
    ensures r@ == s@,
{
    proof { reveal_strlit("xml"); reveal_strlit("xmlns"); }
    assert forall|i: int| 0 <= i < s@.len() implies #[trigger] ncname_pos_ok(s@, i) by {}
    match NCName::from_str(s) {
        Ok(p) => p,
        Err(_) => vstd::pervasive::unreached(),
    }
}

/// Trait for a thing tracking namespace declarations while encoding.
///
/// The protocol is: declare all namespace URIs introduced on an element
/// with `declare_fixed` and `declare_auto`, commit to the element with
/// `push`, process the child elements, and call `pop` at the end of the
/// element.
pub trait TrackNamespace {
    /// Whether the tracker is consistent.
    spec fn tracker_ok(&self) -> bool;

    /// Whether `declare_fixed` may be called with these arguments.
    spec fn can_declare_fixed(&self, prefix: Option<Seq<char>>, name: NsKey) -> bool;

    /// Whether `declare_auto` may be called with this namespace.
    spec fn can_declare_auto(&self, name: NsKey) -> bool;

    /// Whether `declare_with_auto_prefix` may be called with this
    /// namespace.
    spec fn can_declare_with_auto_prefix(&self, name: NsKey) -> bool;

    /// Declare a namespace URI with a defined prefix (`None`: as default
    /// namespace); returns whether the declaration is new.
    fn declare_fixed(&mut self, prefix: Option<&NCNameStr>, name: Option<NamespaceName>) -> (r: bool)
        requires
            old(self).tracker_ok(),
            old(self).can_declare_fixed(match prefix { Some(p) => Some(p@), None => None }, opt_ns_view(name)),
        ensures final(self).tracker_ok(),
    ;

    /// Declare a namespace URI with an auto-generated prefix or as default
    /// namespace; returns whether the declaration is new and the prefix
    /// (`None`: prefixless).
    fn declare_auto(&mut self, name: Option<NamespaceName>) -> (r: (bool, Option<&NCNameStr>))
        requires old(self).tracker_ok(), old(self).can_declare_auto(opt_ns_view(name)),
        ensures final(self).tracker_ok(),
    ;

    /// Declare a namespace URI with an auto-generated prefix; returns
    /// whether the declaration is new and the prefix.
    fn declare_with_auto_prefix(&mut self, name: Option<NamespaceName>) -> (r: (bool, &NCNameStr))
        requires old(self).tracker_ok(), old(self).can_declare_with_auto_prefix(opt_ns_view(name)),
        ensures final(self).tracker_ok(),
    ;

    /// Get the prefix for a URI, which may be none if the namespace is the
    /// default namespace.
    fn get_prefix_or_default(&self, name: Option<NamespaceName>) -> (r: Result<Option<&NCNameStr>, PrefixError>)
        requires self.tracker_ok(),
    ;

    /// Get the prefix for a URI.
    fn get_prefix(&self, name: Option<NamespaceName>) -> (r: Result<&NCNameStr, PrefixError>)
        requires self.tracker_ok(),
    ;

    /// Complete an element declaration.
    fn push(&mut self)
        requires old(self).tracker_ok(),
        ensures final(self).tracker_ok(),
    ;

    /// Signal the end of an element.
    fn pop(&mut self)
        requires old(self).tracker_ok(),
        ensures final(self).tracker_ok(),
    ;
}

/// Simple namespace tracker.
///
/// It only tracks unprefixed (default) namespaces across elements.
/// Prefixed namespaces may be declared, but are forgotten once the element
/// start is over; those declared on the root element stay available on all
/// its descendants.
#[derive(Debug)]
pub struct SimpleNamespaces {
    global_ns: Vec<(Option<NamespaceName>, NCName)>,
    global_ns_rev: Vec<NCName>,
    global_ns_ctr: usize,
    default_ns_stack: Vec<Option<NamespaceName>>,
    next_default_ns: Option<Option<NamespaceName>>,
    temp_ns_ctr: usize,
    temp_ns: Vec<(Option<NamespaceName>, NCName)>,
    temp_ns_rev: Vec<NCName>,
    prefix_xml: NCName,
    prefix_xmlns: NCName,
}

impl View for SimpleNamespaces {
    type V = NsView;

    closed spec fn view(&self) -> NsView {
        NsView {
            global: ns_map_view(self.global_ns@),
            global_rev: prefix_set_view(self.global_ns_rev@),
            global_ctr: self.global_ns_ctr as nat,
            default_stack: self.default_ns_stack@.map_values(|u: Option<NamespaceName>| opt_ns_view(u)),
            next_default: match self.next_default_ns {
                Some(u) => Some(opt_ns_view(u)),
                None => None,
            },
            temp_ctr: self.temp_ns_ctr as nat,
            temp: ns_map_view(self.temp_ns@),
            temp_rev: prefix_set_view(self.temp_ns_rev@),
        }
    }
}

impl SimpleNamespaces {
    /// Whether the reserved prefixes are in place.
    pub closed spec fn reserved_ok(&self) -> bool {
        self.prefix_xml@ == "xml"@ && self.prefix_xmlns@ == "xmlns"@
    }

    /// Create a tracker without declarations.
    pub fn new() -> (r: Self)
        ensures
            r.reserved_ok(),
            r@ == (NsView {
                global: seq![],
                global_rev: seq![],
                global_ctr: 0,
                default_stack: seq![],
                next_default: None,
                temp_ctr: 0,
                temp: seq![],
                temp_rev: seq![],
            }),
    {
        proof { reveal_strlit("xml"); reveal_strlit("xmlns"); }
        let r = SimpleNamespaces {
            global_ns: Vec::new(),
            global_ns_rev: Vec::new(),
            global_ns_ctr: 0,
            default_ns_stack: Vec::new(),
            next_default_ns: None,
            temp_ns_ctr: 0,
            temp_ns: Vec::new(),
            temp_ns_rev: Vec::new(),
            prefix_xml: reserved_prefix(PREFIX_XML),
            prefix_xmlns: reserved_prefix(PREFIX_XMLNS),
        };
        assert(r@.global =~= seq![]);
        assert(r@.global_rev =~= seq![]);
        assert(r@.default_stack =~= seq![]);
        assert(r@.temp =~= seq![]);
        assert(r@.temp_rev =~= seq![]);
        r
    }
}

impl SimpleNamespaces {
    /// Set the prefix of `k` in the map of the element being started.
    fn temp_insert(&mut self, k: Option<NamespaceName>, p: NCName)
        ensures
            final(self)@ == (NsView { temp: ns_map_insert(old(self)@.temp, opt_ns_view(k), p@), ..old(self)@ }),
            final(self).reserved_ok() == old(self).reserved_ok(),
    {
        let ghost kv = opt_ns_view(k);
        let ghost pv = p@;
        let ghost mv = ns_map_view(self.temp_ns@);
        match find_key(&self.temp_ns, &k) {
            Some(i) => {
                self.temp_ns.set(i, (k, p));
                assert(ns_map_view(self.temp_ns@) =~= mv.update(i as int, (kv, pv)));
            },
            None => {
                self.temp_ns.push((k, p));
                assert(ns_map_view(self.temp_ns@) =~= mv.push((kv, pv)));
            },
        }
        assert(self@ =~= (NsView { temp: ns_map_insert(old(self)@.temp, kv, pv), ..old(self)@ }));
    }

    /// Add a prefix to the set of the element being started.
    fn temp_rev_add(&mut self, p: NCName)
        ensures
            final(self)@ == (NsView { temp_rev: set_add(old(self)@.temp_rev, p@), ..old(self)@ }),
            final(self).reserved_ok() == old(self).reserved_ok(),
    {
        let ghost pv = p@;
        let ghost sv = prefix_set_view(self.temp_ns_rev@);
        if !set_contains(&self.temp_ns_rev, &p) {
            self.temp_ns_rev.push(p);
            assert(prefix_set_view(self.temp_ns_rev@) =~= sv.push(pv));
        }
        assert(self@ =~= (NsView { temp_rev: set_add(old(self)@.temp_rev, pv), ..old(self)@ }));
    }
}

impl TrackNamespace for SimpleNamespaces {
    open spec fn tracker_ok(&self) -> bool {
        self.reserved_ok()
    }

    open spec fn can_declare_fixed(&self, prefix: Option<Seq<char>>, name: NsKey) -> bool {
        fixed_ok(self@, prefix, name)
    }

    open spec fn can_declare_auto(&self, name: NsKey) -> bool {
        auto_ok(self@, name)
    }

    open spec fn can_declare_with_auto_prefix(&self, name: NsKey) -> bool {
        with_auto_prefix_ok(self@, name)
    }

    fn declare_fixed(&mut self, prefix: Option<&NCNameStr>, name: Option<NamespaceName>) -> (r: bool)
        ensures
            ({
                let o = fixed_spec(old(self)@, match prefix { Some(p) => Some(p@), None => None }, opt_ns_view(name));
                final(self)@ == o.0 && r == o.1
            }),
    {
        match prefix {
            Some(p) => {
                if *p == PREFIX_XML || *p == PREFIX_XMLNS {
                    return false;
                }
                self.temp_insert(name, p.to_ncname());
                self.temp_rev_add(p.to_ncname());
                true
            },
            None => {
                self.next_default_ns = Some(name);
                true
            },
        }
    }

    fn declare_with_auto_prefix(&mut self, name: Option<NamespaceName>) -> (r: (bool, &NCNameStr))
        ensures
            ({
                let o = with_auto_prefix_spec(old(self)@, opt_ns_view(name));
                final(self)@ == o.0 && r.0 == o.1 && r.1@ == o.2
            }),
    {
        proof { reveal_strlit("xml"); reveal_strlit("xmlns"); }
        let is_xml = match &name {
            Some(u) => {
                let uc: &crate::strings::CData = &**u;
                *uc == XMLNS_XML
            },
            None => false,
        };
        if is_xml {
            return (false, &self.prefix_xml);
        }
        let is_xmlns = match &name {
            Some(u) => {
                let uc: &crate::strings::CData = &**u;
                *uc == XMLNS_XMLNS
            },
            None => false,
        };
        if is_xmlns {
            return (false, &self.prefix_xmlns);
        }
        match find_key(&self.temp_ns, &name) {
            Some(i) => (false, &self.temp_ns[i].1),
            None => {
                let ctr = self.temp_ns_ctr;
                let p = make_auto_prefix(ctr);
                let ghost pv = p@;
                let ghost kv = opt_ns_view(name);
                let ghost rv = prefix_set_view(self.temp_ns_rev@);
                let ghost mv = ns_map_view(self.temp_ns@);
                self.temp_ns_ctr = ctr + 1;
                self.temp_ns_rev.push(p.to_ncname());
                assert(prefix_set_view(self.temp_ns_rev@) =~= rv.push(pv));
                self.temp_ns.push((name, p));
                assert(ns_map_view(self.temp_ns@) =~= mv.push((kv, pv)));
                let n = self.temp_ns.len();
                assert(self@ =~= with_auto_prefix_spec(old(self)@, kv).0);
                (true, &self.temp_ns[n - 1].1)
            },
        }
    }

    fn declare_auto(&mut self, name: Option<NamespaceName>) -> (r: (bool, Option<&NCNameStr>))
        ensures
            ({
                let o = auto_spec(old(self)@, opt_ns_view(name));
                final(self)@ == o.0 && r.0 == o.1 && match (r.1, o.2) {
                    (Some(p), Some(q)) => p@ == q,
                    (None, None) => true,
                    _ => false,
                }
            }),
    {
        proof { reveal_strlit("xml"); reveal_strlit("xmlns"); }
        let is_xml = match &name {
            Some(u) => {
                let uc: &crate::strings::CData = &**u;
                *uc == XMLNS_XML
            },
            None => false,
        };
        if is_xml {
            return (false, Some(&self.prefix_xml));
        }
        let is_xmlns = match &name {
            Some(u) => {
                let uc: &crate::strings::CData = &**u;
                *uc == XMLNS_XMLNS
            },
            None => false,
        };
        if is_xmlns {
            return (false, Some(&self.prefix_xmlns));
        }
        let same = match &self.next_default_ns {
            Some(v) => Some(opt_ns_eq(v, &name)),
            None => None,
        };
        match same {
            Some(true) => (false, None),
            Some(false) => {
                let (new, prefix) = self.declare_with_auto_prefix(name);
                (new, Some(prefix))
            },
            None => {
                let n = self.default_ns_stack.len();
                let new = if n > 0 {
                    !opt_ns_eq(&self.default_ns_stack[n - 1], &name)
                } else {
                    name.is_some()
                };
                let ghost dv = self.default_ns_stack@.map_values(|u: Option<NamespaceName>| opt_ns_view(u));
                proof {
                    if n > 0 {
                        assert(dv.last() == opt_ns_view(self.default_ns_stack@[n - 1]));
                    }
                }
                let ghost kv = opt_ns_view(name);
                self.next_default_ns = Some(name);
                assert(self@ =~= (NsView { next_default: Some(kv), ..old(self)@ }));
                (new, None)
            },
        }
    }

    fn get_prefix(&self, name: Option<NamespaceName>) -> (r: Result<&NCNameStr, PrefixError>)
        ensures
            match (r, prefix_spec(self@, opt_ns_view(name))) {
                (Ok(p), Ok(q)) => p@ == q,
                (Err(e), Err(f)) => e == f,
                _ => false,
            },
    {
        match find_key(&self.temp_ns, &name) {
            Some(i) => return Ok(&self.temp_ns[i].1),
            None => {},
        }
        match find_key(&self.global_ns, &name) {
            Some(i) => return Ok(&self.global_ns[i].1),
            None => {},
        }
        Err(PrefixError::Undeclared)
    }

    fn get_prefix_or_default(&self, name: Option<NamespaceName>) -> (r: Result<Option<&NCNameStr>, PrefixError>)
        ensures
            match (r, prefix_or_default_spec(self@, opt_ns_view(name))) {
                (Ok(Some(p)), Ok(Some(q))) => p@ == q,
                (Ok(None), Ok(None)) => true,
                (Err(e), Err(f)) => e == f,
                _ => false,
            },
    {
        match &self.next_default_ns {
            Some(next) => {
                if opt_ns_eq(next, &name) {
                    return Ok(None);
                }
            },
            None => {},
        }
        let n = self.default_ns_stack.len();
        if n > 0 {
            let ghost dv = self.default_ns_stack@.map_values(|u: Option<NamespaceName>| opt_ns_view(u));
            assert(dv.last() == opt_ns_view(self.default_ns_stack@[n - 1]));
            if opt_ns_eq(&self.default_ns_stack[n - 1], &name) {
                return Ok(None);
            }
        }
        match self.get_prefix(name) {
            Ok(p) => Ok(Some(p)),
            Err(e) => Err(e),
        }
    }

    fn push(&mut self)
        ensures final(self)@ == push_spec(old(self)@),
    {
        let ghost dv = self.default_ns_stack@.map_values(|u: Option<NamespaceName>| opt_ns_view(u));
        let next = self.next_default_ns.take();
        let top = match next {
            None => {
                let n = self.default_ns_stack.len();
                if n > 0 {
                    assert(dv.last() == opt_ns_view(self.default_ns_stack@[n - 1]));
                    clone_opt_ns(&self.default_ns_stack[n - 1])
                } else {
                    None
                }
            },
            Some(v) => v,
        };
        let ghost tv = opt_ns_view(top);
        self.default_ns_stack.push(top);
        assert(self.default_ns_stack@.map_values(|u: Option<NamespaceName>| opt_ns_view(u)) =~= dv.push(tv));
        if self.default_ns_stack.len() == 1 {
            std::mem::swap(&mut self.global_ns, &mut self.temp_ns);
            std::mem::swap(&mut self.global_ns_rev, &mut self.temp_ns_rev);
            self.global_ns_ctr = self.temp_ns_ctr;
        }
        self.temp_ns_ctr = self.global_ns_ctr;
        self.temp_ns.clear();
        self.temp_ns_rev.clear();
        assert(self@.temp =~= seq![]);
        assert(self@.temp_rev =~= seq![]);
        assert(self@ =~= push_spec(old(self)@));
    }

    fn pop(&mut self)
        ensures final(self)@ == pop_spec(old(self)@),
    {
        let ghost dv = self.default_ns_stack@.map_values(|u: Option<NamespaceName>| opt_ns_view(u));
        self.default_ns_stack.pop();
        assert(dv.len() > 0 ==> self.default_ns_stack@.map_values(|u: Option<NamespaceName>| opt_ns_view(u)) =~= dv.drop_last());
        assert(dv.len() == 0 ==> self.default_ns_stack@.map_values(|u: Option<NamespaceName>| opt_ns_view(u)) =~= dv);
        assert(self@ =~= pop_spec(old(self)@));
    }
}

impl std::default::Default for SimpleNamespaces {
    fn default() -> (r: Self)
        ensures r.reserved_ok(),
    {
        SimpleNamespaces::new()
    }
}

/// Declaring a namespace automatically keeps all prefixes automatic.
pub proof fn lemma_all_auto_steps(v: NsView, name: NsKey)
    requires all_auto(v),
    ensures
        all_auto(with_auto_prefix_spec(v, name).0),
        all_auto(auto_spec(v, name).0),
        all_auto(push_spec(v)),
        all_auto(pop_spec(v)),
{
    let w = with_auto_prefix_spec(v, name).0;
    if !(name == Some(XMLNS_XML@) || name == Some(XMLNS_XMLNS@) || has_ns_key(v.temp, name)) {
        assert forall|i: int| 0 <= i < w.temp_rev.len() implies #[trigger] has_auto_number(w.temp_rev[i], w.temp_ctr) by {
            if i < v.temp_rev.len() {
                assert(has_auto_number(v.temp_rev[i], v.temp_ctr));
                let k = choose|k: nat| #[trigger] auto_below(v.temp_rev[i], k, v.temp_ctr);
                assert(auto_below(w.temp_rev[i], k, w.temp_ctr));
            } else {
                assert(auto_below(w.temp_rev[i], v.temp_ctr, w.temp_ctr));
            }
        }
    }
    let a = auto_spec(v, name).0;
    assert(a.global_rev == v.global_rev && a.global_ctr == v.global_ctr);
    let p = push_spec(v);
    assert(p.temp_rev =~= Seq::<Seq<char>>::empty());
    let q = pop_spec(v);
    assert(q.global_rev == v.global_rev && q.temp_rev == v.temp_rev);
}

/// Automatically generated prefixes with different numbers differ, so
/// that the tracker never hands out one prefix for two namespaces.
pub proof fn law_auto_prefixes_distinct(a: nat, b: nat)
    requires a != b,
    ensures auto_prefix(a) != auto_prefix(b),
{
    if auto_prefix(a) == auto_prefix(b) {
        lemma_auto_prefix_injective(a, b);
    }
}

/// Every automatically generated prefix is an `NCName`.
pub proof fn law_auto_prefix_is_ncname(n: nat)
    ensures is_valid_ncname(auto_prefix(n)),
{
    lemma_auto_prefix_valid(n);
}

proof fn lemma_first_key_exists(m: NsMapView, k: NsKey)
    requires has_ns_key(m, k),
    ensures is_first_key(m, k, first_key(m, k)),
    decreases m.len(),
{
    if m[0].0 == k {
        assert(is_first_key(m, k, 0));
    } else {
        let i = choose|i: int| 0 <= i < m.len() && #[trigger] m[i].0 == k;
        let t = m.drop_first();
        assert(t[i - 1].0 == k);
        lemma_first_key_exists(t, k);
        let j = first_key(t, k);
        assert forall|l: int| 0 <= l < j + 1 implies #[trigger] m[l].0 != k by {
            if l > 0 {
                assert(m[l] == t[l - 1]);
            }
        }
        assert(is_first_key(m, k, j + 1));
    }
}

/// A prefix declared for a namespace on the tracker (other than the
/// reserved `xml` and `xmlns`) is the prefix which the tracker then gives
/// for that namespace.
pub proof fn law_fixed_prefix_is_looked_up(v: NsView, p: Seq<char>, name: NsKey)
    requires p != "xml"@, p != "xmlns"@,
    ensures prefix_spec(fixed_spec(v, Some(p), name).0, name) == Ok::<Seq<char>, PrefixError>(p),
{
    let m = v.temp;
    let m2 = ns_map_insert(m, name, p);
    assert(fixed_spec(v, Some(p), name).0.temp == m2);
    if has_ns_key(m, name) {
        lemma_first_key_exists(m, name);
        let i = first_key(m, name);
        assert forall|j: int| 0 <= j < i implies #[trigger] m2[j].0 != name by {
            assert(m2[j] == m[j]);
        }
        assert(is_first_key(m2, name, i));
        lemma_first_key_unique(m2, name, i);
    } else {
        let i = m.len() as int;
        assert forall|j: int| 0 <= j < i implies #[trigger] m2[j].0 != name by {
            assert(m2[j] == m[j]);
        }
        assert(is_first_key(m2, name, i));
        lemma_first_key_unique(m2, name, i);
    }
}

} // verus!
