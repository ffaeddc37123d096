//! Strongly-typed strings for XML 1.0 documents.
//!
//! [`Name`] holds text conforming to the `Name` production, [`NCName`] text
//! conforming to the `NCName` production (a `Name` without colons) and
//! [`CData`] text made of XML `Char`s only. Each type keeps its grammar as a
//! type invariant; all constructors check it.
use vstd::prelude::*;
use vstd::string::*;
use vstd::utf8::*;

use crate::error::{XmlError, ERRCTX_NAME, ERRCTX_UNKNOWN};
use crate::validation::{
    self, first_bad_name_pos, first_bad_ncname_pos, first_nonchar_pos, is_name_char,
    is_name_start_char, is_valid_cdata, is_valid_name, is_valid_ncname, is_xml_char,
    name_pos_ok, ncname_pos_ok, Error as ValidationError,
};

verus! {

broadcast use vstd::utf8::group_utf8_lib, vstd::string::group_string_axioms;

/// Compare two string slices for equality of their characters.
pub fn str_eq(a: &str, b: &str) -> (r: bool)
    ensures r == (a@ == b@),
{
    let ab = a.as_bytes();
    let bb = b.as_bytes();
    proof {
        encode_utf8_decode_utf8(a@);
        encode_utf8_decode_utf8(b@);
    }
    if ab.len() != bb.len() {
        return false;
    }
    let mut i: usize = 0;
    while i < ab.len()
        invariant
            ab.len() == bb.len(),
            i <= ab.len(),
            ab@ == a.spec_bytes(),
            bb@ == b.spec_bytes(),
            forall|j: int| 0 <= j < i ==> ab@[j] == bb@[j],
        decreases ab.len() - i,
    {
        if ab[i] != bb[i] {
            return false;
        }
        i = i + 1;
    }
    assert(ab@ =~= bb@);
    true
}

/// String which conforms to the `Name` production of XML 1.0.
#[derive(Debug, Hash)]
pub struct Name(String);

/// Borrowed form of [`Name`]; the borrowed and owned forms share one type.
pub type NameStr = Name;

impl View for Name {
    type V = Seq<char>;

    closed spec fn view(&self) -> Seq<char> {
        self.0@
    }
}

impl Name {
    #[verifier::type_invariant]
    closed spec fn inv(self) -> bool {
        is_valid_name(self.0@)
    }

    /// The contents conform to the `Name` production.
    pub fn check_invariant(&self)
        ensures is_valid_name(self@),
    {
        proof { use_type_invariant(self); }
    }

    /// Converts a [`str`] to a `Name`; an error is returned if it does not
    /// conform to the `Name` production.
    pub fn from_str(s: &str) -> (r: Result<Name, XmlError>)
        ensures
            r is Ok <==> is_valid_name(s@),
            r matches Ok(n) ==> n@ == s@,
            r matches Err(e) ==> e == XmlError::from_validation_spec(validation::name_error(s@)),
    {
        match validation::validate_name(s) {
            Ok(()) => Ok(Name(s.to_owned())),
            Err(e) => Err(XmlError::from_validation(e)),
        }
    }

    /// Converts a [`String`] to a `Name`; an error is returned if it does not
    /// conform to the `Name` production.
    pub fn from_string(s: String) -> (r: Result<Name, XmlError>)
        ensures
            r is Ok <==> is_valid_name(s@),
            r matches Ok(n) ==> n@ == s@,
            r matches Err(e) ==> e == XmlError::from_validation_spec(validation::name_error(s@)),
    {
        match validation::validate_name(s.as_str()) {
            Ok(()) => Ok(Name(s)),
            Err(e) => Err(XmlError::from_validation(e)),
        }
    }

    /// Extract the inner string.
    pub fn into_inner(self) -> (r: String)
        ensures r@ == self@, is_valid_name(r@),
    {
        proof { use_type_invariant(&self); }
        self.0
    }

    /// Obtain a reference to the inner string slice.
    pub fn as_str(&self) -> (r: &str)
        ensures r@ == self@, is_valid_name(r@),
    {
        proof { use_type_invariant(self); }
        self.0.as_str()
    }

    /// Create an owned copy of the name.
    pub fn to_name(&self) -> (r: Name)
        ensures r@ == self@,
    {
        proof { use_type_invariant(self); }
        Name(self.0.clone())
    }
}

impl Clone for Name {
    fn clone(&self) -> (r: Name)
        ensures r@ == self@,
    {
        self.to_name()
    }
}

impl PartialEq for Name {
    fn eq(&self, other: &Name) -> (r: bool) {
        str_eq(self.0.as_str(), other.0.as_str())
    }
}

impl vstd::std_specs::cmp::PartialEqSpecImpl for Name {
    open spec fn obeys_eq_spec() -> bool {
        true
    }

    open spec fn eq_spec(&self, other: &Name) -> bool {
        self@ == other@
    }
}

impl Eq for Name {}

impl PartialEq<str> for Name {
    fn eq(&self, other: &str) -> (r: bool) {
        str_eq(self.0.as_str(), other)
    }
}

impl vstd::std_specs::cmp::PartialEqSpecImpl<str> for Name {
    open spec fn obeys_eq_spec() -> bool {
        true
    }

    open spec fn eq_spec(&self, other: &str) -> bool {
        self@ == other@
    }
}

impl<'a> PartialEq<&'a str> for Name {
    fn eq(&self, other: &&'a str) -> (r: bool) {
        str_eq(self.0.as_str(), *other)
    }
}

impl<'a> vstd::std_specs::cmp::PartialEqSpecImpl<&'a str> for Name {
    open spec fn obeys_eq_spec() -> bool {
        true
    }

    open spec fn eq_spec(&self, other: &&'a str) -> bool {
        self@ == (*other)@
    }
}

impl std::ops::Deref for Name {
    type Target = str;

    fn deref(&self) -> (r: &str)
        ensures r@ == self@,
    {
        self.0.as_str()
    }
}

impl<'a> TryFrom<&'a str> for Name {
    type Error = XmlError;

    fn try_from(other: &'a str) -> (r: Result<Name, XmlError>)
        ensures
            r is Ok <==> is_valid_name(other@),
            r matches Ok(n) ==> n@ == other@,
    {
        Name::from_str(other)
    }
}

impl<'a> vstd::std_specs::convert::TryFromSpecImpl<&'a str> for Name {
    open spec fn obeys_try_from_spec() -> bool {
        false
    }

    open spec fn try_from_spec(v: &'a str) -> Result<Name, XmlError> {
        Err(XmlError::from_validation_spec(validation::name_error(v@)))
    }
}

/// String which conforms to the `NCName` production of Namespaces in XML 1.0
/// (a `Name` without colons).
#[derive(Debug, Hash)]
pub struct NCName(String);

/// Borrowed form of [`NCName`]; the borrowed and owned forms share one type.
pub type NCNameStr = NCName;

impl View for NCName {
    type V = Seq<char>;

    closed spec fn view(&self) -> Seq<char> {
        self.0@
    }
}

impl NCName {
    #[verifier::type_invariant]
    closed spec fn inv(self) -> bool {
        is_valid_ncname(self.0@)
    }

    /// The contents satisfy the type's grammar.
    pub fn check_invariant(&self)
        ensures is_valid_ncname(self@),
    {
        proof { use_type_invariant(self); }
    }

    /// Converts a [`str`] to a `NCName`; an error is returned if it does not
    /// conform to the `NCName` production.
    pub fn from_str(s: &str) -> (r: Result<NCName, XmlError>)
        ensures
            r is Ok <==> is_valid_ncname(s@),
            r matches Ok(n) ==> n@ == s@,
            r matches Err(e) ==> e == XmlError::from_validation_spec(validation::ncname_error(s@)),
    {
        match validation::validate_ncname(s) {
            Ok(()) => Ok(NCName(s.to_owned())),
            Err(e) => Err(XmlError::from_validation(e)),
        }
    }

    /// Converts a [`String`] to a `NCName`; an error is returned if it does not
    /// conform to the `NCName` production.
    pub fn from_string(s: String) -> (r: Result<NCName, XmlError>)
        ensures
            r is Ok <==> is_valid_ncname(s@),
            r matches Ok(n) ==> n@ == s@,
            r matches Err(e) ==> e == XmlError::from_validation_spec(validation::ncname_error(s@)),
    {
        match validation::validate_ncname(s.as_str()) {
            Ok(()) => Ok(NCName(s)),
            Err(e) => Err(XmlError::from_validation(e)),
        }
    }

    /// Extract the inner string.
    pub fn into_inner(self) -> (r: String)
        ensures r@ == self@, is_valid_ncname(r@),
    {
        proof { use_type_invariant(&self); }
        self.0
    }

    /// Obtain a reference to the inner string slice.
    pub fn as_str(&self) -> (r: &str)
        ensures r@ == self@, is_valid_ncname(r@),
    {
        proof { use_type_invariant(self); }
        self.0.as_str()
    }

    /// Create an owned copy.
    pub fn to_ncname(&self) -> (r: NCName)
        ensures r@ == self@,
    {
        proof { use_type_invariant(self); }
        NCName(self.0.clone())
    }
}

impl Clone for NCName {
    fn clone(&self) -> (r: NCName)
        ensures r@ == self@,
    {
        self.to_ncname()
    }
}

impl PartialEq for NCName {
    fn eq(&self, other: &NCName) -> (r: bool) {
        str_eq(self.0.as_str(), other.0.as_str())
    }
}

impl vstd::std_specs::cmp::PartialEqSpecImpl for NCName {
    open spec fn obeys_eq_spec() -> bool {
        true
    }

    open spec fn eq_spec(&self, other: &NCName) -> bool {
        self@ == other@
    }
}

impl Eq for NCName {}

impl PartialEq<str> for NCName {
    fn eq(&self, other: &str) -> (r: bool) {
        str_eq(self.0.as_str(), other)
    }
}

impl vstd::std_specs::cmp::PartialEqSpecImpl<str> for NCName {
    open spec fn obeys_eq_spec() -> bool {
        true
    }

    open spec fn eq_spec(&self, other: &str) -> bool {
        self@ == other@
    }
}

impl<'a> PartialEq<&'a str> for NCName {
    fn eq(&self, other: &&'a str) -> (r: bool) {
        str_eq(self.0.as_str(), *other)
    }
}

impl<'a> vstd::std_specs::cmp::PartialEqSpecImpl<&'a str> for NCName {
    open spec fn obeys_eq_spec() -> bool {
        true
    }

    open spec fn eq_spec(&self, other: &&'a str) -> bool {
        self@ == (*other)@
    }
}

impl std::ops::Deref for NCName {
    type Target = str;

    fn deref(&self) -> (r: &str)
        ensures r@ == self@,
    {
        self.0.as_str()
    }
}

impl<'a> TryFrom<&'a str> for NCName {
    type Error = XmlError;

    fn try_from(other: &'a str) -> (r: Result<NCName, XmlError>)
        ensures
            r is Ok <==> is_valid_ncname(other@),
            r matches Ok(n) ==> n@ == other@,
    {
        NCName::from_str(other)
    }
}

impl<'a> vstd::std_specs::convert::TryFromSpecImpl<&'a str> for NCName {
    open spec fn obeys_try_from_spec() -> bool {
        false
    }

    open spec fn try_from_spec(v: &'a str) -> Result<NCName, XmlError> {
        Err(XmlError::from_validation_spec(validation::ncname_error(v@)))
    }
}

/// String which consists only of XML 1.0 `Char`s.
#[derive(Debug, Hash)]
pub struct CData(String);

/// Borrowed form of [`CData`]; the borrowed and owned forms share one type.
pub type CDataStr = CData;

impl View for CData {
    type V = Seq<char>;

    closed spec fn view(&self) -> Seq<char> {
        self.0@
    }
}

impl CData {
    #[verifier::type_invariant]
    closed spec fn inv(self) -> bool {
        is_valid_cdata(self.0@)
    }

    /// The contents consist of XML 1.0 `Char`s only.
    pub fn check_invariant(&self)
        ensures is_valid_cdata(self@),
    {
        proof { use_type_invariant(self); }
    }

    /// Converts a [`str`] to a `CData`; an error is returned if it does not
    /// consist of XML 1.0 `Char`s only.
    pub fn from_str(s: &str) -> (r: Result<CData, XmlError>)
        ensures
            r is Ok <==> is_valid_cdata(s@),
            r matches Ok(n) ==> n@ == s@,
            r matches Err(e) ==> e == XmlError::from_validation_spec(validation::cdata_error(s@)),
    {
        match validation::validate_cdata(s) {
            Ok(()) => Ok(CData(s.to_owned())),
            Err(e) => Err(XmlError::from_validation(e)),
        }
    }

    /// Converts a [`String`] to a `CData`; an error is returned if it does not
    /// consist of XML 1.0 `Char`s only.
    pub fn from_string(s: String) -> (r: Result<CData, XmlError>)
        ensures
            r is Ok <==> is_valid_cdata(s@),
            r matches Ok(n) ==> n@ == s@,
            r matches Err(e) ==> e == XmlError::from_validation_spec(validation::cdata_error(s@)),
    {
        match validation::validate_cdata(s.as_str()) {
            Ok(()) => Ok(CData(s)),
            Err(e) => Err(XmlError::from_validation(e)),
        }
    }

    /// Extract the inner string.
    pub fn into_inner(self) -> (r: String)
        ensures r@ == self@, is_valid_cdata(r@),
    {
        proof { use_type_invariant(&self); }
        self.0
    }

    /// Obtain a reference to the inner string slice.
    pub fn as_str(&self) -> (r: &str)
        ensures r@ == self@, is_valid_cdata(r@),
    {
        proof { use_type_invariant(self); }
        self.0.as_str()
    }

    /// Create an owned copy.
    pub fn to_cdata(&self) -> (r: CData)
        ensures r@ == self@,
    {
        proof { use_type_invariant(self); }
        CData(self.0.clone())
    }
}

impl Clone for CData {
    fn clone(&self) -> (r: CData)
        ensures r@ == self@,
    {
        self.to_cdata()
    }
}

impl PartialEq for CData {
    fn eq(&self, other: &CData) -> (r: bool) {
        str_eq(self.0.as_str(), other.0.as_str())
    }
}

impl vstd::std_specs::cmp::PartialEqSpecImpl for CData {
    open spec fn obeys_eq_spec() -> bool {
        true
    }

    open spec fn eq_spec(&self, other: &CData) -> bool {
        self@ == other@
    }
}

impl Eq for CData {}

impl PartialEq<str> for CData {
    fn eq(&self, other: &str) -> (r: bool) {
        str_eq(self.0.as_str(), other)
    }
}

impl vstd::std_specs::cmp::PartialEqSpecImpl<str> for CData {
    open spec fn obeys_eq_spec() -> bool {
        true
    }

    open spec fn eq_spec(&self, other: &str) -> bool {
        self@ == other@
    }
}

impl<'a> PartialEq<&'a str> for CData {
    fn eq(&self, other: &&'a str) -> (r: bool) {
        str_eq(self.0.as_str(), *other)
    }
}

impl<'a> vstd::std_specs::cmp::PartialEqSpecImpl<&'a str> for CData {
    open spec fn obeys_eq_spec() -> bool {
        true
    }

    open spec fn eq_spec(&self, other: &&'a str) -> bool {
        self@ == (*other)@
    }
}

impl std::ops::Deref for CData {
    type Target = str;

    fn deref(&self) -> (r: &str)
        ensures r@ == self@,
    {
        self.0.as_str()
    }
}

impl<'a> TryFrom<&'a str> for CData {
    type Error = XmlError;

    fn try_from(other: &'a str) -> (r: Result<CData, XmlError>)
        ensures
            r is Ok <==> is_valid_cdata(other@),
            r matches Ok(n) ==> n@ == other@,
    {
        CData::from_str(other)
    }
}

impl<'a> vstd::std_specs::convert::TryFromSpecImpl<&'a str> for CData {
    open spec fn obeys_try_from_spec() -> bool {
        false
    }

    open spec fn try_from_spec(v: &'a str) -> Result<CData, XmlError> {
        Err(XmlError::from_validation_spec(validation::cdata_error(v@)))
    }
}

/// An `NCName` is a `Name`.
pub proof fn lemma_ncname_is_name(s: Seq<char>)
    requires is_valid_ncname(s),
    ensures is_valid_name(s),
{
    assert forall|i: int| 0 <= i < s.len() implies #[trigger] name_pos_ok(s, i) by {
        assert(ncname_pos_ok(s, i));
    }
}

/// A `Name` consists of XML characters.
pub proof fn lemma_name_is_cdata(s: Seq<char>)
    requires is_valid_name(s),
    ensures is_valid_cdata(s),
{
    assert forall|i: int| 0 <= i < s.len() implies #[trigger] is_xml_char(s[i]) by {
        assert(name_pos_ok(s, i));
    }
}

/// `s` contains no colon.
pub open spec fn colon_free(s: Seq<char>) -> bool {
    forall|i: int| 0 <= i < s.len() ==> s[i] != ':'
}

/// `k` is the index of the first colon in `s`.
pub open spec fn is_first_colon(s: Seq<char>, k: int) -> bool {
    &&& 0 <= k < s.len()
    &&& s[k] == ':'
    &&& colon_free(s.subrange(0, k))
}

/// What [`Name::split_name`] makes of a name with the characters `s`: no
/// prefix if there is no colon; otherwise the parts before and after the
/// first colon, provided neither is empty, the local part holds no second
/// colon and starts with a `NameStartChar`.
pub open spec fn split_name_spec(s: Seq<char>) -> Result<(Option<Seq<char>>, Seq<char>), XmlError> {
    if colon_free(s) {
        Ok((None, s))
    } else {
        let k = choose|k: int| is_first_colon(s, k);
        if k == 0 || k == s.len() - 1 {
            Err(XmlError::EmptyNamePart(ERRCTX_UNKNOWN))
        } else {
            let local = s.subrange(k + 1, s.len() as int);
            if !colon_free(local) {
                Err(XmlError::MultiColonName(ERRCTX_UNKNOWN))
            } else if !is_name_start_char(local[0]) {
                Err(XmlError::InvalidLocalName(ERRCTX_UNKNOWN))
            } else {
                Ok((Some(s.subrange(0, k)), local))
            }
        }
    }
}

proof fn lemma_first_colon_unique(s: Seq<char>, k1: int, k2: int)
    requires is_first_colon(s, k1), is_first_colon(s, k2),
    ensures k1 == k2,
{
    if k1 < k2 { assert(s.subrange(0, k2)[k1] == s[k1]); }
    if k2 < k1 { assert(s.subrange(0, k1)[k2] == s[k2]); }
}

impl Name {
    /// Split the name at a colon, if it exists.
    ///
    /// Without a colon, the result is `(None, self)`. With exactly one colon,
    /// the part before it is the prefix and the part after it the local
    /// name. An empty side, a second colon or a local name which does not
    /// start with a `NameStartChar` is an error.
    pub fn split_name(self) -> (r: Result<(Option<NCName>, NCName), XmlError>)
        ensures
            match (r, split_name_spec(self@)) {
                (Ok((p, l)), Ok((sp, sl))) => l@ == sl && match (p, sp) {
                    (None, None) => true,
                    (Some(p), Some(sp)) => p@ == sp,
                    _ => false,
                },
                (Err(e), Err(se)) => e == se,
                _ => false,
            },
    {
        proof { use_type_invariant(&self); }
        let ghost sv = self@;
        let s = self.0.as_str();
        let n = s.unicode_len();
        let mut colon: Option<usize> = None;
        let mut idx: usize = 0;
        for c in it: s.chars()
            invariant
                it.seq() == sv,
                idx == it.index(),
                n == sv.len(),
                colon is None ==> colon_free(sv.subrange(0, idx as int)),
                colon matches Some(k) ==> is_first_colon(sv, k as int),
        {
            if colon.is_none() && c == ':' {
                colon = Some(idx);
                assert(sv.subrange(0, idx as int) =~= sv.subrange(0, idx as int));
            }
            if colon.is_none() {
                assert(sv.subrange(0, idx + 1) =~= sv.subrange(0, idx as int).push(c));
            }
            idx = idx + 1;
        }
        match colon {
            None => {
                assert(sv.subrange(0, n as int) =~= sv);
                assert forall|i: int| 0 <= i < sv.len() implies #[trigger] ncname_pos_ok(sv, i) by {
                    assert(name_pos_ok(sv, i));
                    assert(sv.subrange(0, n as int)[i] == sv[i]);
                }
                Ok((None, NCName(self.0)))
            },
            Some(k) => {
                proof {
                    let k2 = choose|k2: int| is_first_colon(sv, k2);
                    lemma_first_colon_unique(sv, k as int, k2);
                }
                if k == 0 || k == n - 1 {
                    return Err(XmlError::EmptyNamePart(ERRCTX_UNKNOWN));
                }
                let local = s.substring_char(k + 1, n);
                let ghost lv = local@;
                let mut has_colon = false;
                let mut first: Option<char> = None;
                for c in it: local.chars()
                    invariant
                        it.seq() == lv,
                        lv.len() > 0,
                        !has_colon ==> colon_free(lv.subrange(0, it.index())),
                        has_colon ==> !colon_free(lv),
                        it.index() > 0 ==> first == Some(lv[0]),
                        it.index() == 0 ==> first is None,
                {
                    if first.is_none() {
                        first = Some(c);
                    }
                    if c == ':' {
                        has_colon = true;
                    }
                    assert(lv.subrange(0, it.index() + 1) =~= lv.subrange(0, it.index()).push(c));
                }
                if has_colon {
                    return Err(XmlError::MultiColonName(ERRCTX_UNKNOWN));
                }
                assert(lv.subrange(0, lv.len() as int) =~= lv);
                let fc = match first {
                    Some(c) => c,
                    None => { return Err(XmlError::MultiColonName(ERRCTX_UNKNOWN)); },
                };
                if !validation::select_name_start(fc) {
                    return Err(XmlError::InvalidLocalName(ERRCTX_UNKNOWN));
                }
                let prefix = s.substring_char(0, k);
                let ghost pv = prefix@;
                assert forall|i: int| 0 <= i < pv.len() implies #[trigger] ncname_pos_ok(pv, i) by {
                    assert(pv[i] == sv[i]);
                    assert(name_pos_ok(sv, i));
                    assert(sv.subrange(0, k as int)[i] == sv[i]);
                }
                assert forall|i: int| 0 <= i < lv.len() implies #[trigger] ncname_pos_ok(lv, i) by {
                    assert(lv[i] == sv[i + k + 1]);
                    assert(name_pos_ok(sv, i + k + 1));
                }
                Ok((Some(NCName(prefix.to_owned())), NCName(local.to_owned())))
            },
        }
    }
}

/// The characters of `prefix:local`.
pub open spec fn join_qname(prefix: Seq<char>, local: Seq<char>) -> Seq<char> {
    prefix + seq![':'] + local
}

proof fn lemma_join_valid(p: Seq<char>, l: Seq<char>)
    requires is_valid_ncname(p), is_valid_ncname(l),
    ensures is_valid_name(join_qname(p, l)),
{
    let j = join_qname(p, l);
    assert forall|i: int| 0 <= i < j.len() implies #[trigger] name_pos_ok(j, i) by {
        if i < p.len() {
            assert(ncname_pos_ok(p, i));
            assert(j[i] == p[i]);
        } else if i == p.len() {
            assert(j[i] == ':');
            assert(is_name_start_char(':'));
        } else {
            assert(j[i] == l[i - p.len() - 1]);
            assert(ncname_pos_ok(l, i - p.len() - 1));
        }
    }
}

fn concat_str(a: &str, b: &str) -> (r: String)
    ensures r@ == a@ + b@,
{
    let mut out = a.to_owned();
    out.append(b);
    out
}

impl NCName {
    /// Convert the `NCName` into a [`Name`].
    pub fn as_name(self) -> (r: Name)
        ensures r@ == self@,
    {
        proof {
            use_type_invariant(&self);
            lemma_ncname_is_name(self@);
        }
        Name(self.0)
    }

    /// Compose two `NCName`s to one [`Name`], separating them with a colon.
    ///
    /// This is the inverse of [`Name::split_name()`].
    pub fn add_suffix(self, suffix: &NCNameStr) -> (r: Name)
        ensures r@ == join_qname(self@, suffix@),
    {
        self.with_suffix(suffix)
    }

    /// Create an owned copy of the string as [`Name`].
    pub fn to_name(&self) -> (r: Name)
        ensures r@ == self@,
    {
        self.to_ncname().as_name()
    }

    /// The string as a [`NameStr`]: every `NCName` is a valid `Name`. The
    /// borrowed and owned forms share one type, so this is a copy.
    pub fn as_namestr(&self) -> (r: Name)
        ensures r@ == self@,
    {
        self.to_name()
    }

    /// Compose this and another `NCName` to one [`Name`], separating them
    /// with a colon.
    pub fn with_suffix(&self, suffix: &NCNameStr) -> (r: Name)
        ensures r@ == join_qname(self@, suffix@),
    {
        proof {
            use_type_invariant(self);
            use_type_invariant(suffix);
            lemma_join_valid(self@, suffix@);
        }
        let with_colon = concat_str(self.0.as_str(), ":");
        proof { reveal_strlit(":"); }
        let s = concat_str(with_colon.as_str(), suffix.0.as_str());
        assert(s@ =~= join_qname(self@, suffix@));
        Name(s)
    }
}

impl From<NCName> for Name {
    fn from(other: NCName) -> (r: Name)
        ensures r@ == other@,
    {
        other.as_name()
    }
}

impl vstd::std_specs::convert::FromSpecImpl<NCName> for Name {
    open spec fn obeys_from_spec() -> bool {
        false
    }

    open spec fn from_spec(v: NCName) -> Name {
        arbitrary()
    }
}

impl CData {
    /// The characters of a [`Name`] as character data.
    pub fn from_name(other: Name) -> (r: CData)
        ensures r@ == other@,
    {
        let s = other.into_inner();
        proof { lemma_name_is_cdata(s@); }
        CData(s)
    }

    /// The characters of an [`NCName`] as character data.
    pub fn from_ncname(other: NCName) -> (r: CData)
        ensures r@ == other@,
    {
        CData::from_name(other.as_name())
    }

    /// Append character data.
    pub fn concat(self, rhs: &CData) -> (r: CData)
        ensures r@ == self@ + rhs@,
    {
        proof {
            use_type_invariant(&self);
            use_type_invariant(rhs);
        }
        let s = concat_str(self.0.as_str(), rhs.0.as_str());
        assert forall|i: int| 0 <= i < s@.len() implies #[trigger] is_xml_char(s@[i]) by {
            if i < self@.len() {
                assert(s@[i] == self@[i]);
            } else {
                assert(s@[i] == rhs@[i - self@.len()]);
            }
        }
        CData(s)
    }
}

impl<'a> vstd::std_specs::ops::AddSpecImpl<&'a CData> for CData {
    open spec fn obeys_add_spec() -> bool {
        false
    }

    open spec fn add_req(self, rhs: &'a CData) -> bool {
        true
    }

    open spec fn add_spec(self, rhs: &'a CData) -> CData {
        arbitrary()
    }
}

impl<'a> std::ops::Add<&'a CData> for CData {
    type Output = CData;

    fn add(self, rhs: &'a CData) -> (r: CData)
        ensures r@ == self@ + rhs@,
    {
        self.concat(rhs)
    }
}

/// Splitting a name built from two `NCName`s with [`NCName::add_suffix`]
/// gives back both parts.
pub proof fn law_split_name_inverts_add_suffix(prefix: Seq<char>, local: Seq<char>)
    requires is_valid_ncname(prefix), is_valid_ncname(local),
    ensures split_name_spec(join_qname(prefix, local)) == Ok::<(Option<Seq<char>>, Seq<char>), XmlError>((Some(prefix), local)),
{
    let j = join_qname(prefix, local);
    let k = prefix.len() as int;
    assert(j[k] == ':');
    assert(j.subrange(0, k) =~= prefix);
    assert(colon_free(prefix)) by {
        assert forall|i: int| 0 <= i < prefix.len() implies prefix[i] != ':' by {
            assert(ncname_pos_ok(prefix, i));
        }
    }
    assert(is_first_colon(j, k));
    assert(!colon_free(j));
    let k2 = choose|k2: int| is_first_colon(j, k2);
    lemma_first_colon_unique(j, k, k2);
    assert(j.subrange(k + 1, j.len() as int) =~= local);
    assert(colon_free(local)) by {
        assert forall|i: int| 0 <= i < local.len() implies local[i] != ':' by {
            assert(ncname_pos_ok(local, i));
        }
    }
    assert(ncname_pos_ok(local, 0));
    assert(prefix.len() > 0 && local.len() > 0);
}

/// An `NCName` seen as a name splits into no prefix and itself.
pub proof fn law_split_name_of_ncname(s: Seq<char>)
    requires is_valid_ncname(s),
    ensures split_name_spec(s) == Ok::<(Option<Seq<char>>, Seq<char>), XmlError>((None, s)),
{
    assert forall|i: int| 0 <= i < s.len() implies s[i] != ':' by {
        assert(ncname_pos_ok(s, i));
    }
}

/// The code of `c` after ASCII lowercasing.
pub open spec fn ascii_lower_code(c: char) -> u32 {
    if 65 <= (c as u32) <= 90 { ((c as u32) + 32) as u32 } else { c as u32 }
}

/// `a` and `b` are equal up to the case of ASCII letters.
pub open spec fn ascii_ci_eq_spec(a: Seq<char>, b: Seq<char>) -> bool {
    &&& a.len() == b.len()
    &&& forall|i: int| 0 <= i < a.len() ==> ascii_lower_code(#[trigger] a[i]) == ascii_lower_code(b[i])
}

/// Whether the characters `x` and `y` are equal, or are the upper- and the
/// lower-case form of the same ASCII letter (in either order).
pub open spec fn same_up_to_ascii_case(x: char, y: char) -> bool {
    let a = x as u32;
    let b = y as u32;
    ||| a == b
    ||| (65 <= a <= 90 && b == a + 32)
    ||| (65 <= b <= 90 && a == b + 32)
}

/// Two strings match ignoring ASCII case exactly when they have the same
/// length and, position by position, the characters are equal or are the
/// two cases of the same ASCII letter: `UTF-8` matches `utf-8`, and no
/// other character is folded.
pub proof fn law_ascii_case_insensitive_match(a: Seq<char>, b: Seq<char>)
    ensures
        ascii_ci_eq_spec(a, b) <==> (a.len() == b.len()
            && forall|i: int| 0 <= i < a.len() ==> #[trigger] same_up_to_ascii_case(a[i], b[i])),
{
    if a.len() == b.len() {
        assert forall|i: int| 0 <= i < a.len() implies
            (ascii_lower_code(a[i]) == ascii_lower_code(b[i]) <==> #[trigger] same_up_to_ascii_case(a[i], b[i])) by {
        }
        if ascii_ci_eq_spec(a, b) {
            assert forall|i: int| 0 <= i < a.len() implies #[trigger] same_up_to_ascii_case(a[i], b[i]) by {
                assert(ascii_lower_code(a[i]) == ascii_lower_code(b[i]));
            }
        }
        if forall|i: int| 0 <= i < a.len() ==> #[trigger] same_up_to_ascii_case(a[i], b[i]) {
            assert forall|i: int| 0 <= i < a.len() implies ascii_lower_code(#[trigger] a[i]) == ascii_lower_code(b[i]) by {
                assert(same_up_to_ascii_case(a[i], b[i]));
            }
        }
    }
}

fn lower_code(c: char) -> (r: u32)
    ensures r == ascii_lower_code(c),
{
    let v = c as u32;
    if v >= 65 && v <= 90 { v + 32 } else { v }
}

pub(crate) fn collect_chars(s: &str) -> (r: Vec<char>)
    ensures r@ == s@,
{
    let ghost sv = s@;
    let mut v: Vec<char> = Vec::new();
    for c in it: s.chars()
        invariant
            it.seq() == sv,
            v@ == sv.subrange(0, it.index() as int),
    {
        v.push(c);
        assert(v@ =~= sv.subrange(0, it.index() + 1));
    }
    assert(v@ =~= sv);
    v
}

/// Whether two strings are an ASCII case-insensitive match (as
/// `str::eq_ignore_ascii_case` defines it).
pub fn eq_ignore_ascii_case(a: &str, b: &str) -> (r: bool)
    ensures r == ascii_ci_eq_spec(a@, b@),
{
    let av = collect_chars(a);
    let bv = collect_chars(b);
    if av.len() != bv.len() {
        return false;
    }
    let mut i: usize = 0;
    while i < av.len()
        invariant
            av@ == a@,
            bv@ == b@,
            av.len() == bv.len(),
            i <= av.len(),
            forall|j: int| 0 <= j < i ==> ascii_lower_code(#[trigger] a@[j]) == ascii_lower_code(b@[j]),
        decreases av.len() - i,
    {
        if lower_code(av[i]) != lower_code(bv[i]) {
            return false;
        }
        i = i + 1;
    }
    true
}

} // verus!
