//! Attribute values and the fixed-schema source and destination entities.
use vstd::prelude::*;

use crate::error::AbacError;
use crate::text::str_eq;

verus! {

/// The mathematical value of an [`AttributeValue`].
pub enum AttrVal {
    Str(Seq<char>),
    Num(i64),
    Strings(Seq<Seq<char>>),
    Bool(bool),
}

/// A typed attribute value. A `StringSet` is an ordered sequence of strings.
#[derive(Debug, Clone)]
pub enum AttributeValue {
    String(String),
    Number(i64),
    StringSet(Vec<String>),
    Boolean(bool),
}

impl View for AttributeValue {
    type V = AttrVal;

    open spec fn view(&self) -> AttrVal {
        match self {
            AttributeValue::String(s) => AttrVal::Str(s@),
            AttributeValue::Number(n) => AttrVal::Num(*n),
            AttributeValue::StringSet(v) => AttrVal::Strings(v.deep_view()),
            AttributeValue::Boolean(b) => AttrVal::Bool(*b),
        }
    }
}

/// Whether `s` holds a string equal to `x`.
pub fn contains_str(s: &Vec<String>, x: &String) -> (r: bool)
    ensures
        r == s.deep_view().contains(x@),
{
    let mut i: usize = 0;
    while i < s.len()
        invariant
            i <= s.len(),
            forall|j: int| 0 <= j < i ==> s.deep_view()[j] != x@,
        decreases s.len() - i,
    {
        if s[i] == *x {
            proof {
                assert(s.deep_view()[i as int] == x@);
            }
            return true;
        }
        i = i + 1;
    }
    false
}

fn str_vec_eq(a: &Vec<String>, b: &Vec<String>) -> (r: bool)
    ensures
        r == (a.deep_view() == b.deep_view()),
{
    if a.len() != b.len() {
        proof {
            assert(a.deep_view().len() != b.deep_view().len());
        }
        return false;
    }
    let mut i: usize = 0;
    while i < a.len()
        invariant
            a.len() == b.len(),
            i <= a.len(),
            forall|j: int| 0 <= j < i ==> a.deep_view()[j] == b.deep_view()[j],
        decreases a.len() - i,
    {
        if a[i] != b[i] {
            proof {
                assert(a.deep_view()[i as int] != b.deep_view()[i as int]);
            }
            return false;
        }
        i = i + 1;
    }
    proof {
        assert(a.deep_view() =~= b.deep_view());
    }
    true
}

/// Copies a string vector element by element.
pub fn copy_strings(v: &Vec<String>) -> (r: Vec<String>)
    ensures
        r.deep_view() == v.deep_view(),
{
    let mut out: Vec<String> = Vec::new();
    let mut i: usize = 0;
    while i < v.len()
        invariant
            i <= v.len(),
            out.len() == i,
            forall|j: int| 0 <= j < i ==> out@[j]@ == v@[j]@,
        decreases v.len() - i,
    {
        out.push(v[i].clone());
        i = i + 1;
    }
    proof {
        assert(out.deep_view() =~= v.deep_view());
    }
    out
}

impl AttributeValue {
    /// A copy with the same value.
    pub fn copy(&self) -> (r: AttributeValue)
        ensures
            r@ == self@,
    {
        match self {
            AttributeValue::String(s) => AttributeValue::String(s.clone()),
            AttributeValue::Number(n) => AttributeValue::Number(*n),
            AttributeValue::StringSet(v) => AttributeValue::StringSet(copy_strings(v)),
            AttributeValue::Boolean(b) => AttributeValue::Boolean(*b),
        }
    }
}

impl PartialEq for AttributeValue {
    /// Structural equality: same variant and same contents, no coercion.
    fn eq(&self, other: &AttributeValue) -> (r: bool)
        ensures
            r == (self@ == other@),
    {
        match (self, other) {
            (AttributeValue::String(a), AttributeValue::String(b)) => *a == *b,
            (AttributeValue::Number(a), AttributeValue::Number(b)) => *a == *b,
            (AttributeValue::StringSet(a), AttributeValue::StringSet(b)) => str_vec_eq(a, b),
            (AttributeValue::Boolean(a), AttributeValue::Boolean(b)) => *a == *b,
            _ => false,
        }
    }
}

impl vstd::std_specs::cmp::PartialEqSpecImpl for AttributeValue {
    open spec fn obeys_eq_spec() -> bool {
        true
    }

    open spec fn eq_spec(&self, other: &AttributeValue) -> bool {
        self@ == other@
    }
}

/// The attribute keys a source entity can carry.
#[derive(Debug, Clone, Copy, PartialEq, Eq, Hash, Structural)]
pub enum SourceEntityAttributeKey {
    Role,
    Dept,
    TrustScore,
    Groups,
    SessionCount,
}

/// The attribute keys a destination entity can carry.
#[derive(Debug, Clone, Copy, PartialEq, Eq, Hash, Structural)]
pub enum DestinationEntityAttributeKey {
    Type,
    OwnerDept,
    Sensitivity,
    AllowedVLANs,
}

/// The qualified name under which a source key is written, e.g. `Src.Role`.
pub open spec fn src_key_name(k: SourceEntityAttributeKey) -> Seq<char> {
    match k {
        SourceEntityAttributeKey::Role => "Src.Role"@,
        SourceEntityAttributeKey::Dept => "Src.Dept"@,
        SourceEntityAttributeKey::TrustScore => "Src.TrustScore"@,
        SourceEntityAttributeKey::Groups => "Src.Groups"@,
        SourceEntityAttributeKey::SessionCount => "Src.SessionCount"@,
    }
}

/// The qualified name under which a destination key is written, e.g. `Dst.Type`.
pub open spec fn dst_key_name(k: DestinationEntityAttributeKey) -> Seq<char> {
    match k {
        DestinationEntityAttributeKey::Type => "Dst.Type"@,
        DestinationEntityAttributeKey::OwnerDept => "Dst.OwnerDept"@,
        DestinationEntityAttributeKey::Sensitivity => "Dst.Sensitivity"@,
        DestinationEntityAttributeKey::AllowedVLANs => "Dst.AllowedVLANs"@,
    }
}

/// The source key written as `name`, if any.
pub open spec fn src_key_of(name: Seq<char>) -> Option<SourceEntityAttributeKey> {
    if name == "Src.Role"@ {
        Some(SourceEntityAttributeKey::Role)
    } else if name == "Src.Dept"@ {
        Some(SourceEntityAttributeKey::Dept)
    } else if name == "Src.TrustScore"@ {
        Some(SourceEntityAttributeKey::TrustScore)
    } else if name == "Src.Groups"@ {
        Some(SourceEntityAttributeKey::Groups)
    } else if name == "Src.SessionCount"@ {
        Some(SourceEntityAttributeKey::SessionCount)
    } else {
        None
    }
}

/// The destination key written as `name`, if any.
pub open spec fn dst_key_of(name: Seq<char>) -> Option<DestinationEntityAttributeKey> {
    if name == "Dst.Type"@ {
        Some(DestinationEntityAttributeKey::Type)
    } else if name == "Dst.OwnerDept"@ {
        Some(DestinationEntityAttributeKey::OwnerDept)
    } else if name == "Dst.Sensitivity"@ {
        Some(DestinationEntityAttributeKey::Sensitivity)
    } else if name == "Dst.AllowedVLANs"@ {
        Some(DestinationEntityAttributeKey::AllowedVLANs)
    } else {
        None
    }
}

/// The value stored under `k` in an association list: the first pair with that key.
pub open spec fn assoc<K, V>(s: Seq<(K, V)>, k: K) -> Option<V>
    decreases s.len(),
{
    if s.len() == 0 {
        None
    } else if s[0].0 == k {
        Some(s[0].1)
    } else {
        assoc(s.drop_first(), k)
    }
}

pub(crate) proof fn lemma_assoc_step<K, V>(s: Seq<(K, V)>, i: int, k: K)
    requires
        0 <= i < s.len(),
    ensures
        assoc(s.skip(i), k) == (if s[i].0 == k {
            Some(s[i].1)
        } else {
            assoc(s.skip(i + 1), k)
        }),
{
    assert(s.skip(i).drop_first() =~= s.skip(i + 1));
}

pub(crate) proof fn lemma_assoc_end<K, V>(s: Seq<(K, V)>, k: K)
    ensures
        assoc(s.skip(s.len() as int), k) == None::<V>,
{
    assert(s.skip(s.len() as int) =~= Seq::<(K, V)>::empty());
}

pub(crate) proof fn lemma_assoc_start<K, V>(s: Seq<(K, V)>, k: K)
    ensures
        assoc(s.skip(0), k) == assoc(s, k),
{
    assert(s.skip(0) =~= s);
}

/// A source entity: an address, an optional description, and its attributes.
#[derive(Debug, Clone)]
pub struct SourceEntity {
    pub ip: String,
    pub attributes: Vec<(SourceEntityAttributeKey, AttributeValue)>,
    pub desc: Option<String>,
}

/// A destination entity: an address, an optional description, and its attributes.
#[derive(Debug, Clone)]
pub struct DestinationEntity {
    pub ip: String,
    pub attributes: Vec<(DestinationEntityAttributeKey, AttributeValue)>,
    pub desc: Option<String>,
}

impl SourceEntity {
    /// The value of attribute `k`, if the entity carries it.
    pub open spec fn attr(&self, k: SourceEntityAttributeKey) -> Option<AttrVal> {
        match assoc(self.attributes@, k) {
            Some(v) => Some(v@),
            None => None,
        }
    }

    /// An entity with no attributes.
    pub fn new(ip: String, desc: Option<String>) -> (r: SourceEntity)
        ensures
            r.ip == ip,
            r.desc == desc,
            forall|k: SourceEntityAttributeKey| r.attr(k) == None::<AttrVal>,
    {
        SourceEntity { ip, attributes: Vec::new(), desc }
    }

    /// The value stored under `k`.
    pub fn get_attribute(&self, k: SourceEntityAttributeKey) -> (r: Option<&AttributeValue>)
        ensures
            match r {
                Some(v) => self.attr(k) == Some(v@),
                None => self.attr(k) == None::<AttrVal>,
            },
    {
        let mut i: usize = 0;
        proof {
            lemma_assoc_start(self.attributes@, k);
        }
        while i < self.attributes.len()
            invariant
                i <= self.attributes.len(),
                assoc(self.attributes@.skip(i as int), k) == assoc(self.attributes@, k),
            decreases self.attributes.len() - i,
        {
            proof {
                lemma_assoc_step(self.attributes@, i as int, k);
            }
            if self.attributes[i].0 == k {
                return Some(&self.attributes[i].1);
            }
            i = i + 1;
        }
        proof {
            lemma_assoc_end(self.attributes@, k);
        }
        None
    }

    /// Parses a qualified source attribute name such as `Src.Role`.
    pub fn parse_attribute_key(key: &str) -> (r: Result<SourceEntityAttributeKey, AbacError>)
        ensures
            match r {
                Ok(k) => src_key_of(key@) == Some(k),
                Err(e) => src_key_of(key@) is None && e is UnknownKey,
            },
    {
        if str_eq(key, "Src.Role") {
            Ok(SourceEntityAttributeKey::Role)
        } else if str_eq(key, "Src.Dept") {
            Ok(SourceEntityAttributeKey::Dept)
        } else if str_eq(key, "Src.TrustScore") {
            Ok(SourceEntityAttributeKey::TrustScore)
        } else if str_eq(key, "Src.Groups") {
            Ok(SourceEntityAttributeKey::Groups)
        } else if str_eq(key, "Src.SessionCount") {
            Ok(SourceEntityAttributeKey::SessionCount)
        } else {
            Err(AbacError::UnknownKey(key.to_string()))
        }
    }
}

impl DestinationEntity {
    /// The value of attribute `k`, if the entity carries it.
    pub open spec fn attr(&self, k: DestinationEntityAttributeKey) -> Option<AttrVal> {
        match assoc(self.attributes@, k) {
            Some(v) => Some(v@),
            None => None,
        }
    }

    /// An entity with no attributes.
    pub fn new(ip: String, desc: Option<String>) -> (r: DestinationEntity)
        ensures
            r.ip == ip,
            r.desc == desc,
            forall|k: DestinationEntityAttributeKey| r.attr(k) == None::<AttrVal>,
    {
        DestinationEntity { ip, attributes: Vec::new(), desc }
    }

    /// The value stored under `k`.
    pub fn get_attribute(&self, k: DestinationEntityAttributeKey) -> (r: Option<&AttributeValue>)
        ensures
            match r {
                Some(v) => self.attr(k) == Some(v@),
                None => self.attr(k) == None::<AttrVal>,
            },
    {
        let mut i: usize = 0;
        proof {
            lemma_assoc_start(self.attributes@, k);
        }
        while i < self.attributes.len()
            invariant
                i <= self.attributes.len(),
                assoc(self.attributes@.skip(i as int), k) == assoc(self.attributes@, k),
            decreases self.attributes.len() - i,
        {
            proof {
                lemma_assoc_step(self.attributes@, i as int, k);
            }
            if self.attributes[i].0 == k {
                return Some(&self.attributes[i].1);
            }
            i = i + 1;
        }
        proof {
            lemma_assoc_end(self.attributes@, k);
        }
        None
    }

    /// Parses a qualified destination attribute name such as `Dst.Type`.
    pub fn parse_attribute_key(key: &str) -> (r: Result<DestinationEntityAttributeKey, AbacError>)
        ensures
            match r {
                Ok(k) => dst_key_of(key@) == Some(k),
                Err(e) => dst_key_of(key@) is None && e is UnknownKey,
            },
    {
        if str_eq(key, "Dst.Type") {
            Ok(DestinationEntityAttributeKey::Type)
        } else if str_eq(key, "Dst.OwnerDept") {
            Ok(DestinationEntityAttributeKey::OwnerDept)
        } else if str_eq(key, "Dst.Sensitivity") {
            Ok(DestinationEntityAttributeKey::Sensitivity)
        } else if str_eq(key, "Dst.AllowedVLANs") {
            Ok(DestinationEntityAttributeKey::AllowedVLANs)
        } else {
            Err(AbacError::UnknownKey(key.to_string()))
        }
    }
}

/// The value bound to `name` in a list of named values: the first binding.
pub open spec fn env_assoc(s: Seq<(String, AttributeValue)>, name: Seq<char>) -> Option<AttrVal>
    decreases s.len(),
{
    if s.len() == 0 {
        None
    } else if s[0].0@ == name {
        Some(s[0].1@)
    } else {
        env_assoc(s.drop_first(), name)
    }
}

/// Caller-supplied environment variables, looked up by exact name.
#[derive(Debug, Clone)]
pub struct Environment {
    pub vars: Vec<(String, AttributeValue)>,
}

impl Environment {
    /// The value of variable `name`, if bound.
    pub open spec fn var(&self, name: Seq<char>) -> Option<AttrVal> {
        env_assoc(self.vars@, name)
    }

    /// An environment with no variables.
    pub fn new() -> (r: Environment)
        ensures
            forall|name: Seq<char>| r.var(name) == None::<AttrVal>,
    {
        Environment { vars: Vec::new() }
    }

    /// The value bound to `name`.
    pub fn get(&self, name: &str) -> (r: Option<&AttributeValue>)
        ensures
            match r {
                Some(v) => self.var(name@) == Some(v@),
                None => self.var(name@) == None::<AttrVal>,
            },
    {
        let mut i: usize = 0;
        proof {
            assert(self.vars@.skip(0) =~= self.vars@);
        }
        while i < self.vars.len()
            invariant
                i <= self.vars.len(),
                env_assoc(self.vars@.skip(i as int), name@) == env_assoc(self.vars@, name@),
            decreases self.vars.len() - i,
        {
            proof {
                assert(self.vars@.skip(i as int).drop_first() =~= self.vars@.skip(i + 1));
            }
            if str_eq(self.vars[i].0.as_str(), name) {
                return Some(&self.vars[i].1);
            }
            i = i + 1;
        }
        proof {
            assert(self.vars@.skip(i as int) =~= Seq::<(String, AttributeValue)>::empty());
        }
        None
    }
}

impl SourceEntityAttributeKey {
    /// The qualified name of the key, e.g. `Src.Role`.
    pub fn name(&self) -> (r: &'static str)
        ensures
            r@ == src_key_name(*self),
    {
        match self {
            SourceEntityAttributeKey::Role => "Src.Role",
            SourceEntityAttributeKey::Dept => "Src.Dept",
            SourceEntityAttributeKey::TrustScore => "Src.TrustScore",
            SourceEntityAttributeKey::Groups => "Src.Groups",
            SourceEntityAttributeKey::SessionCount => "Src.SessionCount",
        }
    }
}

impl DestinationEntityAttributeKey {
    /// The qualified name of the key, e.g. `Dst.Type`.
    pub fn name(&self) -> (r: &'static str)
        ensures
            r@ == dst_key_name(*self),
    {
        match self {
            DestinationEntityAttributeKey::Type => "Dst.Type",
            DestinationEntityAttributeKey::OwnerDept => "Dst.OwnerDept",
            DestinationEntityAttributeKey::Sensitivity => "Dst.Sensitivity",
            DestinationEntityAttributeKey::AllowedVLANs => "Dst.AllowedVLANs",
        }
    }
}

} // verus!
