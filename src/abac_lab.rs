//! A line-oriented reader for a small textual ABAC format:
//! `userAttrib(id, key=value, ...)`, `resourceAttrib(id, key=value, ...)` and `rule(...)`.
//! Values are `True` / `False`, a `{a b c}` set, or a plain string.
use vstd::prelude::*;

use crate::error::AbacError;

verus! {

broadcast use vstd::std_specs::vec::group_vec_axioms, vstd::seq::group_seq_axioms;

/// A character of Unicode's White_Space property (what `char::is_whitespace` tests).
pub open spec fn is_ws(c: char) -> bool {
    ('\u{9}' <= c <= '\u{d}') || c == ' ' || c == '\u{85}' || c == '\u{a0}' || c == '\u{1680}'
        || ('\u{2000}' <= c <= '\u{200a}') || c == '\u{2028}' || c == '\u{2029}' || c
        == '\u{202f}' || c == '\u{205f}' || c == '\u{3000}'
}

fn is_ws_exec(c: char) -> (r: bool)
    ensures
        r == is_ws(c),
{
    ('\u{9}' <= c && c <= '\u{d}') || c == ' ' || c == '\u{85}' || c == '\u{a0}' || c
        == '\u{1680}' || ('\u{2000}' <= c && c <= '\u{200a}') || c == '\u{2028}' || c
        == '\u{2029}' || c == '\u{202f}' || c == '\u{205f}' || c == '\u{3000}'
}

/// The index of the first character of `s` that is not white space (`s.len()` if none).
pub open spec fn first_non_ws(s: Seq<char>, i: int) -> int
    decreases s.len() - i,
{
    if i >= s.len() || !is_ws(s[i]) {
        i
    } else {
        first_non_ws(s, i + 1)
    }
}

/// One past the index of the last character of `s[lo..]` that is not white space.
pub open spec fn last_non_ws(s: Seq<char>, lo: int, hi: int) -> int
    decreases hi - lo,
{
    if hi <= lo || !is_ws(s[hi - 1]) {
        hi
    } else {
        last_non_ws(s, lo, hi - 1)
    }
}

/// `s` without leading and trailing white space.
pub open spec fn trim(s: Seq<char>) -> Seq<char> {
    let lo = if 0 <= first_non_ws(s, 0) <= s.len() {
        first_non_ws(s, 0)
    } else {
        0
    };
    s.subrange(lo, last_non_ws(s, lo, s.len() as int))
}

proof fn lemma_first_non_ws_bounds(s: Seq<char>, i: int)
    requires
        0 <= i <= s.len(),
    ensures
        i <= first_non_ws(s, i) <= s.len(),
    decreases s.len() - i,
{
    if i < s.len() && is_ws(s[i]) {
        lemma_first_non_ws_bounds(s, i + 1);
    }
}

proof fn lemma_last_non_ws_bounds(s: Seq<char>, lo: int, hi: int)
    requires
        0 <= lo <= hi <= s.len(),
    ensures
        lo <= last_non_ws(s, lo, hi) <= hi,
    decreases hi - lo,
{
    if hi > lo && is_ws(s[hi - 1]) {
        lemma_last_non_ws_bounds(s, lo, hi - 1);
    }
}

/// The bounds of `s` without its surrounding white space.
fn trim_bounds(s: &str) -> (r: (usize, usize))
    ensures
        r.0 <= r.1 <= s@.len(),
        s@.subrange(r.0 as int, r.1 as int) == trim(s@),
{
    let n = s.unicode_len();
    let mut lo: usize = 0;
    while lo < n && is_ws_exec(s.get_char(lo))
        invariant
            n == s@.len(),
            lo <= n,
            first_non_ws(s@, 0) == first_non_ws(s@, lo as int),
        decreases n - lo,
    {
        lo = lo + 1;
    }
    let mut hi: usize = n;
    proof {
        lemma_first_non_ws_bounds(s@, 0);
    }
    while hi > lo && is_ws_exec(s.get_char(hi - 1))
        invariant
            n == s@.len(),
            lo <= hi <= n,
            lo == first_non_ws(s@, 0),
            last_non_ws(s@, lo as int, n as int) == last_non_ws(s@, lo as int, hi as int),
        decreases hi,
    {
        hi = hi - 1;
    }
    (lo, hi)
}

/// `s` without leading and trailing white space.
fn trim_str(s: &str) -> (r: &str)
    ensures
        r@ == trim(s@),
{
    let (lo, hi) = trim_bounds(s);
    s.substring_char(lo, hi)
}

/// The pieces of `s` between occurrences of `sep` (one more piece than separators).
pub open spec fn split(s: Seq<char>, sep: char) -> Seq<Seq<char>>
    decreases s.len(),
{
    if s.len() == 0 {
        seq![Seq::empty()]
    } else {
        let parts = split(s.drop_last(), sep);
        if s.last() == sep {
            parts.push(Seq::empty())
        } else {
            parts.update(parts.len() - 1, parts.last().push(s.last()))
        }
    }
}

proof fn lemma_split_nonempty(s: Seq<char>, sep: char)
    ensures
        split(s, sep).len() >= 1,
    decreases s.len(),
{
    if s.len() > 0 {
        lemma_split_nonempty(s.drop_last(), sep);
    }
}

fn split_str(s: &str, sep: char) -> (r: Vec<String>)
    ensures
        r.deep_view() == split(s@, sep),
        r.len() >= 1,
{
    let n = s.unicode_len();
    let mut parts: Vec<String> = Vec::new();
    let mut start: usize = 0;
    let mut i: usize = 0;
    proof {
        assert(s@.take(0) =~= Seq::<char>::empty());
        assert(parts.deep_view().push(s@.subrange(0, 0)) =~= split(s@.take(0), sep));
    }
    while i < n
        invariant
            n == s@.len(),
            start <= i <= n,
            parts.deep_view().push(s@.subrange(start as int, i as int)) == split(
                s@.take(i as int),
                sep,
            ),
        decreases n - i,
    {
        let c = s.get_char(i);
        proof {
            assert(s@.take(i + 1).drop_last() =~= s@.take(i as int));
            assert(s@.take(i + 1).last() == c);
            lemma_split_nonempty(s@.take(i as int), sep);
        }
        if c == sep {
            let piece = s.substring_char(start, i);
            let ghost before = parts.deep_view();
            parts.push(String::from_str(piece));
            proof {
                assert(parts.deep_view() =~= before.push(s@.subrange(start as int, i as int)));
                assert(s@.subrange(i + 1, i + 1) =~= Seq::<char>::empty());
            }
            start = i + 1;
        } else {
            proof {
                let parts0 = parts.deep_view().push(s@.subrange(start as int, i as int));
                assert(s@.subrange(start as int, i + 1) =~= s@.subrange(start as int, i as int).push(c));
                assert(parts.deep_view().push(s@.subrange(start as int, i + 1)) =~= parts0.update(
                    parts0.len() - 1,
                    parts0.last().push(c),
                ));
            }
        }
        i = i + 1;
    }
    let last = s.substring_char(start, n);
    let ghost before = parts.deep_view();
    parts.push(String::from_str(last));
    proof {
        assert(s@.take(n as int) =~= s@);
        assert(parts.deep_view() =~= before.push(s@.subrange(start as int, n as int)));
    }
    parts
}

/// The text before and after the first `sep` of `s`, if there is one.
pub open spec fn split_once(s: Seq<char>, sep: char) -> Option<(Seq<char>, Seq<char>)> {
    if exists|i: int| 0 <= i < s.len() && s[i] == sep {
        let i = choose|i: int| 0 <= i < s.len() && s[i] == sep && forall|j: int| 0 <= j < i ==> s[j] != sep;
        Some((s.take(i), s.skip(i + 1)))
    } else {
        None
    }
}

fn split_once_str(s: &str, sep: char) -> (r: Option<(&str, &str)>)
    ensures
        match r {
            Some((a, b)) => split_once(s@, sep) == Some((a@, b@)),
            None => split_once(s@, sep) is None,
        },
{
    let n = s.unicode_len();
    let mut i: usize = 0;
    while i < n
        invariant
            n == s@.len(),
            i <= n,
            forall|j: int| 0 <= j < i ==> s@[j] != sep,
        decreases n - i,
    {
        if s.get_char(i) == sep {
            proof {
                let k = choose|k: int| 0 <= k < s@.len() && s@[k] == sep && forall|j: int| 0 <= j < k ==> s@[j] != sep;
                assert(k == i);
                assert(s@.subrange(0, i as int) =~= s@.take(i as int));
                assert(s@.subrange(i + 1, n as int) =~= s@.skip(i + 1));
            }
            return Some((s.substring_char(0, i), s.substring_char(i + 1, n)));
        }
        i = i + 1;
    }
    None
}

/// The maximal runs of non-white-space characters of `s`: the finished runs, and the
/// run still open at the end.
pub open spec fn words_acc(s: Seq<char>) -> (Seq<Seq<char>>, Seq<char>)
    decreases s.len(),
{
    if s.len() == 0 {
        (Seq::empty(), Seq::empty())
    } else {
        let (done, cur) = words_acc(s.drop_last());
        if is_ws(s.last()) {
            if cur.len() > 0 {
                (done.push(cur), Seq::empty())
            } else {
                (done, Seq::empty())
            }
        } else {
            (done, cur.push(s.last()))
        }
    }
}

/// The white-space separated words of `s`.
pub open spec fn words(s: Seq<char>) -> Seq<Seq<char>> {
    let (done, cur) = words_acc(s);
    if cur.len() > 0 {
        done.push(cur)
    } else {
        done
    }
}

fn words_str(s: &str) -> (r: Vec<String>)
    ensures
        r.deep_view() == words(s@),
{
    let n = s.unicode_len();
    let mut out: Vec<String> = Vec::new();
    let mut start: usize = 0;
    let mut i: usize = 0;
    proof {
        assert(s@.take(0) =~= Seq::<char>::empty());
    }
    while i < n
        invariant
            n == s@.len(),
            start <= i <= n,
            words_acc(s@.take(i as int)) == (out.deep_view(), s@.subrange(start as int, i as int)),
        decreases n - i,
    {
        let c = s.get_char(i);
        proof {
            assert(s@.take(i + 1).drop_last() =~= s@.take(i as int));
            assert(s@.take(i + 1).last() == c);
        }
        if is_ws_exec(c) {
            if start < i {
                let ghost before = out.deep_view();
                out.push(String::from_str(s.substring_char(start, i)));
                proof {
                    assert(out.deep_view() =~= before.push(s@.subrange(start as int, i as int)));
                }
            }
            start = i + 1;
            proof {
                assert(s@.subrange(start as int, i + 1) =~= Seq::<char>::empty());
            }
        } else {
            proof {
                assert(s@.subrange(start as int, i + 1) =~= s@.subrange(start as int, i as int).push(c));
            }
        }
        i = i + 1;
    }
    proof {
        assert(s@.take(n as int) =~= s@);
    }
    if start < n {
        let ghost before = out.deep_view();
        out.push(String::from_str(s.substring_char(start, n)));
        proof {
            assert(out.deep_view() =~= before.push(s@.subrange(start as int, n as int)));
        }
    }
    out
}

/// The mathematical value of a [`AttributeValue`] of this format.
pub enum LabVal {
    Str(Seq<char>),
    Strings(Seq<Seq<char>>),
    Bool(bool),
}

/// A value of this format: a string, a set of strings, or a boolean.
#[derive(Debug, Clone)]
pub enum AttributeValue {
    String(String),
    StringSet(Vec<String>),
    Boolean(bool),
}

impl View for AttributeValue {
    type V = LabVal;

    open spec fn view(&self) -> LabVal {
        match self {
            AttributeValue::String(s) => LabVal::Str(s@),
            AttributeValue::StringSet(v) => LabVal::Strings(v.deep_view()),
            AttributeValue::Boolean(b) => LabVal::Bool(*b),
        }
    }
}

/// The attribute keys of a user.
#[derive(Debug, Clone, Copy, PartialEq, Eq, Hash, Structural)]
pub enum UserAttributeKey {
    Position,
    Department,
    CrsTaken,
    CrsTaught,
    IsChair,
}

/// The attribute keys of a resource.
#[derive(Debug, Clone, Copy, PartialEq, Eq, Hash, Structural)]
pub enum ResourceAttributeKey {
    Type,
    Crs,
    Student,
    Departments,
}

/// A user and its attributes.
#[derive(Debug, Clone)]
pub struct UserAttribute {
    pub user_id: String,
    /// Pairs of a key and its value; each key at most once.
    pub attributes: Vec<(UserAttributeKey, AttributeValue)>,
}

/// A resource and its attributes.
#[derive(Debug, Clone)]
pub struct ResourceAttribute {
    pub resource_id: String,
    /// Pairs of a key and its value; each key at most once.
    pub attributes: Vec<(ResourceAttributeKey, AttributeValue)>,
}

/// A rule of this format.
#[derive(Debug, Clone)]
pub struct Rule {
    pub conditions: Vec<RuleCondition>,
    pub actions: Vec<String>,
    pub resource_type: Option<String>,
}

/// A condition of a rule of this format.
#[derive(Debug, Clone)]
pub enum RuleCondition {
    AttributeMatch { key: String, values: Vec<String> },
    AttributeComparison { user_key: String, resource_key: String },
    UserResourceMatch { user_key: String, resource_key: String },
}

/// The value written as `v`: `True`, `False`, a braced set of white-space separated
/// words, or else the text itself.
pub open spec fn lab_value(v: Seq<char>) -> LabVal {
    if v == "True"@ {
        LabVal::Bool(true)
    } else if v == "False"@ {
        LabVal::Bool(false)
    } else if v.len() >= 2 && v[0] == '{' && v.last() == '}' {
        LabVal::Strings(words(v.subrange(1, v.len() - 1)))
    } else {
        LabVal::Str(v)
    }
}

/// The user key written as `k`.
pub open spec fn user_key_of(k: Seq<char>) -> Option<UserAttributeKey> {
    if k == "position"@ {
        Some(UserAttributeKey::Position)
    } else if k == "department"@ {
        Some(UserAttributeKey::Department)
    } else if k == "crsTaken"@ {
        Some(UserAttributeKey::CrsTaken)
    } else if k == "crsTaught"@ {
        Some(UserAttributeKey::CrsTaught)
    } else if k == "isChair"@ {
        Some(UserAttributeKey::IsChair)
    } else {
        None
    }
}

/// The resource key written as `k`.
pub open spec fn resource_key_of(k: Seq<char>) -> Option<ResourceAttributeKey> {
    if k == "type"@ {
        Some(ResourceAttributeKey::Type)
    } else if k == "crs"@ {
        Some(ResourceAttributeKey::Crs)
    } else if k == "student"@ {
        Some(ResourceAttributeKey::Student)
    } else if k == "departments"@ {
        Some(ResourceAttributeKey::Departments)
    } else {
        None
    }
}

/// `s` with the pair for `k` given value `v`: the existing pair replaced, else appended.
pub open spec fn put_key<K>(s: Seq<(K, LabVal)>, k: K, v: LabVal) -> Seq<(K, LabVal)> {
    if exists|i: int| 0 <= i < s.len() && s[i].0 == k {
        let i = choose|i: int| 0 <= i < s.len() && s[i].0 == k && forall|j: int| 0 <= j < i ==> s[j].0 != k;
        s.update(i, (k, v))
    } else {
        s.push((k, v))
    }
}

/// The values of a list of keyed attributes.
pub open spec fn lab_attrs<K>(s: Seq<(K, AttributeValue)>) -> Seq<(K, LabVal)> {
    s.map_values(|p: (K, AttributeValue)| (p.0, p.1@))
}

/// The attributes written in `parts` (each `key=value`; a part without `=` is skipped),
/// with `key_of` reading keys; `None` if a key is unknown.
pub open spec fn parse_attrs<K>(parts: Seq<Seq<char>>, key_of: spec_fn(Seq<char>) -> Option<K>) -> Option<
    Seq<(K, LabVal)>,
>
    decreases parts.len(),
{
    if parts.len() == 0 {
        Some(Seq::empty())
    } else {
        match parse_attrs(parts.drop_last(), key_of) {
            None => None,
            Some(attrs) => match split_once(trim(parts.last()), '=') {
                None => Some(attrs),
                Some((k, v)) => match key_of(trim(k)) {
                    None => None,
                    Some(key) => Some(put_key(attrs, key, lab_value(trim(v)))),
                },
            },
        }
    }
}

/// The identifier and attributes of a `prefix(id, key=value, ...)` line, or `None` when
/// the line lacks the prefix or the closing parenthesis, or names an unknown key.
pub open spec fn parse_entry<K>(
    line: Seq<char>,
    prefix: Seq<char>,
    key_of: spec_fn(Seq<char>) -> Option<K>,
) -> Option<(Seq<char>, Seq<(K, LabVal)>)> {
    if line.len() >= prefix.len() + 1 && line.take(prefix.len() as int) == prefix && line.last()
        == ')' {
        let parts = split(line.subrange(prefix.len() as int, line.len() - 1), ',');
        match parse_attrs(parts.drop_first(), key_of) {
            Some(attrs) => Some((trim(parts[0]), attrs)),
            None => None,
        }
    } else {
        None
    }
}

fn parse_attribute_value(value: &str) -> (r: AttributeValue)
    ensures
        r@ == lab_value(value@),
{
    proof {
        reveal_strlit("True");
        reveal_strlit("False");
    }
    if crate::text::str_eq(value, "True") {
        return AttributeValue::Boolean(true);
    }
    if crate::text::str_eq(value, "False") {
        return AttributeValue::Boolean(false);
    }
    let n = value.unicode_len();
    if n >= 2 && value.get_char(0) == '{' && value.get_char(n - 1) == '}' {
        let content = value.substring_char(1, n - 1);
        return AttributeValue::StringSet(words_str(content));
    }
    AttributeValue::String(String::from_str(value))
}

fn parse_user_key(k: &str) -> (r: Option<UserAttributeKey>)
    ensures
        r == user_key_of(k@),
{
    if crate::text::str_eq(k, "position") {
        Some(UserAttributeKey::Position)
    } else if crate::text::str_eq(k, "department") {
        Some(UserAttributeKey::Department)
    } else if crate::text::str_eq(k, "crsTaken") {
        Some(UserAttributeKey::CrsTaken)
    } else if crate::text::str_eq(k, "crsTaught") {
        Some(UserAttributeKey::CrsTaught)
    } else if crate::text::str_eq(k, "isChair") {
        Some(UserAttributeKey::IsChair)
    } else {
        None
    }
}

fn parse_resource_key(k: &str) -> (r: Option<ResourceAttributeKey>)
    ensures
        r == resource_key_of(k@),
{
    if crate::text::str_eq(k, "type") {
        Some(ResourceAttributeKey::Type)
    } else if crate::text::str_eq(k, "crs") {
        Some(ResourceAttributeKey::Crs)
    } else if crate::text::str_eq(k, "student") {
        Some(ResourceAttributeKey::Student)
    } else if crate::text::str_eq(k, "departments") {
        Some(ResourceAttributeKey::Departments)
    } else {
        None
    }
}

fn put_user_attr(s: &mut Vec<(UserAttributeKey, AttributeValue)>, k: UserAttributeKey, v: AttributeValue)
    ensures
        lab_attrs(final(s)@) == put_key(lab_attrs(old(s)@), k, v@),
{
    let ghost before = lab_attrs(s@);
    let mut i: usize = 0;
    while i < s.len()
        invariant
            i <= s.len(),
            before == lab_attrs(s@),
            s@ == old(s)@,
            forall|j: int| 0 <= j < i ==> s@[j].0 != k,
        decreases s.len() - i,
    {
        if s[i].0 == k {
            proof {
                assert(before[i as int].0 == k);
                assert(forall|j: int| 0 <= j < i ==> before[j].0 != k);
                assert(exists|m: int| 0 <= m < before.len() && before[m].0 == k);
                let m = choose|m: int| 0 <= m < before.len() && before[m].0 == k && forall|j: int| 0 <= j < m ==> before[j].0 != k;
                assert(m == i);
            }
            s.set(i, (k, v));
            proof {
                assert(lab_attrs(s@) =~= before.update(i as int, (k, v@)));
            }
            return;
        }
        i = i + 1;
    }
    proof {
        assert(!exists|m: int| 0 <= m < before.len() && before[m].0 == k);
    }
    s.push((k, v));
    proof {
        assert(lab_attrs(s@) =~= before.push((k, v@)));
    }
}

fn put_resource_attr(
    s: &mut Vec<(ResourceAttributeKey, AttributeValue)>,
    k: ResourceAttributeKey,
    v: AttributeValue,
)
    ensures
        lab_attrs(final(s)@) == put_key(lab_attrs(old(s)@), k, v@),
{
    let ghost before = lab_attrs(s@);
    let mut i: usize = 0;
    while i < s.len()
        invariant
            i <= s.len(),
            before == lab_attrs(s@),
            s@ == old(s)@,
            forall|j: int| 0 <= j < i ==> s@[j].0 != k,
        decreases s.len() - i,
    {
        if s[i].0 == k {
            proof {
                assert(before[i as int].0 == k);
                assert(forall|j: int| 0 <= j < i ==> before[j].0 != k);
                assert(exists|m: int| 0 <= m < before.len() && before[m].0 == k);
                let m = choose|m: int| 0 <= m < before.len() && before[m].0 == k && forall|j: int| 0 <= j < m ==> before[j].0 != k;
                assert(m == i);
            }
            s.set(i, (k, v));
            proof {
                assert(lab_attrs(s@) =~= before.update(i as int, (k, v@)));
            }
            return;
        }
        i = i + 1;
    }
    proof {
        assert(!exists|m: int| 0 <= m < before.len() && before[m].0 == k);
    }
    s.push((k, v));
    proof {
        assert(lab_attrs(s@) =~= before.push((k, v@)));
    }
}

/// The lines `userAttrib(` introduces.
pub open spec fn user_prefix() -> Seq<char> {
    "userAttrib("@
}

/// The lines `resourceAttrib(` introduces.
pub open spec fn resource_prefix() -> Seq<char> {
    "resourceAttrib("@
}

/// The lines `rule(` introduces.
pub open spec fn rule_prefix() -> Seq<char> {
    "rule("@
}

/// A user as its identifier and attribute values.
pub open spec fn user_view(u: UserAttribute) -> (Seq<char>, Seq<(UserAttributeKey, LabVal)>) {
    (u.user_id@, lab_attrs(u.attributes@))
}

/// A resource as its identifier and attribute values.
pub open spec fn resource_view(r: ResourceAttribute) -> (
    Seq<char>,
    Seq<(ResourceAttributeKey, LabVal)>,
) {
    (r.resource_id@, lab_attrs(r.attributes@))
}

/// The body of a `prefix ... )` line, if it has that shape.
fn entry_body<'a>(line: &'a str, prefix: &str) -> (r: Option<&'a str>)
    ensures
        match r {
            Some(b) => line@.len() >= prefix@.len() + 1 && line@.take(prefix@.len() as int)
                == prefix@ && line@.last() == ')' && b@ == line@.subrange(
                prefix@.len() as int,
                line@.len() - 1,
            ),
            None => !(line@.len() >= prefix@.len() + 1 && line@.take(prefix@.len() as int)
                == prefix@ && line@.last() == ')'),
        },
{
    let n = line.unicode_len();
    let m = prefix.unicode_len();
    if !crate::text::starts_with(line, prefix) || n <= m || line.get_char(n - 1) != ')' {
        proof {
            if line@.len() >= prefix@.len() + 1 && line@.take(prefix@.len() as int) == prefix@ {
                assert(line@.subrange(0, prefix@.len() as int) =~= line@.take(prefix@.len() as int));
            }
        }
        return None;
    }
    proof {
        assert(line@.subrange(0, prefix@.len() as int) =~= line@.take(prefix@.len() as int));
    }
    Some(line.substring_char(m, n - 1))
}

/// Reads the `key=value` parts of an entry with the user keys.
fn parse_user_attrs(parts: &Vec<String>) -> (r: Option<Vec<(UserAttributeKey, AttributeValue)>>)
    requires
        parts.len() >= 1,
    ensures
        match r {
            Some(a) => parse_attrs(parts.deep_view().drop_first(), |k| user_key_of(k)) == Some(
                lab_attrs(a@),
            ),
            None => parse_attrs(parts.deep_view().drop_first(), |k| user_key_of(k)) is None,
        },
{
    let ghost rest = parts.deep_view().drop_first();
    let ghost key_of = |k| user_key_of(k);
    let mut attrs: Vec<(UserAttributeKey, AttributeValue)> = Vec::new();
    let mut i: usize = 1;
    proof {
        assert(rest.take(0) =~= Seq::<Seq<char>>::empty());
        assert(lab_attrs(attrs@) =~= Seq::<(UserAttributeKey, LabVal)>::empty());
    }
    while i < parts.len()
        invariant
            1 <= i <= parts.len(),
            rest == parts.deep_view().drop_first(),
            key_of == (|k| user_key_of(k)),
            parse_attrs(rest.take(i - 1), key_of) == Some(lab_attrs(attrs@)),
        decreases parts.len() - i,
    {
        proof {
            assert(rest.take(i as int).drop_last() =~= rest.take(i - 1));
            assert(rest.take(i as int).last() == parts[i as int]@);
        }
        let part = trim_str(parts[i].as_str());
        if let Some((k, v)) = split_once_str(part, '=') {
            let key = match parse_user_key(trim_str(k)) {
                Some(key) => key,
                None => {
                    proof {
                        lemma_parse_attrs_prefix_none(rest, i as int, key_of);
                    }
                    return None;
                },
            };
            let value = parse_attribute_value(trim_str(v));
            put_user_attr(&mut attrs, key, value);
        }
        i = i + 1;
    }
    proof {
        assert(rest.take(parts.len() - 1) =~= rest);
    }
    Some(attrs)
}

/// Reads the `key=value` parts of an entry with the resource keys.
fn parse_resource_attrs(parts: &Vec<String>) -> (r: Option<
    Vec<(ResourceAttributeKey, AttributeValue)>,
>)
    requires
        parts.len() >= 1,
    ensures
        match r {
            Some(a) => parse_attrs(parts.deep_view().drop_first(), |k| resource_key_of(k))
                == Some(lab_attrs(a@)),
            None => parse_attrs(parts.deep_view().drop_first(), |k| resource_key_of(k)) is None,
        },
{
    let ghost rest = parts.deep_view().drop_first();
    let ghost key_of = |k| resource_key_of(k);
    let mut attrs: Vec<(ResourceAttributeKey, AttributeValue)> = Vec::new();
    let mut i: usize = 1;
    proof {
        assert(rest.take(0) =~= Seq::<Seq<char>>::empty());
        assert(lab_attrs(attrs@) =~= Seq::<(ResourceAttributeKey, LabVal)>::empty());
    }
    while i < parts.len()
        invariant
            1 <= i <= parts.len(),
            rest == parts.deep_view().drop_first(),
            key_of == (|k| resource_key_of(k)),
            parse_attrs(rest.take(i - 1), key_of) == Some(lab_attrs(attrs@)),
        decreases parts.len() - i,
    {
        proof {
            assert(rest.take(i as int).drop_last() =~= rest.take(i - 1));
            assert(rest.take(i as int).last() == parts[i as int]@);
        }
        let part = trim_str(parts[i].as_str());
        if let Some((k, v)) = split_once_str(part, '=') {
            let key = match parse_resource_key(trim_str(k)) {
                Some(key) => key,
                None => {
                    proof {
                        lemma_parse_attrs_prefix_none(rest, i as int, key_of);
                    }
                    return None;
                },
            };
            let value = parse_attribute_value(trim_str(v));
            put_resource_attr(&mut attrs, key, value);
        }
        i = i + 1;
    }
    proof {
        assert(rest.take(parts.len() - 1) =~= rest);
    }
    Some(attrs)
}

proof fn lemma_parse_attrs_prefix_none<K>(
    parts: Seq<Seq<char>>,
    j: int,
    key_of: spec_fn(Seq<char>) -> Option<K>,
)
    requires
        0 <= j <= parts.len(),
        parse_attrs(parts.take(j), key_of) is None,
    ensures
        parse_attrs(parts, key_of) is None,
    decreases parts.len() - j,
{
    if j < parts.len() {
        assert(parts.take(j + 1).drop_last() =~= parts.take(j));
        lemma_parse_attrs_prefix_none(parts, j + 1, key_of);
    } else {
        assert(parts.take(j) =~= parts);
    }
}

fn parse_user_attrib(line: &str) -> (r: Result<UserAttribute, AbacError>)
    ensures
        match r {
            Ok(u) => parse_entry(line@, user_prefix(), |k| user_key_of(k)) == Some(user_view(u)),
            Err(_) => parse_entry(line@, user_prefix(), |k| user_key_of(k)) is None,
        },
{
    let content = match entry_body(line, "userAttrib(") {
        Some(c) => c,
        None => {
            return Err(AbacError::SchemaError(String::from_str("Invalid userAttrib format")));
        },
    };
    let parts = split_str(content, ',');
    let user_id = String::from_str(trim_str(parts[0].as_str()));
    match parse_user_attrs(&parts) {
        Some(attributes) => Ok(UserAttribute { user_id, attributes }),
        None => Err(AbacError::UnknownKey(String::from_str("unknown user attribute key"))),
    }
}

fn parse_resource_attrib(line: &str) -> (r: Result<ResourceAttribute, AbacError>)
    ensures
        match r {
            Ok(u) => parse_entry(line@, resource_prefix(), |k| resource_key_of(k)) == Some(
                resource_view(u),
            ),
            Err(_) => parse_entry(line@, resource_prefix(), |k| resource_key_of(k)) is None,
        },
{
    let content = match entry_body(line, "resourceAttrib(") {
        Some(c) => c,
        None => {
            return Err(AbacError::SchemaError(String::from_str("Invalid resourceAttrib format")));
        },
    };
    let parts = split_str(content, ',');
    let resource_id = String::from_str(trim_str(parts[0].as_str()));
    match parse_resource_attrs(&parts) {
        Some(attributes) => Ok(ResourceAttribute { resource_id, attributes }),
        None => Err(AbacError::UnknownKey(String::from_str("unknown resource attribute key"))),
    }
}

/// A `rule(...)` line: its shape is checked, its contents are not read.
pub open spec fn rule_line_ok(line: Seq<char>) -> bool {
    line.len() >= rule_prefix().len() + 1 && line.take(rule_prefix().len() as int) == rule_prefix()
        && line.last() == ')'
}

fn parse_rule(line: &str) -> (r: Result<Rule, AbacError>)
    ensures
        match r {
            Ok(rule) => rule_line_ok(line@) && rule.conditions.len() == 0 && rule.actions.len()
                == 0 && rule.resource_type is None,
            Err(_) => !rule_line_ok(line@),
        },
{
    match entry_body(line, "rule(") {
        Some(_) => Ok(Rule { conditions: Vec::new(), actions: Vec::new(), resource_type: None }),
        None => Err(AbacError::SchemaError(String::from_str("Invalid rule format"))),
    }
}

/// Collects the users, resources and rules of a text in this format, line by line.
#[derive(Debug)]
pub struct Parser {
    pub users: Vec<UserAttribute>,
    pub resources: Vec<ResourceAttribute>,
    pub rules: Vec<Rule>,
}

impl Parser {
    /// A parser that has read nothing.
    pub fn new() -> (r: Parser)
        ensures
            r.users.len() == 0,
            r.resources.len() == 0,
            r.rules.len() == 0,
    {
        Parser { users: Vec::new(), resources: Vec::new(), rules: Vec::new() }
    }

    /// Reads one line. Blank lines, `#` comments and lines of any other kind are skipped;
    /// a `userAttrib(...)`, `resourceAttrib(...)` or `rule(...)` line adds one entry, or
    /// fails (adding nothing) when malformed or naming an unknown key.
    pub fn parse_line(&mut self, line: &str) -> (r: Result<(), AbacError>)
        ensures
            ({
                let t = trim(line@);
                if t.len() == 0 || t[0] == '#' {
                    r is Ok && *final(self) == *old(self)
                } else if t.take(user_prefix().len() as int) == user_prefix() && t.len()
                    >= user_prefix().len() {
                    final(self).resources == old(self).resources && final(self).rules == old(
                        self,
                    ).rules && match parse_entry(t, user_prefix(), |k| user_key_of(k)) {
                        Some(u) => r is Ok && final(self).users.len() == old(self).users.len() + 1
                            && final(self).users@.drop_last() == old(self).users@ && user_view(
                            final(self).users@.last(),
                        ) == u,
                        None => r is Err && final(self).users == old(self).users,
                    }
                } else if t.take(resource_prefix().len() as int) == resource_prefix() && t.len()
                    >= resource_prefix().len() {
                    final(self).users == old(self).users && final(self).rules == old(self).rules
                        && match parse_entry(t, resource_prefix(), |k| resource_key_of(k)) {
                        Some(e) => r is Ok && final(self).resources.len() == old(
                            self,
                        ).resources.len() + 1 && final(self).resources@.drop_last() == old(
                            self,
                        ).resources@ && resource_view(final(self).resources@.last()) == e,
                        None => r is Err && final(self).resources == old(self).resources,
                    }
                } else if t.take(rule_prefix().len() as int) == rule_prefix() && t.len()
                    >= rule_prefix().len() {
                    final(self).users == old(self).users && final(self).resources == old(
                        self,
                    ).resources && if rule_line_ok(t) {
                        r is Ok && final(self).rules.len() == old(self).rules.len() + 1
                            && final(self).rules@.drop_last() == old(self).rules@
                    } else {
                        r is Err && final(self).rules == old(self).rules
                    }
                } else {
                    r is Ok && *final(self) == *old(self)
                }
            }),
    {
        let t = trim_str(line);
        let n = t.unicode_len();
        if n == 0 || t.get_char(0) == '#' {
            return Ok(());
        }
        proof {
            reveal_strlit("userAttrib(");
            reveal_strlit("resourceAttrib(");
            reveal_strlit("rule(");
        }
        if crate::text::starts_with(t, "userAttrib(") {
            proof {
                assert(t@.subrange(0, 11) =~= t@.take(11));
            }
            let user = parse_user_attrib(t)?;
            self.users.push(user);
            proof {
                assert(self.users@.drop_last() =~= old(self).users@);
            }
        } else if crate::text::starts_with(t, "resourceAttrib(") {
            proof {
                assert(t@.subrange(0, 15) =~= t@.take(15));
                if t@.take(11) == user_prefix() && t@.len() >= 11 {
                    assert(t@[0] == 'r');
                }
            }
            let resource = parse_resource_attrib(t)?;
            self.resources.push(resource);
            proof {
                assert(self.resources@.drop_last() =~= old(self).resources@);
            }
        } else if crate::text::starts_with(t, "rule(") {
            proof {
                assert(t@.subrange(0, 5) =~= t@.take(5));
            }
            let rule = parse_rule(t)?;
            self.rules.push(rule);
            proof {
                assert(self.rules@.drop_last() =~= old(self).rules@);
            }
        } else {
            proof {
                if t@.take(11) == user_prefix() && t@.len() >= 11 {
                    assert(t@.subrange(0, 11) =~= t@.take(11));
                }
                if t@.take(15) == resource_prefix() && t@.len() >= 15 {
                    assert(t@.subrange(0, 15) =~= t@.take(15));
                }
                if t@.take(5) == rule_prefix() && t@.len() >= 5 {
                    assert(t@.subrange(0, 5) =~= t@.take(5));
                }
            }
        }
        Ok(())
    }
}

} // verus!
