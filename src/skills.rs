use vstd::prelude::*;

use crate::json::{get_member, member, JsonValue};

verus! {

/// Why a document does not decode into records.
#[derive(Debug, Clone, Copy, PartialEq, Eq)]
pub enum SkillError {
    /// The document is not a JSON object.
    NotAnObject,
    /// A record's value is not a JSON object.
    RecordNotAnObject,
    /// A record's name is neither a string nor null.
    InvalidName,
    /// A dependency token is not a decimal `u32`.
    InvalidDependencyId,
}

/// A decimal digit.
pub open spec fn is_digit(c: char) -> bool {
    '0' <= c <= '9'
}

/// The value of a string of decimal digits.
pub open spec fn digits_value(s: Seq<char>) -> nat
    decreases s.len(),
{
    if s.len() == 0 {
        0
    } else {
        digits_value(s.drop_last()) * 10 + ((s.last() as u32) - ('0' as u32)) as nat
    }
}

/// A string without its leading `+`, where it has one.
pub open spec fn sign_stripped(s: Seq<char>) -> Seq<char> {
    if s.len() > 0 && s[0] == '+' {
        s.drop_first()
    } else {
        s
    }
}

/// Every character is a decimal digit.
pub open spec fn all_digits(d: Seq<char>) -> bool {
    forall|i: int| 0 <= i < d.len() ==> is_digit(#[trigger] d[i])
}

/// A `u32` written in decimal: an optional `+`, then at least one digit, the
/// value at most `u32::MAX`.
pub open spec fn decimal_value(s: Seq<char>) -> Option<u32> {
    let d = sign_stripped(s);
    if d.len() > 0 && all_digits(d) && digits_value(d) <= u32::MAX {
        Some(digits_value(d) as u32)
    } else {
        None
    }
}

proof fn lemma_digits_value_grows(d: Seq<char>, m: int)
    requires
        0 <= m <= d.len(),
        all_digits(d),
    ensures
        digits_value(d.take(m)) <= digits_value(d),
    decreases d.len() - m,
{
    if m < d.len() {
        lemma_digits_value_grows(d, m + 1);
        assert(d.take(m + 1).drop_last() =~= d.take(m));
    } else {
        assert(d.take(m) =~= d);
    }
}

/// Reads a `u32` written in decimal, with an optional leading `+`.
pub fn parse_decimal(s: &str) -> (r: Option<u32>)
    ensures
        r == decimal_value(s@),
{
    let n = s.unicode_len();
    let mut start: usize = 0;
    if n > 0 && s.get_char(0) == '+' {
        start = 1;
    }
    let ghost d = s@.subrange(start as int, n as int);
    proof {
        if start == 1 {
            assert(d =~= s@.drop_first());
        } else {
            assert(d =~= s@);
        }
    }
    if start == n {
        return None;
    }
    let mut acc: u64 = 0;
    let mut i: usize = start;
    assert(d.take(0) =~= Seq::<char>::empty());
    while i < n
        invariant
            n == s@.len(),
            start <= i <= n,
            start < n,
            d == s@.subrange(start as int, n as int),
            d == sign_stripped(s@),
            acc == digits_value(d.take(i - start)),
            acc <= u32::MAX,
            forall|k: int| 0 <= k < i - start ==> is_digit(#[trigger] d[k]),
        decreases n - i,
    {
        let c = s.get_char(i);
        assert(d[i - start] == c);
        if !('0' <= c && c <= '9') {
            assert(!is_digit(d[i - start]));
            return None;
        }
        proof {
            assert(d.take(i - start + 1).drop_last() =~= d.take(i - start));
            assert(d.take(i - start + 1).last() == c);
        }
        let v: u64 = ((c as u32) - ('0' as u32)) as u64;
        acc = acc * 10 + v;
        i += 1;
        if acc > 0xffff_ffff {
            proof {
                if all_digits(d) {
                    lemma_digits_value_grows(d, i - start);
                }
            }
            return None;
        }
    }
    assert(d.take(n - start) =~= d);
    Some(acc as u32)
}

/// The id that a record key gives: its decimal value, or 0 where it has none.
pub open spec fn key_id(key: Seq<char>) -> u32 {
    match decimal_value(key) {
        Some(x) => x,
        None => 0,
    }
}

/// The ids of the string tokens of a dependency array, in order; other items
/// are passed over. None where a token is not a decimal `u32`.
pub open spec fn array_ids(a: Seq<JsonValue>) -> Option<Seq<u32>>
    decreases a.len(),
{
    if a.len() == 0 {
        Some(Seq::empty())
    } else {
        match array_ids(a.drop_last()) {
            None => None,
            Some(prev) => match a.last() {
                JsonValue::Text(t) => match decimal_value(t@) {
                    Some(x) => Some(prev.push(x)),
                    None => None,
                },
                _ => Some(prev),
            },
        }
    }
}

/// The dependency field of a record: absent, null, an empty array or another
/// shape give none; an array gives the ids of its string tokens; a string
/// gives one id.
pub open spec fn dependencies_value(v: Option<JsonValue>) -> Result<Option<Seq<u32>>, SkillError> {
    match v {
        Some(JsonValue::Array(a)) => if a@.len() == 0 {
            Ok(None)
        } else {
            match array_ids(a@) {
                Some(ids) => Ok(Some(ids)),
                None => Err(SkillError::InvalidDependencyId),
            }
        },
        Some(JsonValue::Text(t)) => match decimal_value(t@) {
            Some(x) => Ok(Some(seq![x])),
            None => Err(SkillError::InvalidDependencyId),
        },
        _ => Ok(None),
    }
}

/// The name field of a record: absent or null give none.
pub open spec fn name_value(v: Option<JsonValue>) -> Result<Option<Seq<char>>, SkillError> {
    match v {
        None => Ok(None),
        Some(JsonValue::Null) => Ok(None),
        Some(JsonValue::Text(t)) => Ok(Some(t@)),
        _ => Err(SkillError::InvalidName),
    }
}

/// The record that one member of the document gives.
pub open spec fn record_value(key: Seq<char>, v: JsonValue) -> Result<SkillView, SkillError> {
    match v {
        JsonValue::Object(fields) => match name_value(member(fields@, "name"@)) {
            Err(e) => Err(e),
            Ok(name) => match dependencies_value(member(fields@, "out"@)) {
                Err(e) => Err(e),
                Ok(dependencies) => Ok(SkillView { id: key_id(key), name, dependencies }),
            },
        },
        _ => Err(SkillError::RecordNotAnObject),
    }
}

/// The records of a document's members, in order, or the first member's error.
pub open spec fn records_value(entries: Seq<(String, JsonValue)>) -> Result<Seq<SkillView>, SkillError>
    decreases entries.len(),
{
    if entries.len() == 0 {
        Ok(Seq::empty())
    } else {
        match records_value(entries.drop_last()) {
            Err(e) => Err(e),
            Ok(prev) => match record_value(entries.last().0@, entries.last().1) {
                Err(e) => Err(e),
                Ok(r) => Ok(prev.push(r)),
            },
        }
    }
}

/// The records of a whole document.
pub open spec fn document_value(doc: JsonValue) -> Result<Seq<SkillView>, SkillError> {
    match doc {
        JsonValue::Object(entries) => records_value(entries@),
        _ => Err(SkillError::NotAnObject),
    }
}

/// The value that an optional reference points to.
pub open spec fn present(v: Option<&JsonValue>) -> Option<JsonValue> {
    match v {
        Some(x) => Some(*x),
        None => None,
    }
}

/// The view of an optional id list.
pub open spec fn ids_view(o: Option<Vec<u32>>) -> Option<Seq<u32>> {
    match o {
        Some(v) => Some(v@),
        None => None,
    }
}

proof fn lemma_array_ids_fail(a: Seq<JsonValue>, i: int)
    requires
        0 <= i <= a.len(),
        array_ids(a.take(i)) is None,
    ensures
        array_ids(a) is None,
    decreases a.len() - i,
{
    if i < a.len() {
        assert(a.take(i + 1).drop_last() =~= a.take(i));
        lemma_array_ids_fail(a, i + 1);
    } else {
        assert(a.take(i) =~= a);
    }
}

proof fn lemma_records_fail(s: Seq<(String, JsonValue)>, i: int, e: SkillError)
    requires
        0 <= i <= s.len(),
        records_value(s.take(i)) == Err::<Seq<SkillView>, SkillError>(e),
    ensures
        records_value(s) == Err::<Seq<SkillView>, SkillError>(e),
    decreases s.len() - i,
{
    if i < s.len() {
        assert(s.take(i + 1).drop_last() =~= s.take(i));
        lemma_records_fail(s, i + 1, e);
    } else {
        assert(s.take(i) =~= s);
    }
}

/// Decodes a record's dependency field.
pub fn dependencies_from_json(v: Option<&JsonValue>) -> (r: Result<Option<Vec<u32>>, SkillError>)
    ensures
        r matches Ok(o) ==> dependencies_value(present(v)) == Ok::<Option<Seq<u32>>, SkillError>(ids_view(o)),
        r matches Err(e) ==> dependencies_value(present(v)) == Err::<Option<Seq<u32>>, SkillError>(e),
{
    match v {
        Some(JsonValue::Array(a)) => {
            if a.len() == 0 {
                return Ok(None);
            }
            let mut out: Vec<u32> = Vec::new();
            let mut k: usize = 0;
            assert(a@.take(0) =~= Seq::<JsonValue>::empty());
            while k < a.len()
                invariant
                    present(v) == Some(JsonValue::Array(*a)),
                    a@.len() > 0,
                    k <= a@.len(),
                    array_ids(a@.take(k as int)) == Some(out@),
                decreases a@.len() - k,
            {
                proof {
                    assert(a@.take(k + 1).drop_last() =~= a@.take(k as int));
                }
                match &a[k] {
                    JsonValue::Text(t) => match parse_decimal(t.as_str()) {
                        Some(x) => out.push(x),
                        None => {
                            proof {
                                assert(a@.take(k + 1).last() == a@[k as int]);
                                assert(array_ids(a@.take(k + 1)) is None);
                                lemma_array_ids_fail(a@, k + 1);
                            }
                            return Err(SkillError::InvalidDependencyId);
                        },
                    },
                    _ => {},
                }
                k += 1;
            }
            assert(a@.take(a@.len() as int) =~= a@);
            Ok(Some(out))
        },
        Some(JsonValue::Text(t)) => match parse_decimal(t.as_str()) {
            Some(x) => {
                let out = vec![x];
                assert(out@ =~= seq![x]);
                Ok(Some(out))
            },
            None => Err(SkillError::InvalidDependencyId),
        },
        _ => Ok(None),
    }
}

/// Decodes a record's name field.
pub fn name_from_json(v: Option<&JsonValue>) -> (r: Result<Option<String>, SkillError>)
    ensures
        r matches Ok(o) ==> name_value(present(v)) == Ok::<Option<Seq<char>>, SkillError>(
            match o {
                Some(n) => Some(n@),
                None => None,
            },
        ),
        r matches Err(e) ==> name_value(present(v)) == Err::<Option<Seq<char>>, SkillError>(e),
{
    match v {
        None => Ok(None),
        Some(JsonValue::Null) => Ok(None),
        Some(JsonValue::Text(t)) => Ok(Some(t.clone())),
        _ => Err(SkillError::InvalidName),
    }
}

/// Decodes one member of the document: the key gives the id (0 where it is
/// not a decimal `u32`), the value's `name` and `out` members the name and
/// the dependencies.
pub fn skill_from_json(key: &str, value: &JsonValue) -> (r: Result<Skill, SkillError>)
    ensures
        r matches Ok(s) ==> record_value(key@, *value) == Ok::<SkillView, SkillError>(s@),
        r matches Err(e) ==> record_value(key@, *value) == Err::<SkillView, SkillError>(e),
{
    match value {
        JsonValue::Object(fields) => {
            let name_key = "name".to_string();
            let out_key = "out".to_string();
            let name = match name_from_json(get_member(fields, &name_key)) {
                Ok(n) => n,
                Err(e) => return Err(e),
            };
            let dependencies = match dependencies_from_json(get_member(fields, &out_key)) {
                Ok(d) => d,
                Err(e) => return Err(e),
            };
            let id = match parse_decimal(key) {
                Some(x) => x,
                None => 0,
            };
            Ok(Skill { id, name, dependencies })
        },
        _ => Err(SkillError::RecordNotAnObject),
    }
}

/// Decodes a whole document: an object whose members are records, in order.
pub fn skills_from_json(doc: &JsonValue) -> (r: Result<Vec<Skill>, SkillError>)
    ensures
        r matches Ok(v) ==> document_value(*doc) == Ok::<Seq<SkillView>, SkillError>(views(v@)),
        r matches Err(e) ==> document_value(*doc) == Err::<Seq<SkillView>, SkillError>(e),
{
    match doc {
        JsonValue::Object(entries) => {
            let mut out: Vec<Skill> = Vec::new();
            let mut i: usize = 0;
            assert(entries@.take(0) =~= Seq::<(String, JsonValue)>::empty());
            assert(views(out@) =~= Seq::<SkillView>::empty());
            while i < entries.len()
                invariant
                    *doc == JsonValue::Object(*entries),
                    i <= entries@.len(),
                    records_value(entries@.take(i as int)) == Ok::<Seq<SkillView>, SkillError>(views(out@)),
                decreases entries@.len() - i,
            {
                proof {
                    assert(entries@.take(i + 1).drop_last() =~= entries@.take(i as int));
                }
                let entry = &entries[i];
                let ghost before = out@;
                match skill_from_json(entry.0.as_str(), &entry.1) {
                    Ok(s) => {
                        out.push(s);
                        proof {
                            assert(entries@.take(i + 1).last() == entries@[i as int]);
                            assert(out@.drop_last() =~= before);
                            assert(views(out@) =~= views(before).push(s@));
                        }
                    },
                    Err(e) => {
                        proof {
                            assert(entries@.take(i + 1).last() == entries@[i as int]);
                            assert(records_value(entries@.take(i + 1)) == Err::<Seq<SkillView>, SkillError>(e));
                            lemma_records_fail(entries@, i + 1, e);
                        }
                        return Err(e);
                    },
                }
                i += 1;
            }
            assert(entries@.take(entries@.len() as int) =~= entries@);
            Ok(out)
        },
        _ => Err(SkillError::NotAnObject),
    }
}

/// One entity of a skill tree: its identifier, an optional display name and
/// the identifiers of the entities it depends on.
#[derive(Debug, Clone, Hash, PartialEq, Eq)]
pub struct Skill {
    pub id: u32,
    pub name: Option<String>,
    pub dependencies: Option<Vec<u32>>,
}

/// The mathematical value of a [`Skill`].
pub struct SkillView {
    pub id: u32,
    pub name: Option<Seq<char>>,
    pub dependencies: Option<Seq<u32>>,
}

impl View for Skill {
    type V = SkillView;

    open spec fn view(&self) -> SkillView {
        SkillView {
            id: self.id,
            name: match self.name {
                Some(n) => Some(n@),
                None => None,
            },
            dependencies: match self.dependencies {
                Some(d) => Some(d@),
                None => None,
            },
        }
    }
}

/// The views of a sequence of skills.
pub open spec fn views(s: Seq<Skill>) -> Seq<SkillView> {
    s.map_values(|k: Skill| k@)
}

/// The dependency ids a record lists; none when the field is absent.
pub open spec fn deps_of(v: SkillView) -> Seq<u32> {
    match v.dependencies {
        Some(d) => d,
        None => Seq::empty(),
    }
}

/// Some record with id `a` lists `b` among its dependencies.
pub open spec fn is_dependency_pair(s: Seq<SkillView>, a: u32, b: u32) -> bool {
    exists|i: int| 0 <= i < s.len() && #[trigger] s[i].id == a && deps_of(s[i]).contains(b)
}

/// Among the first `i` records, or among the first `k` dependencies of record `i`,
/// some record with id `a` lists `b`.
pub open spec fn pair_listed_before(s: Seq<SkillView>, i: int, k: int, a: u32, b: u32) -> bool {
    ||| exists|j: int| 0 <= j < i && #[trigger] s[j].id == a && deps_of(s[j]).contains(b)
    ||| (s[i].id == a && deps_of(s[i]).take(k).contains(b))
}

impl Skill {
    /// A copy of this record with the same value.
    pub fn duplicate(&self) -> (r: Skill)
        ensures
            r@ == self@,
    {
        let name = match &self.name {
            Some(n) => Some(n.clone()),
            None => None,
        };
        let dependencies = match &self.dependencies {
            Some(d) => {
                let mut out: Vec<u32> = Vec::new();
                let mut k: usize = 0;
                while k < d.len()
                    invariant
                        k <= d@.len(),
                        out@ == d@.take(k as int),
                    decreases d@.len() - k,
                {
                    out.push(d[k]);
                    k += 1;
                    proof {
                        assert(out@ =~= d@.take(k as int));
                    }
                }
                assert(out@ =~= d@);
                Some(out)
            },
            None => None,
        };
        Skill { id: self.id, name, dependencies }
    }
}

fn contains_pair(edges: &Vec<[u32; 2]>, a: u32, b: u32) -> (r: bool)
    ensures
        r == exists|e: [u32; 2]| edges@.contains(e) && e[0] == a && e[1] == b,
{
    let mut i: usize = 0;
    while i < edges.len()
        invariant
            i <= edges@.len(),
            forall|j: int| 0 <= j < i ==> !(#[trigger] edges@[j][0] == a && edges@[j][1] == b),
        decreases edges@.len() - i,
    {
        let e = edges[i];
        if e[0] == a && e[1] == b {
            assert(edges@.contains(e));
            return true;
        }
        i += 1;
    }
    proof {
        assert forall|e: [u32; 2]| edges@.contains(e) implies !(e[0] == a && e[1] == b) by {
            let j = choose|j: int| 0 <= j < edges@.len() && edges@[j] == e;
            assert(edges@[j][0] == e[0]);
        }
    }
    false
}

/// The distinct (id, dependency) pairs that the records list, each once.
pub fn extract_edges(skills: Vec<Skill>) -> (r: Vec<[u32; 2]>)
    ensures
        r@.no_duplicates(),
        forall|e: [u32; 2]| #[trigger]
            r@.contains(e) <==> is_dependency_pair(views(skills@), e[0], e[1]),
{
    let ghost s = views(skills@);
    let mut edges: Vec<[u32; 2]> = Vec::new();
    let mut i: usize = 0;
    while i < skills.len()
        invariant
            i <= skills@.len(),
            s == views(skills@),
            edges@.no_duplicates(),
            forall|e: [u32; 2]| #[trigger]
                edges@.contains(e) <==> exists|j: int|
                    0 <= j < i && #[trigger] s[j].id == e[0] && deps_of(s[j]).contains(e[1]),
        decreases skills@.len() - i,
    {
        let skill = &skills[i];
        if let Some(deps) = &skill.dependencies {
            let mut k: usize = 0;
            while k < deps.len()
                invariant
                    i < skills@.len(),
                    skill == skills@[i as int],
                    skill.dependencies == Some(*deps),
                    k <= deps@.len(),
                    s == views(skills@),
                    edges@.no_duplicates(),
                    forall|e: [u32; 2]| #[trigger]
                        edges@.contains(e) <==> pair_listed_before(s, i as int, k as int, e[0], e[1]),
                decreases deps@.len() - k,
            {
                let d = deps[k];
                let pair: [u32; 2] = [skill.id, d];
                proof {
                    assert(s[i as int] == skills@[i as int]@);
                    assert(deps@.take(k + 1) =~= deps@.take(k as int).push(d));
                    assert(pair[0] == skill.id && pair[1] == d);
                }
                let ghost before = edges@;
                let present = contains_pair(&edges, skill.id, d);
                if !present {
                    edges.push(pair);
                    proof {
                        assert forall|e: [u32; 2]| before.contains(e) implies e != pair by {}
                        assert forall|j: int, l: int| 0 <= j < l < edges@.len()
                            implies edges@[j] != edges@[l] by {
                            if l == before.len() {
                                assert(before.contains(edges@[j]));
                            } else {
                                assert(before[j] != before[l]);
                            }
                        }
                    }
                }
                proof {
                    if present {
                        let w = choose|w: [u32; 2]| before.contains(w) && w[0] == skill.id && w[1] == d;
                        assert(w =~= pair);
                    }
                    assert(edges@.contains(pair)) by {
                        if !present {
                            assert(edges@[before.len() as int] == pair);
                        }
                    }
                    assert forall|e: [u32; 2]| e != pair implies
                        (edges@.contains(e) <==> before.contains(e)) by {
                        if !present {
                            if edges@.contains(e) {
                                let m = choose|m: int| 0 <= m < edges@.len() && edges@[m] == e;
                                assert(m < before.len());
                                assert(before[m] == e);
                            }
                            if before.contains(e) {
                                let m = choose|m: int| 0 <= m < before.len() && before[m] == e;
                                assert(edges@[m] == e);
                            }
                        }
                    }
                    assert(deps@.take(k + 1)[k as int] == d);
                    assert forall|e: [u32; 2]|
                        edges@.contains(e) <==> pair_listed_before(
                            s,
                            i as int,
                            k + 1,
                            e[0],
                            e[1],
                        ) by {
                        if e[0] == pair[0] && e[1] == pair[1] {
                            assert(e =~= pair);
                            assert(deps@.take(k + 1).contains(d));
                            assert(s[i as int].id == skill.id);
                            assert(deps_of(s[i as int]) == deps@);
                            assert(edges@.contains(e));
                            assert(pair_listed_before(s, i as int, k + 1, e[0], e[1]));
                        } else {
                            assert(deps_of(s[i as int]) == deps@);
                            assert(before.contains(e) <==> pair_listed_before(s, i as int, k as int, e[0], e[1]));
                            assert(e != pair);
                            if deps@.take(k + 1).contains(e[1]) && s[i as int].id == e[0] {
                                let m = choose|m: int|
                                    0 <= m < k + 1 && #[trigger] deps@.take(k + 1)[m] == e[1];
                                assert(m < k);
                                assert(deps@.take(k as int)[m] == e[1]);
                            }
                            if deps@.take(k as int).contains(e[1]) {
                                let m = choose|m: int|
                                    0 <= m < k && #[trigger] deps@.take(k as int)[m] == e[1];
                                assert(deps@.take(k + 1)[m] == e[1]);
                            }
                        }
                    }
                }
                k += 1;
            }
            proof {
                assert(deps@.take(deps@.len() as int) =~= deps@);
                assert(s[i as int] == skills@[i as int]@);
            }
        }
        proof {
            assert(s[i as int] == skills@[i as int]@);
            assert forall|e: [u32; 2]|
                edges@.contains(e) <==> exists|j: int|
                    0 <= j < i + 1 && #[trigger] s[j].id == e[0] && deps_of(s[j]).contains(
                        e[1],
                    ) by {
                if s[i as int].id == e[0] && deps_of(s[i as int]).contains(e[1]) {
                    if skills@[i as int].dependencies.is_some() {
                        assert(pair_listed_before(s, i as int, deps_of(s[i as int]).len() as int, e[0], e[1]));
                    }
                }
                if edges@.contains(e) {
                    if skills@[i as int].dependencies.is_some() {
                        if !(exists|j: int|
                            0 <= j < i && #[trigger] s[j].id == e[0] && deps_of(s[j]).contains(e[1])) {
                            assert(deps_of(s[i as int]).take(deps_of(s[i as int]).len() as int) =~= deps_of(s[i as int]));
                            assert(s[i as int].id == e[0] && deps_of(s[i as int]).contains(e[1]));
                        }
                    }
                }
            }
        }
        i += 1;
    }
    proof {
        assert forall|e: [u32; 2]| #[trigger]
            edges@.contains(e) <==> is_dependency_pair(views(skills@), e[0], e[1]) by {}
    }
    edges
}

} // verus!
