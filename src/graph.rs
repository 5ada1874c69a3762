use vstd::prelude::*;

use petgraph::stable_graph::{NodeIndex, StableGraph};
use std::collections::HashMap;

use crate::json::JsonValue;
use crate::skills::{deps_of, document_value, records_value, views, Skill, SkillError, SkillView};

verus! {

broadcast use vstd::std_specs::hash::group_hash_axioms;

#[verifier::external_type_specification]
#[verifier::external_body]
#[verifier::reject_recursive_types(N)]
#[verifier::reject_recursive_types(E)]
#[verifier::reject_recursive_types(Ty)]
#[verifier::reject_recursive_types(Ix)]
pub struct ExStableGraph<N, E, Ty, Ix>(StableGraph<N, E, Ty, Ix>);

#[verifier::external_type_specification]
#[verifier::external_body]
pub struct ExDirected(petgraph::Directed);

/// The node weights of a skill graph, slot by slot in index order. Where no
/// slot is vacant (see [`graph_vacancies`]) these are all its nodes.
pub uninterp spec fn graph_nodes(g: StableGraph<Skill, ()>) -> Seq<Skill>;

/// The edges of a skill graph as (source index, target index), slot by slot
/// in index order. Where no slot is vacant these are all its edges.
pub uninterp spec fn graph_edges(g: StableGraph<Skill, ()>) -> Seq<(int, int)>;

/// How many node and edge slots of a skill graph a removal has left vacant
/// (the entries of its two free lists).
pub uninterp spec fn graph_vacancies(g: StableGraph<Skill, ()>) -> nat;

/// Relies on `StableGraph::new`: a graph with no node and no edge.
#[verifier::external_body]
fn empty_graph() -> (g: StableGraph<Skill, ()>)
    ensures
        graph_nodes(g) == Seq::<Skill>::empty(),
        graph_edges(g) == Seq::<(int, int)>::empty(),
        graph_vacancies(g) == 0,
{
    StableGraph::new()
}

/// Relies on `StableGraph::add_node`: with no vacant node slot to reuse, the
/// weight takes a new slot at the next index, which must stay below the `u32`
/// index type's end marker; no slot becomes vacant.
#[verifier::external_body]
fn add_skill_node(g: &mut StableGraph<Skill, ()>, skill: Skill) -> (i: usize)
    requires
        graph_vacancies(*old(g)) == 0,
        graph_nodes(*old(g)).len() < u32::MAX,
    ensures
        graph_vacancies(*final(g)) == 0,
        graph_nodes(*final(g)) == graph_nodes(*old(g)).push(skill),
        graph_edges(*final(g)) == graph_edges(*old(g)),
        i == graph_nodes(*old(g)).len(),
{
    g.add_node(skill).index()
}

/// Relies on `StableGraph::add_edge`: both endpoints must be nodes (with no
/// vacant slot, every index below the node count is one), and with no vacant
/// edge slot to reuse the new edge takes the next index below the `u32` end
/// marker; no slot becomes vacant.
#[verifier::external_body]
fn add_dependency_edge(g: &mut StableGraph<Skill, ()>, from: usize, to: usize)
    requires
        graph_vacancies(*old(g)) == 0,
        from < graph_nodes(*old(g)).len(),
        to < graph_nodes(*old(g)).len(),
        graph_nodes(*old(g)).len() <= u32::MAX,
        graph_edges(*old(g)).len() < u32::MAX,
    ensures
        graph_vacancies(*final(g)) == 0,
        graph_nodes(*final(g)) == graph_nodes(*old(g)),
        graph_edges(*final(g)) == graph_edges(*old(g)).push((from as int, to as int)),
{
    g.add_edge(NodeIndex::new(from), NodeIndex::new(to), ());
}

/// The character of a decimal digit.
pub open spec fn digit_char(d: nat) -> char {
    seq!['0', '1', '2', '3', '4', '5', '6', '7', '8', '9'][d as int]
}

/// The decimal numeral of `n`: no sign, no leading zero.
pub open spec fn decimal_digits(n: nat) -> Seq<char>
    decreases n,
{
    if n < 10 {
        seq![digit_char(n)]
    } else {
        decimal_digits(n / 10).push(digit_char(n % 10))
    }
}

/// The one-character text of a decimal digit.
fn digit_text(d: u32) -> (r: &'static str)
    requires
        d < 10,
    ensures
        r@ == seq![digit_char(d as nat)],
{
    let r = match d {
        0 => {
            proof {
                reveal_strlit("0");
            }
            "0"
        },
        1 => {
            proof {
                reveal_strlit("1");
            }
            "1"
        },
        2 => {
            proof {
                reveal_strlit("2");
            }
            "2"
        },
        3 => {
            proof {
                reveal_strlit("3");
            }
            "3"
        },
        4 => {
            proof {
                reveal_strlit("4");
            }
            "4"
        },
        5 => {
            proof {
                reveal_strlit("5");
            }
            "5"
        },
        6 => {
            proof {
                reveal_strlit("6");
            }
            "6"
        },
        7 => {
            proof {
                reveal_strlit("7");
            }
            "7"
        },
        8 => {
            proof {
                reveal_strlit("8");
            }
            "8"
        },
        _ => {
            proof {
                reveal_strlit("9");
            }
            "9"
        },
    };
    assert(r@ =~= seq![digit_char(d as nat)]);
    r
}

/// The decimal numeral of `n`.
pub fn decimal_text(n: u32) -> (r: String)
    ensures
        r@ == decimal_digits(n as nat),
    decreases n,
{
    if n < 10 {
        String::from_str(digit_text(n))
    } else {
        let mut r = decimal_text(n / 10);
        r.append(digit_text(n % 10));
        assert(r@ =~= decimal_digits(n as nat));
        r
    }
}

/// The display label of a record: its name where it has one, else its id in decimal.
pub open spec fn label_of(v: SkillView) -> Seq<char> {
    match v.name {
        Some(n) => n,
        None => decimal_digits(v.id as nat),
    }
}

/// The display label of a record's node.
pub fn skill_label(skill: &Skill) -> (r: String)
    ensures
        r@ == label_of(skill@),
{
    match &skill.name {
        Some(n) => n.clone(),
        None => decimal_text(skill.id),
    }
}

/// The index of the last record with identifier `id`.
pub open spec fn last_with_id(s: Seq<SkillView>, id: u32) -> Option<int>
    decreases s.len(),
{
    if s.len() == 0 {
        None
    } else if s.last().id == id {
        Some(s.len() - 1)
    } else {
        last_with_id(s.drop_last(), id)
    }
}

/// The node that stands for record `j`: the last record sharing its identifier.
pub open spec fn node_of(s: Seq<SkillView>, j: int) -> int {
    match last_with_id(s, s[j].id) {
        Some(t) => t,
        None => j,
    }
}

/// The edges into node `to` for a list of dependency ids, in list order;
/// an id that no record has gives none.
pub open spec fn dep_edges(s: Seq<SkillView>, deps: Seq<u32>, to: int) -> Seq<(int, int)>
    decreases deps.len(),
{
    if deps.len() == 0 {
        Seq::empty()
    } else {
        let prev = dep_edges(s, deps.drop_last(), to);
        match last_with_id(s, deps.last()) {
            Some(p) => prev.push((p, to)),
            None => prev,
        }
    }
}

/// The edges that the first `n` records contribute, in record order.
pub open spec fn edges_upto(s: Seq<SkillView>, n: int) -> Seq<(int, int)>
    decreases n,
{
    if n <= 0 {
        Seq::empty()
    } else {
        edges_upto(s, n - 1) + dep_edges(s, deps_of(s[n - 1]), node_of(s, n - 1))
    }
}

/// The dependency edges of a record list.
pub open spec fn skill_edges(s: Seq<SkillView>) -> Seq<(int, int)> {
    edges_upto(s, s.len() as int)
}

proof fn lemma_last_with_id(s: Seq<SkillView>, id: u32)
    ensures
        match last_with_id(s, id) {
            Some(p) => 0 <= p < s.len() && s[p].id == id && forall|i: int|
                p < i < s.len() ==> #[trigger] s[i].id != id,
            None => forall|i: int| 0 <= i < s.len() ==> #[trigger] s[i].id != id,
        },
    decreases s.len(),
{
    if s.len() > 0 {
        lemma_last_with_id(s.drop_last(), id);
        assert forall|i: int| 0 <= i < s.len() - 1 implies s[i] == s.drop_last()[i] by {}
    }
}

proof fn lemma_last_with_id_push(s: Seq<SkillView>, i: int, id: u32)
    requires
        0 <= i < s.len(),
    ensures
        last_with_id(s.take(i + 1), id) == (if s[i].id == id {
            Some(i)
        } else {
            last_with_id(s.take(i), id)
        }),
{
    assert(s.take(i + 1).drop_last() =~= s.take(i));
}

proof fn lemma_dep_edges_len(s: Seq<SkillView>, deps: Seq<u32>, to: int, k: int)
    requires
        0 <= k <= deps.len(),
    ensures
        dep_edges(s, deps.take(k), to).len() <= dep_edges(s, deps, to).len(),
    decreases deps.len(),
{
    if k < deps.len() {
        assert(deps.drop_last().take(k) =~= deps.take(k));
        lemma_dep_edges_len(s, deps.drop_last(), to, k);
    } else {
        assert(deps.take(k) =~= deps);
    }
}

proof fn lemma_edges_upto_len(s: Seq<SkillView>, i: int, n: int)
    requires
        0 <= i <= n,
    ensures
        edges_upto(s, i).len() <= edges_upto(s, n).len(),
    decreases n,
{
    if i < n {
        lemma_edges_upto_len(s, i, n - 1);
    }
}

/// How many dependency ids the first `n` records list in all.
pub open spec fn listed_upto(s: Seq<SkillView>, n: int) -> nat
    decreases n,
{
    if n <= 0 {
        0
    } else {
        listed_upto(s, n - 1) + deps_of(s[n - 1]).len()
    }
}

proof fn lemma_dep_edges_bound(s: Seq<SkillView>, deps: Seq<u32>, to: int)
    ensures
        dep_edges(s, deps, to).len() <= deps.len(),
    decreases deps.len(),
{
    if deps.len() > 0 {
        lemma_dep_edges_bound(s, deps.drop_last(), to);
    }
}

/// A graph has no more edges than its records list dependency ids.
pub proof fn lemma_edges_bounded_by_listed(s: Seq<SkillView>, n: int)
    ensures
        edges_upto(s, n).len() <= listed_upto(s, n),
    decreases n,
{
    if n > 0 {
        lemma_edges_bounded_by_listed(s, n - 1);
        lemma_dep_edges_bound(s, deps_of(s[n - 1]), node_of(s, n - 1));
    }
}

/// Whether the records and the ids they list stay below the graph's `u32`
/// index limit; where they do, [`build_skill_graph`] may be called.
pub fn within_index_limit(skills: &[Skill]) -> (r: bool)
    ensures
        r == (skills@.len() < u32::MAX && listed_upto(views(skills@), skills@.len() as int)
            < u32::MAX),
        r ==> skill_edges(views(skills@)).len() < u32::MAX,
{
    let ghost s = views(skills@);
    proof {
        lemma_edges_bounded_by_listed(s, skills@.len() as int);
    }
    if skills.len() >= 0xffff_ffff {
        return false;
    }
    let mut total: usize = 0;
    let mut i: usize = 0;
    while i < skills.len()
        invariant
            s == views(skills@),
            i <= skills@.len(),
            total == listed_upto(s, i as int),
            total < u32::MAX,
        decreases skills@.len() - i,
    {
        let listed: usize = match &skills[i].dependencies {
            Some(d) => d.len(),
            None => 0,
        };
        proof {
            assert(s[i as int] == skills@[i as int]@);
        }
        if listed >= 0xffff_ffff - total {
            proof {
                lemma_listed_grows(s, i as int + 1, skills@.len() as int);
            }
            return false;
        }
        total = total + listed;
        i += 1;
    }
    true
}

proof fn lemma_listed_grows(s: Seq<SkillView>, i: int, n: int)
    requires
        i <= n,
    ensures
        listed_upto(s, i) <= listed_upto(s, n),
    decreases n - i,
{
    if i < n {
        lemma_listed_grows(s, i, n - 1);
    }
}

/// Builds the dependency graph of a record list: one node per record, holding
/// it, and for each listed dependency id that some record has, one edge from
/// that record's node to the listing record's node. Where several records
/// share an id, the last of them stands for the id.
pub fn build_skill_graph(skills: &[Skill]) -> (g: StableGraph<Skill, ()>)
    requires
        skills@.len() < u32::MAX,
        skill_edges(views(skills@)).len() < u32::MAX,
    ensures
        graph_vacancies(g) == 0,
        views(graph_nodes(g)) == views(skills@),
        graph_edges(g) == skill_edges(views(skills@)),
{
    let ghost s = views(skills@);
    let n = skills.len();
    let mut g = empty_graph();
    let mut id_to_idx: HashMap<u32, usize> = HashMap::new();
    let mut i: usize = 0;
    while i < n
        invariant
            n == skills@.len(),
            n < u32::MAX,
            s == views(skills@),
            i <= n,
            graph_vacancies(g) == 0,
            views(graph_nodes(g)) == s.take(i as int),
            graph_edges(g) == Seq::<(int, int)>::empty(),
            forall|id: u32| #[trigger]
                id_to_idx@.contains_key(id) <==> last_with_id(s.take(i as int), id) is Some,
            forall|id: u32|
                id_to_idx@.contains_key(id) ==> last_with_id(s.take(i as int), id) == Some(
                    #[trigger] id_to_idx@[id] as int,
                ),
        decreases n - i,
    {
        let skill = skills[i].duplicate();
        let id = skill.id;
        proof {
            assert(graph_nodes(g).len() == i) by {
                assert(views(graph_nodes(g)).len() == graph_nodes(g).len());
            }
        }
        let idx = add_skill_node(&mut g, skill);
        id_to_idx.insert(id, idx);
        proof {
            assert(views(graph_nodes(g)) =~= s.take(i + 1));
            assert forall|k: u32| #[trigger] id_to_idx@.contains_key(k) <==> last_with_id(
                s.take(i + 1),
                k,
            ) is Some by {
                lemma_last_with_id_push(s, i as int, k);
            }
            assert forall|k: u32| id_to_idx@.contains_key(k) implies last_with_id(
                s.take(i + 1),
                k,
            ) == Some(#[trigger] id_to_idx@[k] as int) by {
                lemma_last_with_id_push(s, i as int, k);
            }
        }
        i += 1;
    }
    proof {
        assert(s.take(n as int) =~= s);
        assert(graph_nodes(g).len() == n) by {
            assert(views(graph_nodes(g)).len() == graph_nodes(g).len());
        }
    }
    let mut j: usize = 0;
    while j < n
        invariant
            n == skills@.len(),
            n < u32::MAX,
            s == views(skills@),
            j <= n,
            graph_vacancies(g) == 0,
            views(graph_nodes(g)) == s,
            graph_nodes(g).len() == n,
            graph_edges(g) == edges_upto(s, j as int),
            skill_edges(s).len() < u32::MAX,
            forall|id: u32| #[trigger]
                id_to_idx@.contains_key(id) <==> last_with_id(s, id) is Some,
            forall|id: u32|
                id_to_idx@.contains_key(id) ==> last_with_id(s, id) == Some(
                    #[trigger] id_to_idx@[id] as int,
                ),
        decreases n - j,
    {
        let skill = &skills[j];
        proof {
            assert(s[j as int] == skill@);
            lemma_last_with_id(s, skill.id);
        }
        let to: usize = match id_to_idx.get(&skill.id) {
            Some(t) => *t,
            None => j,
        };
        proof {
            assert(to as int == node_of(s, j as int));
            lemma_last_with_id(s, skill.id);
        }
        if let Some(deps) = &skill.dependencies {
            let mut k: usize = 0;
            while k < deps.len()
                invariant
                    n == skills@.len(),
                    n < u32::MAX,
                    s == views(skills@),
                    j < n,
                    s[j as int] == skill@,
                    skill.dependencies == Some(*deps),
                    to as int == node_of(s, j as int),
                    to < n,
                    k <= deps@.len(),
                    graph_vacancies(g) == 0,
                    views(graph_nodes(g)) == s,
                    graph_nodes(g).len() == n,
                    graph_edges(g) == edges_upto(s, j as int) + dep_edges(
                        s,
                        deps@.take(k as int),
                        to as int,
                    ),
                    skill_edges(s).len() < u32::MAX,
                    forall|id: u32| #[trigger]
                        id_to_idx@.contains_key(id) <==> last_with_id(s, id) is Some,
                    forall|id: u32|
                        id_to_idx@.contains_key(id) ==> last_with_id(s, id) == Some(
                            #[trigger] id_to_idx@[id] as int,
                        ),
                decreases deps@.len() - k,
            {
                let d = deps[k];
                proof {
                    assert(deps@.take(k + 1).drop_last() =~= deps@.take(k as int));
                    lemma_last_with_id(s, d);
                    lemma_dep_edges_len(s, deps@, to as int, k + 1);
                    lemma_edges_upto_len(s, j + 1, n as int);
                    assert(deps_of(s[j as int]) == deps@);
                }
                match id_to_idx.get(&d) {
                    Some(from) => {
                        add_dependency_edge(&mut g, *from, to);
                    },
                    None => {},
                }
                proof {
                    assert(graph_edges(g) =~= edges_upto(s, j as int) + dep_edges(
                        s,
                        deps@.take(k + 1),
                        to as int,
                    ));
                }
                k += 1;
            }
            proof {
                assert(deps@.take(deps@.len() as int) =~= deps@);
            }
        }
        proof {
            assert(deps_of(s[j as int]) == deps_of(skill@));
            if skill.dependencies.is_none() {
                assert(edges_upto(s, j + 1) =~= edges_upto(s, j as int));
            }
        }
        j += 1;
    }
    g
}

} // verus!

verus! {

/// No two records share an identifier.
pub open spec fn ids_unique(s: Seq<SkillView>) -> bool {
    forall|i: int, j: int| 0 <= i < s.len() && 0 <= j < s.len() && i != j ==> s[i].id != s[j].id
}

proof fn lemma_push_contains<T>(s: Seq<T>, x: T, e: T)
    ensures
        s.push(x).contains(e) <==> (s.contains(e) || e == x),
{
    if s.push(x).contains(e) {
        let m = choose|m: int| 0 <= m < s.push(x).len() && s.push(x)[m] == e;
        if m < s.len() {
            assert(s[m] == e);
        }
    }
    if s.contains(e) {
        let m = choose|m: int| 0 <= m < s.len() && s[m] == e;
        assert(s.push(x)[m] == e);
    }
    if e == x {
        assert(s.push(x)[s.len() as int] == e);
    }
}

proof fn lemma_add_contains<T>(a: Seq<T>, b: Seq<T>, e: T)
    ensures
        (a + b).contains(e) <==> (a.contains(e) || b.contains(e)),
{
    if (a + b).contains(e) {
        let m = choose|m: int| 0 <= m < (a + b).len() && (a + b)[m] == e;
        if m < a.len() {
            assert(a[m] == e);
        } else {
            assert(b[m - a.len()] == e);
        }
    }
    if a.contains(e) {
        let m = choose|m: int| 0 <= m < a.len() && a[m] == e;
        assert((a + b)[m] == e);
    }
    if b.contains(e) {
        let m = choose|m: int| 0 <= m < b.len() && b[m] == e;
        assert((a + b)[m + a.len()] == e);
    }
}

proof fn lemma_dep_edges_contains(s: Seq<SkillView>, deps: Seq<u32>, to: int, e: (int, int))
    ensures
        dep_edges(s, deps, to).contains(e) <==> (e.1 == to && exists|k: int|
            0 <= k < deps.len() && last_with_id(s, #[trigger] deps[k]) == Some(e.0)),
    decreases deps.len(),
{
    if deps.len() > 0 {
        let prev = dep_edges(s, deps.drop_last(), to);
        lemma_dep_edges_contains(s, deps.drop_last(), to, e);
        match last_with_id(s, deps.last()) {
            Some(p) => lemma_push_contains(prev, (p, to), e),
            None => {},
        }
        if e.1 == to && exists|k: int|
            0 <= k < deps.len() && last_with_id(s, #[trigger] deps[k]) == Some(e.0) {
            let k = choose|k: int|
                0 <= k < deps.len() && last_with_id(s, #[trigger] deps[k]) == Some(e.0);
            if k < deps.len() - 1 {
                assert(deps.drop_last()[k] == deps[k]);
            }
        }
        if exists|k: int|
            0 <= k < deps.len() - 1 && last_with_id(s, #[trigger] deps.drop_last()[k]) == Some(e.0) {
            let k = choose|k: int|
                0 <= k < deps.len() - 1 && last_with_id(s, #[trigger] deps.drop_last()[k]) == Some(e.0);
            assert(deps[k] == deps.drop_last()[k]);
        }
    }
}

proof fn lemma_edges_upto_contains(s: Seq<SkillView>, n: int, e: (int, int))
    requires
        0 <= n <= s.len(),
    ensures
        edges_upto(s, n).contains(e) <==> exists|j: int|
            0 <= j < n && #[trigger] dep_edges(s, deps_of(s[j]), node_of(s, j)).contains(e),
    decreases n,
{
    if n > 0 {
        lemma_edges_upto_contains(s, n - 1, e);
        lemma_add_contains(
            edges_upto(s, n - 1),
            dep_edges(s, deps_of(s[n - 1]), node_of(s, n - 1)),
            e,
        );
    }
}

proof fn lemma_unique_last(s: Seq<SkillView>, p: int)
    requires
        ids_unique(s),
        0 <= p < s.len(),
    ensures
        last_with_id(s, s[p].id) == Some(p),
{
    lemma_last_with_id(s, s[p].id);
}

proof fn lemma_records_len(entries: Seq<(String, JsonValue)>)
    requires
        records_value(entries) is Ok,
    ensures
        records_value(entries)->Ok_0.len() == entries.len(),
    decreases entries.len(),
{
    if entries.len() > 0 {
        lemma_records_len(entries.drop_last());
    }
}

/// Each member of a document that decodes gives one record, and the graph
/// built from those records has one node per record: the node count equals
/// the number of members.
pub proof fn lemma_one_node_per_member(doc: JsonValue, skills: Seq<Skill>, g: StableGraph<Skill, ()>)
    requires
        document_value(doc) == Ok::<Seq<SkillView>, SkillError>(views(skills)),
        views(graph_nodes(g)) == views(skills),
    ensures
        doc is Object,
        graph_nodes(g).len() == doc->Object_0@.len(),
{
    lemma_records_len(doc->Object_0@);
    assert(views(graph_nodes(g)).len() == graph_nodes(g).len());
    assert(views(skills).len() == skills.len());
}

/// A record that lists no dependency (no field, or an empty list) is the
/// target of no edge, where ids are unique.
pub proof fn lemma_no_dependencies_no_incoming(s: Seq<SkillView>, j: int)
    requires
        ids_unique(s),
        0 <= j < s.len(),
        deps_of(s[j]).len() == 0,
    ensures
        forall|e: (int, int)| #[trigger] skill_edges(s).contains(e) ==> e.1 != j,
{
    assert forall|e: (int, int)| #[trigger] skill_edges(s).contains(e) implies e.1 != j by {
        lemma_edges_upto_contains(s, s.len() as int, e);
        let i = choose|i: int|
            0 <= i < s.len() && #[trigger] dep_edges(s, deps_of(s[i]), node_of(s, i)).contains(e);
        lemma_dep_edges_contains(s, deps_of(s[i]), node_of(s, i), e);
        lemma_unique_last(s, i);
        assert(node_of(s, i) == i);
        if i == j {
            assert(deps_of(s[i]).len() == 0);
        }
    }
}

/// Where ids are unique, there is an edge from record `p` to record `j`
/// exactly when `j` lists the id of `p` among its dependencies.
pub proof fn lemma_edge_iff_listed(s: Seq<SkillView>, p: int, j: int)
    requires
        ids_unique(s),
        0 <= p < s.len(),
        0 <= j < s.len(),
    ensures
        skill_edges(s).contains((p, j)) <==> deps_of(s[j]).contains(s[p].id),
{
    let e = (p, j);
    lemma_edges_upto_contains(s, s.len() as int, e);
    lemma_unique_last(s, p);
    lemma_unique_last(s, j);
    lemma_dep_edges_contains(s, deps_of(s[j]), node_of(s, j), e);
    if skill_edges(s).contains(e) {
        let i = choose|i: int|
            0 <= i < s.len() && #[trigger] dep_edges(s, deps_of(s[i]), node_of(s, i)).contains(e);
        lemma_dep_edges_contains(s, deps_of(s[i]), node_of(s, i), e);
        lemma_unique_last(s, i);
        assert(i == j);
        let k = choose|k: int|
            0 <= k < deps_of(s[j]).len() && last_with_id(s, #[trigger] deps_of(s[j])[k]) == Some(p);
        lemma_last_with_id(s, deps_of(s[j])[k]);
        assert(deps_of(s[j])[k] == s[p].id);
    }
    if deps_of(s[j]).contains(s[p].id) {
        let k = choose|k: int| 0 <= k < deps_of(s[j]).len() && deps_of(s[j])[k] == s[p].id;
        assert(last_with_id(s, deps_of(s[j])[k]) == Some(p));
        assert(dep_edges(s, deps_of(s[j]), node_of(s, j)).contains(e));
    }
}

/// Every edge joins two records, and its target record (or the record whose
/// id the target stands for) lists the source record's id: an id that no
/// record has gives no edge.
pub proof fn lemma_edges_only_from_records(s: Seq<SkillView>, e: (int, int))
    requires
        skill_edges(s).contains(e),
    ensures
        0 <= e.0 < s.len(),
        0 <= e.1 < s.len(),
        exists|j: int|
            0 <= j < s.len() && node_of(s, j) == e.1 && #[trigger] deps_of(s[j]).contains(s[e.0].id),
{
    lemma_edges_upto_contains(s, s.len() as int, e);
    let j = choose|j: int|
        0 <= j < s.len() && #[trigger] dep_edges(s, deps_of(s[j]), node_of(s, j)).contains(e);
    lemma_dep_edges_contains(s, deps_of(s[j]), node_of(s, j), e);
    let k = choose|k: int|
        0 <= k < deps_of(s[j]).len() && last_with_id(s, #[trigger] deps_of(s[j])[k]) == Some(e.0);
    lemma_last_with_id(s, deps_of(s[j])[k]);
    lemma_last_with_id(s, s[j].id);
    assert(deps_of(s[j]).contains(s[e.0].id));
}

/// How many times `x` occurs in `s`.
pub open spec fn count_of<T>(s: Seq<T>, x: T) -> nat
    decreases s.len(),
{
    if s.len() == 0 {
        0
    } else {
        count_of(s.drop_last(), x) + if s.last() == x {
            1nat
        } else {
            0nat
        }
    }
}

proof fn lemma_count_add<T>(a: Seq<T>, b: Seq<T>, x: T)
    ensures
        count_of(a + b, x) == count_of(a, x) + count_of(b, x),
    decreases b.len(),
{
    if b.len() == 0 {
        assert(a + b =~= a);
    } else {
        assert((a + b).drop_last() =~= a + b.drop_last());
        lemma_count_add(a, b.drop_last(), x);
    }
}

proof fn lemma_dep_edges_count_other(s: Seq<SkillView>, deps: Seq<u32>, to: int, e: (int, int))
    requires
        e.1 != to,
    ensures
        count_of(dep_edges(s, deps, to), e) == 0,
    decreases deps.len(),
{
    if deps.len() > 0 {
        lemma_dep_edges_count_other(s, deps.drop_last(), to, e);
        match last_with_id(s, deps.last()) {
            Some(q) => {
                let prev = dep_edges(s, deps.drop_last(), to);
                assert(prev.push((q, to)).drop_last() =~= prev);
            },
            None => {},
        }
    }
}

proof fn lemma_dep_edges_count(s: Seq<SkillView>, deps: Seq<u32>, to: int, p: int)
    requires
        ids_unique(s),
        0 <= p < s.len(),
    ensures
        count_of(dep_edges(s, deps, to), (p, to)) == count_of(deps, s[p].id),
    decreases deps.len(),
{
    if deps.len() > 0 {
        lemma_dep_edges_count(s, deps.drop_last(), to, p);
        lemma_last_with_id(s, deps.last());
        lemma_unique_last(s, p);
        match last_with_id(s, deps.last()) {
            Some(q) => {
                let prev = dep_edges(s, deps.drop_last(), to);
                assert(prev.push((q, to)).drop_last() =~= prev);
            },
            None => {},
        }
    }
}

proof fn lemma_edges_upto_count(s: Seq<SkillView>, n: int, p: int, j: int)
    requires
        ids_unique(s),
        0 <= p < s.len(),
        0 <= j < s.len(),
        0 <= n <= s.len(),
    ensures
        count_of(edges_upto(s, n), (p, j)) == if j < n {
            count_of(deps_of(s[j]), s[p].id)
        } else {
            0
        },
    decreases n,
{
    if n > 0 {
        lemma_edges_upto_count(s, n - 1, p, j);
        let i = n - 1;
        lemma_unique_last(s, i);
        lemma_count_add(edges_upto(s, i), dep_edges(s, deps_of(s[i]), node_of(s, i)), (p, j));
        if i == j {
            lemma_dep_edges_count(s, deps_of(s[i]), i, p);
        } else {
            lemma_dep_edges_count_other(s, deps_of(s[i]), i, (p, j));
        }
    }
}

/// Where ids are unique, the edges from record `p` to record `j` are as many
/// as the times `j` lists the id of `p`: exactly one for an id listed once.
pub proof fn lemma_edge_multiplicity(s: Seq<SkillView>, p: int, j: int)
    requires
        ids_unique(s),
        0 <= p < s.len(),
        0 <= j < s.len(),
    ensures
        count_of(skill_edges(s), (p, j)) == count_of(deps_of(s[j]), s[p].id),
{
    lemma_edges_upto_count(s, s.len() as int, p, j);
}

/// For a graph as [`build_skill_graph`] returns it: one node per record, in
/// record order, and each node's label is its record's name where it has one,
/// else its id in decimal.
pub proof fn lemma_built_graph_nodes(skills: Seq<Skill>, g: StableGraph<Skill, ()>)
    requires
        views(graph_nodes(g)) == views(skills),
    ensures
        graph_nodes(g).len() == skills.len(),
        forall|i: int|
            0 <= i < skills.len() ==> label_of(#[trigger] graph_nodes(g)[i]@) == label_of(
                skills[i]@,
            ),
{
    assert(views(graph_nodes(g)).len() == graph_nodes(g).len());
    assert(views(skills).len() == skills.len());
    assert forall|i: int| 0 <= i < skills.len() implies label_of(
        #[trigger] graph_nodes(g)[i]@,
    ) == label_of(skills[i]@) by {
        assert(views(graph_nodes(g))[i] == graph_nodes(g)[i]@);
        assert(views(skills)[i] == skills[i]@);
    }
}

/// For a graph as [`build_skill_graph`] returns it from records with unique
/// ids: node `j` has an edge from node `p` exactly when record `j` lists the id
/// of record `p`; every edge joins two nodes, its target lists its source's id
/// (so an id that no record has lies on no edge); and a record that lists no
/// dependency has no incoming edge.
pub proof fn lemma_built_graph_edges(skills: Seq<Skill>, g: StableGraph<Skill, ()>)
    requires
        views(graph_nodes(g)) == views(skills),
        graph_edges(g) == skill_edges(views(skills)),
        ids_unique(views(skills)),
    ensures
        forall|p: int, j: int|
            0 <= p < skills.len() && 0 <= j < skills.len() ==> (#[trigger] graph_edges(g).contains(
                (p, j),
            ) <==> deps_of(skills[j]@).contains(skills[p].id)),
        forall|e: (int, int)| #[trigger]
            graph_edges(g).contains(e) ==> 0 <= e.0 < skills.len() && 0 <= e.1 < skills.len()
                && deps_of(skills[e.1]@).contains(skills[e.0].id),
        forall|k: int, e: (int, int)|
            0 <= k < skills.len() && deps_of(#[trigger] skills[k]@).len() == 0
                && #[trigger] graph_edges(g).contains(e) ==> e.1 != k,
{
    let s = views(skills);
    assert(s.len() == skills.len());
    assert forall|p: int, j: int|
        0 <= p < skills.len() && 0 <= j < skills.len() implies (#[trigger] graph_edges(g).contains(
            (p, j),
        ) <==> deps_of(skills[j]@).contains(skills[p].id)) by {
        assert(s[p] == skills[p]@ && s[j] == skills[j]@);
        lemma_edge_iff_listed(s, p, j);
    }
    assert forall|e: (int, int)| #[trigger] graph_edges(g).contains(e) implies 0 <= e.0
        < skills.len() && 0 <= e.1 < skills.len() && deps_of(skills[e.1]@).contains(
        skills[e.0].id,
    ) by {
        lemma_edges_only_from_records(s, e);
        assert(s[e.0] == skills[e.0]@ && s[e.1] == skills[e.1]@);
        lemma_edge_iff_listed(s, e.0, e.1);
    }
    assert forall|k: int, e: (int, int)|
        0 <= k < skills.len() && deps_of(#[trigger] skills[k]@).len() == 0
            && #[trigger] graph_edges(g).contains(e) implies e.1 != k by {
        assert(s[k] == skills[k]@);
        lemma_no_dependencies_no_incoming(s, k);
    }
}

} // verus!
