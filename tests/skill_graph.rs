use petgraph::stable_graph::NodeIndex;
use skill_graph::graph::{decimal_text, skill_label};
use skill_graph::skills::{dependencies_from_json, name_from_json, parse_decimal};
use skill_graph::{
    build_skill_graph, extract_edges, skill_from_json, skills_from_json, JsonValue, Skill,
    SkillError,
};

fn text(s: &str) -> JsonValue {
    JsonValue::Text(s.to_string())
}

fn object(members: Vec<(&str, JsonValue)>) -> JsonValue {
    JsonValue::Object(members.into_iter().map(|(k, v)| (k.to_string(), v)).collect())
}

fn skill(id: u32, name: Option<&str>, deps: Option<Vec<u32>>) -> Skill {
    Skill {
        id,
        name: name.map(|n| n.to_string()),
        dependencies: deps,
    }
}

#[test]
fn fireball_document_gives_two_labelled_nodes_and_one_edge() {
    let doc = object(vec![
        (
            "1",
            object(vec![("name", text("Fireball")), ("out", JsonValue::Array(vec![]))]),
        ),
        ("2", object(vec![("out", text("1"))])),
    ]);
    let skills = skills_from_json(&doc).unwrap();
    assert_eq!(skills, vec![skill(1, Some("Fireball"), None), skill(2, None, Some(vec![1]))]);
    let g = build_skill_graph(&skills);
    assert_eq!(g.node_count(), 2);
    assert_eq!(g.edge_count(), 1);
    assert!(g.find_edge(NodeIndex::new(0), NodeIndex::new(1)).is_some());
    assert!(g.find_edge(NodeIndex::new(1), NodeIndex::new(0)).is_none());
    assert_eq!(skill_label(&g[NodeIndex::new(0)]), "Fireball");
    assert_eq!(skill_label(&g[NodeIndex::new(1)]), "2");
}

#[test]
fn dangling_dependency_gives_no_edge() {
    let doc = object(vec![(
        "1",
        object(vec![("out", JsonValue::Array(vec![text("9")]))]),
    )]);
    let skills = skills_from_json(&doc).unwrap();
    assert_eq!(skills, vec![skill(1, None, Some(vec![9]))]);
    let g = build_skill_graph(&skills);
    assert_eq!(g.node_count(), 1);
    assert_eq!(g.edge_count(), 0);
}

#[test]
fn node_count_equals_member_count() {
    let doc = object(vec![
        ("3", object(vec![])),
        ("1", object(vec![("out", JsonValue::Array(vec![text("3"), text("2")]))])),
        ("2", object(vec![("name", JsonValue::Null)])),
    ]);
    let skills = skills_from_json(&doc).unwrap();
    assert_eq!(skills.len(), 3);
    let g = build_skill_graph(&skills);
    assert_eq!(g.node_count(), 3);
    assert_eq!(g.edge_count(), 2);
    assert!(g.find_edge(NodeIndex::new(0), NodeIndex::new(1)).is_some());
    assert!(g.find_edge(NodeIndex::new(2), NodeIndex::new(1)).is_some());
}

#[test]
fn records_without_dependencies_have_no_incoming_edge() {
    let skills = vec![
        skill(1, None, None),
        skill(2, None, Some(vec![])),
        skill(3, None, Some(vec![1, 2])),
    ];
    let g = build_skill_graph(&skills);
    assert_eq!(g.edge_count(), 2);
    for e in g.edge_indices() {
        let (_, target) = g.edge_endpoints(e).unwrap();
        assert_eq!(target, NodeIndex::new(2));
    }
}

#[test]
fn edge_runs_from_dependency_to_dependent() {
    let skills = vec![skill(10, None, Some(vec![20])), skill(20, None, None)];
    let g = build_skill_graph(&skills);
    assert_eq!(g.edge_count(), 1);
    let e = g.edge_indices().next().unwrap();
    assert_eq!(g.edge_endpoints(e), Some((NodeIndex::new(1), NodeIndex::new(0))));
}

#[test]
fn repeated_dependency_gives_one_edge_per_listing() {
    let skills = vec![skill(1, None, None), skill(2, None, Some(vec![1, 1]))];
    let g = build_skill_graph(&skills);
    assert_eq!(g.edge_count(), 2);
}

#[test]
fn empty_record_list_gives_empty_graph() {
    let g = build_skill_graph(&[]);
    assert_eq!(g.node_count(), 0);
    assert_eq!(g.edge_count(), 0);
    let skills = skills_from_json(&JsonValue::Object(vec![])).unwrap();
    assert!(skills.is_empty());
}

#[test]
fn label_is_name_else_decimal_id() {
    assert_eq!(skill_label(&skill(7, Some("Ice"), None)), "Ice");
    assert_eq!(skill_label(&skill(1234, None, None)), "1234");
    assert_eq!(skill_label(&skill(0, None, None)), "0");
    assert_eq!(skill_label(&skill(u32::MAX, None, None)), "4294967295");
}

#[test]
fn dependency_field_shapes() {
    assert_eq!(dependencies_from_json(None), Ok(None));
    assert_eq!(dependencies_from_json(Some(&JsonValue::Null)), Ok(None));
    assert_eq!(dependencies_from_json(Some(&JsonValue::Array(vec![]))), Ok(None));
    assert_eq!(dependencies_from_json(Some(&text("42"))), Ok(Some(vec![42])));
    assert_eq!(dependencies_from_json(Some(&text("+5"))), Ok(Some(vec![5])));
    assert_eq!(dependencies_from_json(Some(&JsonValue::Bool(true))), Ok(None));
    assert_eq!(
        dependencies_from_json(Some(&JsonValue::Number("3".to_string()))),
        Ok(None)
    );
    let mixed = JsonValue::Array(vec![
        text("4"),
        JsonValue::Number("5".to_string()),
        text("6"),
    ]);
    assert_eq!(dependencies_from_json(Some(&mixed)), Ok(Some(vec![4, 6])));
    let only_numbers = JsonValue::Array(vec![JsonValue::Number("5".to_string())]);
    assert_eq!(dependencies_from_json(Some(&only_numbers)), Ok(Some(vec![])));
}

#[test]
fn bad_dependency_token_is_an_error() {
    assert_eq!(
        dependencies_from_json(Some(&text("abc"))),
        Err(SkillError::InvalidDependencyId)
    );
    assert_eq!(
        dependencies_from_json(Some(&text("4294967296"))),
        Err(SkillError::InvalidDependencyId)
    );
    assert_eq!(
        dependencies_from_json(Some(&JsonValue::Array(vec![text("1"), text("-1")]))),
        Err(SkillError::InvalidDependencyId)
    );
    assert_eq!(
        dependencies_from_json(Some(&text(""))),
        Err(SkillError::InvalidDependencyId)
    );
}

#[test]
fn name_field_shapes() {
    assert_eq!(name_from_json(None), Ok(None));
    assert_eq!(name_from_json(Some(&JsonValue::Null)), Ok(None));
    assert_eq!(name_from_json(Some(&text("Bolt"))), Ok(Some("Bolt".to_string())));
    assert_eq!(
        name_from_json(Some(&JsonValue::Number("1".to_string()))),
        Err(SkillError::InvalidName)
    );
}

#[test]
fn non_numeric_key_gives_id_zero() {
    let r = skill_from_json("abc", &object(vec![])).unwrap();
    assert_eq!(r, skill(0, None, None));
    let r = skill_from_json("0017", &object(vec![("name", text("x"))])).unwrap();
    assert_eq!(r, skill(17, Some("x"), None));
}

#[test]
fn document_errors() {
    assert_eq!(
        skills_from_json(&JsonValue::Array(vec![])),
        Err(SkillError::NotAnObject)
    );
    assert_eq!(
        skills_from_json(&object(vec![("1", JsonValue::Bool(false))])),
        Err(SkillError::RecordNotAnObject)
    );
    assert_eq!(
        skills_from_json(&object(vec![("1", object(vec![("name", JsonValue::Bool(true))]))])),
        Err(SkillError::InvalidName)
    );
    assert_eq!(
        skills_from_json(&object(vec![
            ("1", object(vec![])),
            ("2", object(vec![("out", text("x"))])),
        ])),
        Err(SkillError::InvalidDependencyId)
    );
}

#[test]
fn extract_edges_lists_each_pair_once() {
    let skills = vec![
        skill(1, None, Some(vec![2, 2, 3])),
        skill(2, None, None),
        skill(1, None, Some(vec![3])),
    ];
    let mut edges = extract_edges(skills);
    edges.sort();
    assert_eq!(edges, vec![[1, 2], [1, 3]]);
}

#[test]
fn duplicate_keeps_every_field() {
    let s = skill(5, Some("Heal"), Some(vec![1, 2]));
    assert_eq!(s.duplicate(), s);
}

#[test]
fn small_record_lists_are_within_the_index_limit() {
    assert!(skill_graph::within_index_limit(&[]));
    assert!(skill_graph::within_index_limit(&[skill(1, None, Some(vec![2, 3]))]));
}

#[test]
fn decimal_parsing_follows_u32_from_str() {
    for s in ["0", "7", "+7", "007", "4294967295", "4294967296", "", "+", "-1", "-0", "1 ", "1a", "٣"] {
        assert_eq!(parse_decimal(s), s.parse::<u32>().ok(), "input {s:?}");
    }
}

#[test]
fn decimal_text_matches_display() {
    for n in [0u32, 9, 10, 99, 100, 1234, 4294967295] {
        assert_eq!(decimal_text(n), n.to_string());
    }
}
