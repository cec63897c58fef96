use github_team_visualizer::forest::BuildError;
use github_team_visualizer::forest::Forest;
use github_team_visualizer::outline::format_line;
use github_team_visualizer::render::print_nested_tree;
use github_team_visualizer::render::print_team_tree;
use github_team_visualizer::team::has_valid_ids;
use github_team_visualizer::team::TeamTreeNode;
use github_team_visualizer::team::ROOT_ID;

fn team(id: u64, name: &str, parent_id: Option<u64>) -> TeamTreeNode {
    TeamTreeNode { id, name: name.to_string(), is_private: false, parent_id }
}

fn lines(expected: &[&str]) -> Vec<String> {
    expected.iter().map(|line| line.to_string()).collect()
}

#[test]
fn nested_teams_render_as_an_indented_outline() {
    let records = vec![
        team(1, "Eng", None),
        team(2, "Platform", Some(1)),
        team(3, "Infra", Some(2)),
        team(4, "Design", None),
    ];
    let forest = Forest::build(&records).unwrap();
    assert_eq!(
        print_nested_tree(&forest),
        lines(&["- Eng", "  - Platform", "    - Infra", "- Design"])
    );
}

#[test]
fn orphan_fails_the_build_with_its_name() {
    let records = vec![team(5, "Ghost", Some(99))];
    let result = Forest::build(&records);
    assert_eq!(result.err(), Some(BuildError::UnresolvedParent("Ghost".to_string())));
    assert_eq!(
        print_team_tree(&records),
        Err(BuildError::UnresolvedParent("Ghost".to_string()))
    );
}

#[test]
fn single_team_without_parent_has_no_indent() {
    let records = vec![team(7, "Solo", None)];
    assert_eq!(print_team_tree(&records), Ok(lines(&["- Solo"])));
}

#[test]
fn no_records_give_an_empty_outline() {
    let records: Vec<TeamTreeNode> = Vec::new();
    let forest = Forest::build(&records).unwrap();
    assert_eq!(forest.team_count(), 0);
    assert_eq!(print_nested_tree(&forest), Vec::<String>::new());
}

#[test]
fn child_may_come_before_its_parent() {
    let records = vec![team(2, "Child", Some(1)), team(1, "Parent", None)];
    assert_eq!(print_team_tree(&records), Ok(lines(&["- Parent", "  - Child"])));
}

#[test]
fn children_keep_input_order() {
    let records = vec![
        team(10, "Zebra", None),
        team(5, "Aardvark", None),
        team(8, "Yak", Some(10)),
        team(3, "Bee", Some(5)),
        team(9, "Xerus", Some(10)),
    ];
    assert_eq!(
        print_team_tree(&records),
        Ok(lines(&["- Zebra", "  - Yak", "  - Xerus", "- Aardvark", "  - Bee"]))
    );
}

#[test]
fn indent_returns_to_the_common_ancestor_after_a_deep_subtree() {
    let records = vec![
        team(1, "A", None),
        team(2, "B", Some(1)),
        team(3, "C", Some(2)),
        team(4, "D", Some(3)),
        team(5, "E", Some(1)),
        team(6, "F", None),
        team(7, "G", Some(6)),
        team(8, "H", Some(2)),
    ];
    assert_eq!(
        print_team_tree(&records),
        Ok(lines(&[
            "- A",
            "  - B",
            "    - C",
            "      - D",
            "    - H",
            "  - E",
            "- F",
            "  - G",
        ]))
    );
}

#[test]
fn indent_is_two_spaces_for_each_level() {
    let mut records = vec![team(1, "level0", None)];
    for level in 1..6u64 {
        records.push(team(level + 1, &format!("level{}", level), Some(level)));
    }
    let rendered = print_team_tree(&records).unwrap();
    assert_eq!(rendered.len(), 6);
    for (level, line) in rendered.iter().enumerate() {
        assert_eq!(*line, format!("{}- level{}", "  ".repeat(level), level));
    }
}

#[test]
fn format_line_puts_indent_dash_and_name() {
    assert_eq!(format_line(0, "Eng"), "- Eng");
    assert_eq!(format_line(2, "Platform Team"), "    - Platform Team");
    assert_eq!(format_line(1, ""), "  - ");
}

#[test]
fn forest_holds_one_node_for_each_record() {
    let records = vec![team(3, "c", Some(1)), team(1, "a", None), team(2, "b", Some(3))];
    let forest = Forest::build(&records).unwrap();
    assert_eq!(forest.root(), 0);
    assert_eq!(forest.team_count(), records.len());
    for (index, record) in records.iter().enumerate() {
        assert_eq!(forest.team(index), record);
        assert_ne!(forest.team(index).id, ROOT_ID);
    }
}

#[test]
fn root_is_never_rendered() {
    let records = vec![team(1, "Only", None), team(2, "Below", Some(1))];
    let rendered = print_team_tree(&records).unwrap();
    assert_eq!(rendered, lines(&["- Only", "  - Below"]));
    assert!(rendered.iter().all(|line| !line.contains("Root (Not a team)")));
    assert_eq!(TeamTreeNode::root().name, "Root (Not a team)");
    assert_eq!(TeamTreeNode::root().id, ROOT_ID);
    assert!(TeamTreeNode::root().is_private);
    assert_eq!(TeamTreeNode::root().parent_id, None);
}

#[test]
fn rendering_twice_gives_the_same_lines() {
    let records = vec![
        team(1, "Eng", None),
        team(2, "Platform", Some(1)),
        team(4, "Design", None),
    ];
    let forest = Forest::build(&records).unwrap();
    let once = print_nested_tree(&forest);
    let again = print_nested_tree(&forest);
    assert_eq!(once, again);
    assert_eq!(once, lines(&["- Eng", "  - Platform", "- Design"]));
}

#[test]
fn first_orphan_in_input_order_is_reported() {
    let records = vec![
        team(1, "Fine", None),
        team(2, "Lost", Some(50)),
        team(3, "Astray", Some(60)),
    ];
    assert_eq!(
        print_team_tree(&records),
        Err(BuildError::UnresolvedParent("Lost".to_string()))
    );
}

#[test]
fn root_identifier_is_no_parent() {
    let records = vec![team(1, "Under zero", Some(ROOT_ID))];
    assert_eq!(
        print_team_tree(&records),
        Err(BuildError::UnresolvedParent("Under zero".to_string()))
    );
}

#[test]
fn teams_on_a_cycle_are_built_but_not_reached() {
    let records = vec![team(1, "A", Some(2)), team(2, "B", Some(1)), team(3, "C", None)];
    let forest = Forest::build(&records).unwrap();
    assert_eq!(forest.team_count(), 3);
    assert_eq!(print_nested_tree(&forest), lines(&["- C"]));
    let own_parent = vec![team(1, "Self", Some(1))];
    assert_eq!(print_team_tree(&own_parent), Ok(Vec::<String>::new()));
}

#[test]
fn names_are_carried_as_they_are() {
    let records = vec![team(1, "  - Équipe ☃", None), team(2, "", Some(1))];
    assert_eq!(print_team_tree(&records), Ok(lines(&["-   - Équipe ☃", "  - "])));
}

#[test]
fn duplicate_copies_every_field() {
    let node = TeamTreeNode {
        id: 42,
        name: "Answers".to_string(),
        is_private: true,
        parent_id: Some(7),
    };
    assert_eq!(node.duplicate(), node);
}

#[test]
fn valid_ids_are_distinct_and_not_the_roots() {
    assert!(has_valid_ids(&Vec::new()));
    assert!(has_valid_ids(&vec![team(1, "a", None), team(2, "b", Some(1))]));
    assert!(!has_valid_ids(&vec![team(1, "a", None), team(1, "b", None)]));
    assert!(!has_valid_ids(&vec![team(3, "a", None), team(2, "b", None), team(3, "c", None)]));
    assert!(!has_valid_ids(&vec![team(ROOT_ID, "zero", None)]));
    assert!(!has_valid_ids(&vec![team(4, "a", None), team(ROOT_ID, "zero", Some(4))]));
}

#[test]
fn wide_and_deep_hierarchy_is_rendered_in_full() {
    let mut records = Vec::new();
    let mut expected = Vec::new();
    for top in 0..20u64 {
        let top_id = 1 + top * 100;
        records.push(team(top_id, &format!("t{}", top), None));
    }
    for top in 0..20u64 {
        let top_id = 1 + top * 100;
        for child in 0..3u64 {
            let child_id = top_id + 1 + child * 10;
            records.push(team(child_id, &format!("t{}c{}", top, child), Some(top_id)));
            records.push(team(child_id + 1, &format!("t{}c{}g", top, child), Some(child_id)));
        }
    }
    for top in 0..20u64 {
        expected.push(format!("- t{}", top));
        for child in 0..3u64 {
            expected.push(format!("  - t{}c{}", top, child));
            expected.push(format!("    - t{}c{}g", top, child));
        }
    }
    assert!(has_valid_ids(&records));
    assert_eq!(print_team_tree(&records), Ok(expected));
}
