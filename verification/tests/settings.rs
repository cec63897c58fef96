use github_team_visualizer::config::GH_TEAMS_PER_PAGE;
use github_team_visualizer::pagination_limit;
use github_team_visualizer::CmdArgs;
use github_team_visualizer::PageEvent;
use github_team_visualizer::PagerAction;
use github_team_visualizer::TeamPager;
use github_team_visualizer::TeamTreeNode;

fn team(id: u64, name: &str, parent_id: Option<u64>) -> TeamTreeNode {
    TeamTreeNode { id, name: name.to_string(), is_private: true, parent_id }
}

#[test]
fn page_size_defaults_to_one_hundred() {
    assert_eq!(GH_TEAMS_PER_PAGE, 100);
    assert_eq!(pagination_limit(None), 100);
}

#[test]
fn page_size_is_the_configured_number() {
    assert_eq!(pagination_limit(Some("50")), 50);
    assert_eq!(pagination_limit(Some("1")), 1);
    assert_eq!(pagination_limit(Some("255")), 255);
    assert_eq!(pagination_limit(Some("+7")), 7);
    assert_eq!(pagination_limit(Some("007")), 7);
    assert_eq!(pagination_limit(Some("0000000000000000000000000000012")), 12);
}

#[test]
fn page_size_falls_back_on_what_is_no_positive_byte() {
    assert_eq!(pagination_limit(Some("")), 100);
    assert_eq!(pagination_limit(Some("0")), 100);
    assert_eq!(pagination_limit(Some("+0")), 100);
    assert_eq!(pagination_limit(Some("256")), 100);
    assert_eq!(pagination_limit(Some("99999999999999999999999")), 100);
    assert_eq!(pagination_limit(Some("-1")), 100);
    assert_eq!(pagination_limit(Some("+")), 100);
    assert_eq!(pagination_limit(Some("++5")), 100);
    assert_eq!(pagination_limit(Some(" 5")), 100);
    assert_eq!(pagination_limit(Some("5 ")), 100);
    assert_eq!(pagination_limit(Some("1_0")), 100);
    assert_eq!(pagination_limit(Some("ten")), 100);
    assert_eq!(pagination_limit(Some("٣")), 100);
    assert_eq!(pagination_limit(Some("5+")), 100);
}

#[test]
fn every_byte_in_decimal_is_read_back() {
    for number in 1..=255u8 {
        assert_eq!(pagination_limit(Some(&number.to_string())), number);
    }
}

#[test]
fn options_hold_what_was_given() {
    let args = CmdArgs::opts(true, "acme".to_string());
    assert!(args.debug);
    assert_eq!(args.organization, "acme");
    let quiet = CmdArgs::opts(false, String::new());
    assert!(!quiet.debug);
    assert_eq!(quiet.organization, "");
}

#[test]
fn pager_starts_at_page_one_with_nothing() {
    let pager = TeamPager::new();
    assert_eq!(pager.page_number, 1);
    assert!(pager.records.is_empty());
}

#[test]
fn pager_collects_pages_until_the_last() {
    let mut pager = TeamPager::new();
    let first = PageEvent::Fetched {
        items: vec![team(1, "a", None), team(2, "b", Some(1))],
        has_next: true,
    };
    assert_eq!(pager.advance(first), PagerAction::FetchNext);
    assert_eq!(pager.page_number, 2);
    assert_eq!(pager.records, vec![team(1, "a", None), team(2, "b", Some(1))]);
    let empty = PageEvent::Fetched { items: Vec::new(), has_next: true };
    assert_eq!(pager.advance(empty), PagerAction::FetchNext);
    assert_eq!(pager.page_number, 3);
    assert_eq!(pager.records.len(), 2);
    let last = PageEvent::Fetched { items: vec![team(3, "c", None)], has_next: false };
    assert_eq!(pager.advance(last), PagerAction::Build);
    assert_eq!(pager.page_number, 3);
    assert_eq!(
        pager.records,
        vec![team(1, "a", None), team(2, "b", Some(1)), team(3, "c", None)]
    );
}

#[test]
fn pager_gives_up_when_the_source_fails() {
    let mut pager = TeamPager::new();
    let first = PageEvent::Fetched { items: vec![team(1, "a", None)], has_next: true };
    assert_eq!(pager.advance(first), PagerAction::FetchNext);
    assert_eq!(pager.advance(PageEvent::Failed), PagerAction::Abort);
    assert_eq!(pager.page_number, 2);
    assert_eq!(pager.records, vec![team(1, "a", None)]);
}

#[test]
fn pager_takes_a_last_page_at_the_highest_page_number() {
    let mut pager = TeamPager { page_number: u32::MAX, records: Vec::new() };
    let last = PageEvent::Fetched { items: vec![team(9, "z", None)], has_next: false };
    assert_eq!(pager.advance(last), PagerAction::Build);
    assert_eq!(pager.page_number, u32::MAX);
    assert_eq!(pager.records, vec![team(9, "z", None)]);
}
