use ad_skipper::config::AppConfig;
use ad_skipper::engine::AdEngine;
use ad_skipper::walk::{NodeAction, NodeEvent, NodeWalk, MAX_DEPTH};
use std::time::{Duration, Instant};

fn strings(items: &[&str]) -> Vec<String> {
    items.iter().map(|s| s.to_string()).collect()
}

fn config_with(keywords: &[&str], white: &[&str], black: &[&str]) -> AppConfig {
    let mut c = AppConfig::default();
    c.keywords = strings(keywords);
    c.app_whitelist = strings(white);
    c.app_blacklist = strings(black);
    c
}

/// A node tree that answers the walk's questions.
#[derive(Clone, Default)]
struct Node {
    text: String,
    desc: String,
    clickable: bool,
    click_ok: bool,
    parent_clickable: bool,
    parent_click_ok: bool,
    children: Vec<Option<Node>>,
}

fn leaf(text: &str) -> Node {
    Node { text: text.to_string(), ..Default::default() }
}

fn with_children(mut n: Node, children: Vec<Option<Node>>) -> Node {
    n.children = children;
    n
}

/// Runs a walk over `root`, answering each action from the tree. Returns the
/// outcome and the clicks made, as (depth, on_parent).
fn run(engine: &mut AdEngine, root: &Node) -> (Option<String>, Vec<(usize, bool)>) {
    let (mut walk, mut action) = NodeWalk::start();
    let mut path: Vec<Node> = vec![root.clone()];
    let mut clicks = Vec::new();
    let mut steps = 0;
    loop {
        steps += 1;
        assert!(steps < 100_000);
        let node = path.last().unwrap().clone();
        let event = match action {
            NodeAction::ReadLabels => NodeEvent::Labels(node.text.clone(), node.desc.clone()),
            NodeAction::CheckClickable => NodeEvent::Answer(node.clickable),
            NodeAction::Click => {
                clicks.push((path.len() - 1, false));
                NodeEvent::Answer(node.click_ok)
            }
            NodeAction::CheckParentClickable => NodeEvent::Answer(node.parent_clickable),
            NodeAction::ClickParent => {
                clicks.push((path.len() - 1, true));
                NodeEvent::Answer(node.parent_click_ok)
            }
            NodeAction::CountChildren => NodeEvent::ChildCount(node.children.len() as i32),
            NodeAction::OpenChild(i) => match node.children.get(i as usize).cloned().flatten() {
                Some(c) => {
                    path.push(c);
                    NodeEvent::ChildOpened(true)
                }
                None => NodeEvent::ChildOpened(false),
            },
            NodeAction::CloseNode => {
                path.pop();
                NodeEvent::NodeClosed
            }
            NodeAction::Found | NodeAction::NotFound => break,
        };
        action = walk.step(engine, event);
        assert_eq!(walk.pending(), action);
        assert!(walk.depth() <= MAX_DEPTH + 1);
    }
    assert!(walk.is_done());
    (engine.finish_process(&walk), clicks)
}

#[test]
fn new_engine_has_default_settings() {
    let e = AdEngine::new();
    assert_eq!(e.match_count(), 0);
    assert!(AdEngine::try_new().is_some());
}

#[test]
fn default_keywords_match_skip_labels() {
    let e = AdEngine::new();
    assert_eq!(e.match_labels("跳过 5s", ""), Some("跳过 5s".to_string()));
    assert_eq!(e.match_labels("", "Close"), Some("Close".to_string()));
    assert_eq!(e.match_labels("  SKIP", " "), Some("SKIP".to_string()));
    assert_eq!(e.match_labels("×", ""), Some("×".to_string()));
    assert_eq!(e.match_labels("hello", "world"), None);
    assert_eq!(e.match_labels("skip", ""), None);
    assert_eq!(e.match_labels("  ", " "), None);
}

#[test]
fn user_keywords_replace_defaults() {
    let mut e = AdEngine::new();
    e.update_config(config_with(&["^Ad\\s+\\d+$"], &[], &[]));
    assert_eq!(e.match_labels("Ad 5", ""), None);
    assert_eq!(e.match_labels("Ad", "5"), Some("Ad 5".to_string()));
    assert_eq!(e.match_labels("跳过", ""), None);
    e.update_config(config_with(&["广告"], &[], &[]));
    assert_eq!(e.match_labels("关闭广告", ""), Some("关闭广告".to_string()));
    e.update_config(config_with(&[], &[], &[]));
    assert_eq!(e.match_labels("Skip", ""), Some("Skip".to_string()));
}

#[test]
fn invalid_keywords_are_refused() {
    let mut e = AdEngine::new();
    assert!(!e.try_update_config(config_with(&["(unclosed"], &[], &[])));
    assert_eq!(e.match_labels("Skip", ""), Some("Skip".to_string()));
    assert!(e.try_update_config(config_with(&["Skip"], &["com.a"], &[])));
    assert!(!e.admits_package("com.b"));
}

#[test]
fn reversed_class_range_is_refused() {
    let mut e = AdEngine::new();
    assert!(!e.try_update_config(config_with(&["[z-a]"], &[], &[])));
}

#[test]
fn packages_admitted_by_lists() {
    let mut e = AdEngine::new();
    assert!(e.admits_package("com.a"));
    e.update_config(config_with(&[], &[], &["com.a"]));
    assert!(!e.admits_package("com.a"));
    assert!(e.admits_package("com.b"));
    e.update_config(config_with(&[], &["com.b"], &[]));
    assert!(e.admits_package("com.b"));
    assert!(!e.admits_package("com.c"));
    e.update_config(config_with(&[], &["com.b"], &["com.b"]));
    assert!(!e.admits_package("com.b"));
    let mut c = config_with(&[], &[], &[]);
    c.enabled = false;
    e.update_config(c);
    assert!(!e.admits_package("com.b"));
}

fn wait_ms(ms: u64) {
    let start = Instant::now();
    while start.elapsed() < Duration::from_millis(ms) {}
}

#[test]
fn cooldown_spaces_out_processing() {
    let mut e = AdEngine::new();
    assert!(!e.cooldown_passed(49));
    assert!(e.cooldown_passed(50));
    wait_ms(60);
    assert!(e.begin_process("com.a"));
    assert!(!e.begin_process("com.a"));
    wait_ms(60);
    assert!(e.begin_process("com.a"));
    let mut c = config_with(&[], &[], &[]);
    c.enabled = false;
    e.update_config(c);
    wait_ms(60);
    assert!(!e.begin_process("com.a"));
}

#[test]
fn admit_event_decides_by_lists_and_elapsed_time() {
    let mut e = AdEngine::new();
    assert!(!e.admit_event("com.a", 49, Instant::now()));
    assert!(e.admit_event("com.a", 50, Instant::now()));
    assert!(e.admit_event("com.a", 1000, Instant::now()));
    e.update_config(config_with(&[], &[], &["com.a"]));
    assert!(!e.admit_event("com.a", 1000, Instant::now()));
    assert!(e.admit_event("com.b", 1000, Instant::now()));
}

#[test]
fn searched_event_restarts_the_cooldown() {
    let mut e = AdEngine::new();
    wait_ms(60);
    // Starting the cooldown at a fresh reading means the next event is too early.
    assert!(e.admit_event("com.a", 60, Instant::now()));
    assert!(!e.begin_process("com.a"));
    // A refused event leaves the cooldown start as it was.
    wait_ms(60);
    assert!(!e.admit_event("com.a", 10, Instant::now()));
    assert!(e.begin_process("com.a"));
}

#[test]
fn clickable_matching_node_is_pressed() {
    let mut e = AdEngine::new();
    let mut button = leaf("跳过 3");
    button.clickable = true;
    button.click_ok = true;
    let root = with_children(leaf(""), vec![Some(leaf("title")), Some(button)]);
    let (found, clicks) = run(&mut e, &root);
    assert_eq!(found, Some("跳过 3".to_string()));
    assert_eq!(clicks, vec![(1, false)]);
    assert_eq!(e.match_count(), 1);
}

#[test]
fn parent_is_pressed_when_node_is_not_clickable() {
    let mut e = AdEngine::new();
    let mut label = leaf("Skip");
    label.parent_clickable = true;
    label.parent_click_ok = true;
    let root = with_children(leaf(""), vec![Some(with_children(leaf(""), vec![Some(label)]))]);
    let (found, clicks) = run(&mut e, &root);
    assert_eq!(found, Some("Skip".to_string()));
    assert_eq!(clicks, vec![(2, true)]);
}

#[test]
fn failed_click_goes_on_with_children() {
    let mut e = AdEngine::new();
    let mut outer = leaf("Close");
    outer.clickable = true;
    outer.click_ok = false;
    let mut inner = leaf("", );
    inner.desc = "关闭".to_string();
    inner.clickable = true;
    inner.click_ok = true;
    let root = with_children(outer, vec![None, Some(inner)]);
    let (found, clicks) = run(&mut e, &root);
    assert_eq!(found, Some("关闭".to_string()));
    assert_eq!(clicks, vec![(0, false), (1, false)]);
}

#[test]
fn nothing_found_when_no_label_matches() {
    let mut e = AdEngine::new();
    let root = with_children(leaf("a"), vec![Some(leaf("b")), None, Some(with_children(leaf("c"), vec![Some(leaf("d"))]))]);
    let (found, clicks) = run(&mut e, &root);
    assert_eq!(found, None);
    assert!(clicks.is_empty());
    assert_eq!(e.match_count(), 0);
}

#[test]
fn unclickable_node_without_clickable_parent_is_skipped() {
    let mut e = AdEngine::new();
    let mut second = leaf("Skip");
    second.clickable = true;
    second.click_ok = true;
    let root = with_children(leaf(""), vec![Some(leaf("SKIP")), Some(second)]);
    let (found, clicks) = run(&mut e, &root);
    assert_eq!(found, Some("Skip".to_string()));
    assert_eq!(clicks, vec![(2 - 1, false)]);
}

fn chain(depth: usize) -> Node {
    let mut button = leaf("Skip");
    button.clickable = true;
    button.click_ok = true;
    let mut n = button;
    for _ in 0..depth {
        n = with_children(leaf(""), vec![Some(n)]);
    }
    n
}

#[test]
fn nodes_deeper_than_the_limit_are_not_searched() {
    let mut e = AdEngine::new();
    assert_eq!(run(&mut e, &chain(MAX_DEPTH)).0, Some("Skip".to_string()));
    assert_eq!(run(&mut e, &chain(MAX_DEPTH + 1)).0, None);
    assert_eq!(e.match_count(), 1);
}

#[test]
fn walk_repeats_its_question_on_a_wrong_answer() {
    let e = AdEngine::new();
    let (mut walk, first) = NodeWalk::start();
    assert_eq!(first, NodeAction::ReadLabels);
    assert_eq!(walk.step(&e, NodeEvent::Answer(true)), NodeAction::ReadLabels);
    assert_eq!(walk.step(&e, NodeEvent::Labels("x".to_string(), String::new())), NodeAction::CountChildren);
    assert_eq!(walk.step(&e, NodeEvent::ChildCount(2)), NodeAction::OpenChild(0));
    assert_eq!(walk.step(&e, NodeEvent::ChildOpened(false)), NodeAction::OpenChild(1));
    assert_eq!(walk.step(&e, NodeEvent::ChildOpened(false)), NodeAction::NotFound);
    assert!(walk.is_done());
    assert_eq!(walk.keyword(), None);
}
