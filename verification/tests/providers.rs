use rusted_light::providers::{
    folder_to_open, rank_results, ProviderManager, SearchAction, SearchProvider, SearchResult,
};
use rusted_light::ranking::top_by_score;

struct MockProvider {
    id: &'static str,
    results: Vec<SearchResult>,
}

impl SearchProvider for MockProvider {
    fn id(&self) -> &'static str {
        self.id
    }

    fn matches(&self, _query: &str) -> Vec<SearchResult> {
        self.results.clone()
    }
}

struct BoostedProvider {
    results: Vec<SearchResult>,
    boost: i64,
}

impl SearchProvider for BoostedProvider {
    fn id(&self) -> &'static str {
        "boosted"
    }

    fn priority_boost(&self) -> i64 {
        self.boost
    }

    fn matches(&self, _query: &str) -> Vec<SearchResult> {
        self.results.clone()
    }
}

fn result(title: &str, score: i64) -> SearchResult {
    SearchResult {
        id: title.to_string(),
        title: title.to_string(),
        subtitle: None,
        icon: None,
        score,
        action: SearchAction::CopyToClipboard { text: title.to_string() },
        secondary_actions: Vec::new(),
    }
}

#[test]
fn test_provider_manager_sorting() {
    let mut manager = ProviderManager::new();

    manager.add_provider(Box::new(MockProvider {
        id: "low",
        results: vec![SearchResult {
            id: "1".into(),
            title: "Low Score Item".into(),
            subtitle: None,
            icon: None,
            score: 10,
            action: SearchAction::CopyToClipboard { text: "low".into() },
            secondary_actions: Vec::new(),
        }],
    }));

    manager.add_provider(Box::new(MockProvider {
        id: "high",
        results: vec![SearchResult {
            id: "2".into(),
            title: "High Score Item".into(),
            subtitle: None,
            icon: None,
            score: 500,
            action: SearchAction::CopyToClipboard { text: "high".into() },
            secondary_actions: Vec::new(),
        }],
    }));

    let results = manager.search("anything");
    assert_eq!(results.len(), 2);
    assert_eq!(results[0].title, "High Score Item");
    assert_eq!(results[1].title, "Low Score Item");
}

#[test]
fn manager_without_providers_finds_nothing() {
    let manager = ProviderManager::new();
    assert!(manager.search("x").is_empty());
}

#[test]
fn manager_adds_boost_to_scores() {
    let mut manager = ProviderManager::new();
    manager.add_provider(Box::new(BoostedProvider { results: vec![result("a", 10)], boost: 1000 }));
    manager.add_provider(Box::new(MockProvider { id: "plain", results: vec![result("b", 500)] }));
    let results = manager.search("q");
    assert_eq!(results.len(), 2);
    assert_eq!(results[0].title, "a");
    assert_eq!(results[0].score, 1010);
    assert_eq!(results[1].title, "b");
    assert_eq!(results[1].score, 500);
}

#[test]
fn rank_keeps_order_of_equal_scores() {
    let batches = vec![
        (vec![result("a", 5), result("b", 7)], 0),
        (vec![result("c", 5), result("d", 9)], 0),
    ];
    let ranked = rank_results(batches);
    let titles: Vec<&str> = ranked.iter().map(|r| r.title.as_str()).collect();
    assert_eq!(titles, vec!["d", "b", "a", "c"]);
}

#[test]
fn rank_applies_each_batch_boost() {
    let batches = vec![(vec![result("a", 1)], 50), (vec![result("b", 40)], 0)];
    let ranked = rank_results(batches);
    assert_eq!(ranked[0].title, "a");
    assert_eq!(ranked[0].score, 51);
    assert_eq!(ranked[1].score, 40);
}

#[test]
fn rank_wraps_on_overflow() {
    let ranked = rank_results(vec![(vec![result("a", i64::MAX)], 1)]);
    assert_eq!(ranked[0].score, i64::MIN);
}

#[test]
fn top_by_score_keeps_the_best() {
    let items = vec![(3, 'a'), (9, 'b'), (3, 'c'), (7, 'd'), (9, 'e')];
    assert_eq!(top_by_score(items.clone(), 3), vec![(9, 'b'), (9, 'e'), (7, 'd')]);
    assert_eq!(top_by_score(items.clone(), 10), vec![(9, 'b'), (9, 'e'), (7, 'd'), (3, 'a'), (3, 'c')]);
    assert!(top_by_score(items, 0).is_empty());
}

#[test]
fn folder_of_a_file_is_its_parent() {
    assert_eq!(folder_to_open("/home/u/docs/a.txt", false), "/home/u/docs");
    assert_eq!(folder_to_open("/home/u/docs", true), "/home/u/docs");
    assert_eq!(folder_to_open("/", false), "/");
}
