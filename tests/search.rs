use mtg::catalog::{Card, CatalogStore};
use mtg::error::{CoreError, Invalid};
use mtg::params::{default_limit, default_page, default_search, CardQueryParams};
use mtg::search::{
    plan_search, search_cards, semantic_page, semantic_search, CardSearchType, Embedder, SearchHit,
    SearchPlan,
};
use mtg::text::{chars_of, contains_ignoring_case, text_less};
use mtg::vectors::{Neighbor, VectorStore};

fn card(id: &str, name: &str) -> Card {
    Card {
        id: id.to_string(),
        oracle_id: format!("oracle-{}", id),
        name: name.to_string(),
        lang: Some("en".to_string()),
        released_at: None,
        mana_cost: None,
        cmc_hundredths: Some(100),
        type_line: None,
        oracle_text: None,
        power: None,
        toughness: None,
        rarity: None,
        flavor_text: None,
        artist: None,
        set_code: None,
        collector_number: None,
        digital: None,
        image_url: None,
    }
}

/// Refuses every text: a search that calls it fails.
struct Unavailable;

impl Embedder for Unavailable {
    fn embed(&self, _text: &str) -> Result<Vec<i32>, String> {
        Err("model not loaded".to_string())
    }
}

/// Maps a few words to fixed vectors.
struct Table;

impl Embedder for Table {
    fn embed(&self, text: &str) -> Result<Vec<i32>, String> {
        match text {
            "fire" => Ok(vec![10, 0]),
            "water" => Ok(vec![-10, 0]),
            "wide" => Ok(vec![1, 2, 3]),
            _ => Err(format!("no embedding for {}", text)),
        }
    }
}

fn names(hits: &[SearchHit]) -> Vec<String> {
    hits.iter().map(|h| h.card.name.clone()).collect()
}

fn alphabet_catalog() -> CatalogStore {
    let mut catalog = CatalogStore::new();
    // 25 distinct names, stored out of order
    for i in (0..25u32).rev() {
        let name = format!("Card {:02}", i + 1);
        catalog.upsert(card(&format!("id{}", i), &name));
    }
    catalog
}

#[test]
fn literal_pagination_second_page() {
    let catalog = alphabet_catalog();
    let store = VectorStore::new(2);
    let first = search_cards(&catalog, &store, &Unavailable, "card", 1, 10, CardSearchType::Like).unwrap();
    let second = search_cards(&catalog, &store, &Unavailable, "card", 2, 10, CardSearchType::Like).unwrap();
    let third = search_cards(&catalog, &store, &Unavailable, "card", 3, 10, CardSearchType::Like).unwrap();
    let expected: Vec<String> = (11..=20).map(|i| format!("Card {:02}", i)).collect();
    assert_eq!(names(&second), expected);
    assert_eq!(first.len(), 10);
    assert_eq!(third.len(), 5);
    for n in names(&second) {
        assert!(!names(&first).contains(&n));
        assert!(!names(&third).contains(&n));
    }
    assert!(second.iter().all(|h| h.sq_distance.is_none()));
}

#[test]
fn empty_query_same_page_in_both_modes() {
    let catalog = alphabet_catalog();
    let store = VectorStore::new(2);
    for (page, size) in [(1u32, 10u32), (2, 10), (3, 7), (9, 3)] {
        let s = search_cards(&catalog, &store, &Unavailable, "", page, size, CardSearchType::Semantic).unwrap();
        let l = search_cards(&catalog, &store, &Unavailable, "", page, size, CardSearchType::Like).unwrap();
        assert_eq!(names(&s), names(&l));
    }
}

#[test]
fn literal_match_ignores_ascii_case_and_groups_names() {
    let mut catalog = CatalogStore::new();
    catalog.upsert(card("a", "Lightning Bolt"));
    catalog.upsert(card("b", "Shock"));
    catalog.upsert(card("c", "Lightning Bolt"));
    catalog.upsert(card("d", "Chain Lightning"));
    let r = catalog.search_literal("LIGHTNING", 10, 0);
    assert_eq!(r.iter().map(|c| c.name.clone()).collect::<Vec<_>>(), vec!["Chain Lightning", "Lightning Bolt"]);
    assert_eq!(r[1].id, "a");
    assert_eq!(catalog.search_literal("ning b", 10, 0).len(), 1);
    assert_eq!(catalog.search_literal("counter", 10, 0).len(), 0);
    assert_eq!(catalog.list(2, 1).iter().map(|c| c.name.clone()).collect::<Vec<_>>(), vec!["Lightning Bolt", "Shock"]);
}

#[test]
fn names_order_by_code_point() {
    let mut catalog = CatalogStore::new();
    catalog.upsert(card("1", "b"));
    catalog.upsert(card("2", "B"));
    catalog.upsert(card("3", "ab"));
    catalog.upsert(card("4", "a"));
    let r = catalog.list(10, 0);
    assert_eq!(r.iter().map(|c| c.name.clone()).collect::<Vec<_>>(), vec!["B", "a", "ab", "b"]);
    assert!(catalog.list(10, 4).is_empty());
    assert!(catalog.list(0, 0).is_empty());
}

#[test]
fn upsert_replaces_by_id_and_keeps_rowid() {
    let mut catalog = CatalogStore::new();
    assert_eq!(catalog.upsert(card("x", "Old")), 1);
    assert_eq!(catalog.upsert(card("y", "Other")), 2);
    assert_eq!(catalog.upsert(card("x", "New")), 1);
    assert_eq!(catalog.len(), 2);
    let got = catalog.by_row_ids(&[2, 5, 1, 0, -3]);
    assert_eq!(got.iter().map(|c| c.name.clone()).collect::<Vec<_>>(), vec!["Other", "New"]);
    assert_eq!(catalog.get(1).map(|c| c.name), Some("New".to_string()));
    assert!(catalog.get(3).is_none());
}

#[test]
fn semantic_search_groups_by_name_keeping_closest() {
    let mut catalog = CatalogStore::new();
    let mut store = VectorStore::new(2);
    for (id, name, v) in [
        ("1", "Bolt", vec![10, 0]),
        ("2", "Bolt", vec![9, 0]),
        ("3", "Shock", vec![8, 1]),
        ("4", "Counterspell", vec![-10, 0]),
    ] {
        let rowid = catalog.upsert(card(id, name));
        store.put(rowid as i64, v).unwrap();
    }
    let r = search_cards(&catalog, &store, &Table, "fire", 1, 2, CardSearchType::Semantic).unwrap();
    assert_eq!(names(&r), vec!["Bolt", "Shock"]);
    assert_eq!(r[0].card.id, "1");
    assert_eq!(r[0].sq_distance, Some(0));
    assert_eq!(r[1].sq_distance, Some(5));
    let r2 = search_cards(&catalog, &store, &Table, "fire", 2, 2, CardSearchType::Semantic).unwrap();
    assert_eq!(names(&r2), vec!["Counterspell"]);
    let w = search_cards(&catalog, &store, &Table, "water", 1, 1, CardSearchType::Semantic).unwrap();
    assert_eq!(names(&w), vec!["Counterspell"]);
}

#[test]
fn semantic_search_failures() {
    let catalog = alphabet_catalog();
    let mut store = VectorStore::new(2);
    store.put(1, vec![0, 0]).unwrap();
    assert_eq!(
        search_cards(&catalog, &store, &Unavailable, "fire", 1, 10, CardSearchType::Semantic).unwrap_err(),
        CoreError::UpstreamUnavailable { message: "model not loaded".to_string() }
    );
    assert_eq!(
        search_cards(&catalog, &store, &Table, "wide", 1, 10, CardSearchType::Semantic).unwrap_err(),
        CoreError::Validation(Invalid::Dimension { expected: 2, found: 3 })
    );
    assert_eq!(
        semantic_search(&catalog, &store, &[1], 1, 1).unwrap_err(),
        CoreError::Validation(Invalid::Dimension { expected: 2, found: 1 })
    );
}

#[test]
fn page_arguments_are_validated() {
    let catalog = alphabet_catalog();
    let store = VectorStore::new(2);
    assert_eq!(
        search_cards(&catalog, &store, &Unavailable, "a", 0, 10, CardSearchType::Like).unwrap_err(),
        CoreError::Validation(Invalid::PageZero)
    );
    assert_eq!(
        search_cards(&catalog, &store, &Unavailable, "a", 1, 0, CardSearchType::Like).unwrap_err(),
        CoreError::Validation(Invalid::PageSizeZero)
    );
    let far = search_cards(&catalog, &store, &Unavailable, "", u32::MAX, u32::MAX, CardSearchType::Like).unwrap();
    assert!(far.is_empty());
}

#[test]
fn semantic_page_skips_unknown_rows_and_windows() {
    let mut catalog = CatalogStore::new();
    catalog.upsert(card("1", "Alpha"));
    catalog.upsert(card("2", "Beta"));
    catalog.upsert(card("3", "Alpha"));
    let nbrs = [
        Neighbor { rowid: 3, sq_distance: 1 },
        Neighbor { rowid: 9, sq_distance: 2 },
        Neighbor { rowid: 1, sq_distance: 3 },
        Neighbor { rowid: 2, sq_distance: 4 },
    ];
    let all = semantic_page(&catalog, &nbrs, 10, 0);
    assert_eq!(names(&all), vec!["Alpha", "Beta"]);
    assert_eq!(all[0].card.id, "3");
    assert_eq!(all[1].sq_distance, Some(4));
    let second = semantic_page(&catalog, &nbrs, 1, 1);
    assert_eq!(names(&second), vec!["Beta"]);
    assert!(semantic_page(&catalog, &nbrs, 5, 2).is_empty());
}

#[test]
fn plan_follows_query_and_mode() {
    assert_eq!(plan_search("", CardSearchType::Semantic), SearchPlan::Listing);
    assert_eq!(plan_search("", CardSearchType::Like), SearchPlan::Listing);
    assert_eq!(plan_search("x", CardSearchType::Like), SearchPlan::Literal);
    assert_eq!(plan_search("x", CardSearchType::Semantic), SearchPlan::Semantic);
}

#[test]
fn request_defaults() {
    assert_eq!(default_page(), 1);
    assert_eq!(default_limit(), 25);
    assert_eq!(default_search(), "");
    let p = CardQueryParams::default();
    assert_eq!((p.page, p.limit, p.search.as_str()), (1, 25, ""));
}

#[test]
fn text_helpers() {
    assert_eq!(chars_of("héllo"), vec!['h', 'é', 'l', 'l', 'o']);
    assert!(contains_ignoring_case(&chars_of("Lightning Bolt"), &chars_of("BOLT")));
    assert!(contains_ignoring_case(&chars_of("abc"), &chars_of("")));
    assert!(!contains_ignoring_case(&chars_of("ÉCLAIR"), &chars_of("éclair")));
    assert!(!contains_ignoring_case(&chars_of("ab"), &chars_of("abc")));
    assert!(text_less(&chars_of("ab"), &chars_of("abc")));
    assert!(text_less(&chars_of("Z"), &chars_of("a")));
    assert!(!text_less(&chars_of("b"), &chars_of("b")));
}

#[test]
fn upsert_twice_same_as_once() {
    let mut catalog = CatalogStore::new();
    catalog.upsert(card("a", "Alpha"));
    let first = catalog.upsert(card("b", "Beta"));
    let second = catalog.upsert(card("b", "Beta"));
    assert_eq!(first, second);
    assert_eq!(catalog.len(), 2);
    let all = catalog.list(10, 0);
    assert_eq!(all.iter().filter(|c| c.id == "b").count(), 1);
    assert_eq!(all.iter().map(|c| c.name.clone()).collect::<Vec<_>>(), vec!["Alpha", "Beta"]);
}
