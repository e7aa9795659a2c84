use vstd::prelude::*;

use crate::catalog::{
    card_names, cards_at, copy_card, from_offset, is_ranking, lemma_ranking_prefix, lemma_ranking_unique,
    sat_add, Card,
    CatalogStore,
};
use crate::error::{CoreError, Invalid};
use crate::text::{chars_of, text_equal, text_lt};
use crate::vectors::{is_nearest, key_lt, Neighbor, VectorStore};

verus! {

/// How many nearest neighbors a semantic page asks for, per card that the
/// pages up to it show: grouping printings by name can collapse several
/// neighbors into one row.
pub const OVERSCAN_FACTOR: u128 = 4;

/// The two search modes.
#[derive(Debug, Clone, Copy, PartialEq, Eq)]
pub enum CardSearchType {
    /// Nearest neighbors of the query's embedding.
    Semantic,
    /// Case-insensitive substring match on the name.
    Like,
}

/// The query that a search runs.
#[derive(Debug, Clone, Copy, PartialEq, Eq)]
pub enum SearchPlan {
    /// Every card, one per name, ordered by name.
    Listing,
    /// Names that contain the query text.
    Literal,
    /// Nearest neighbors of the query text's embedding.
    Semantic,
}

/// An empty query lists every card in either mode, without embedding anything.
pub open spec fn plan_of(query: Seq<char>, mode: CardSearchType) -> SearchPlan {
    if query.len() == 0 {
        SearchPlan::Listing
    } else {
        match mode {
            CardSearchType::Semantic => SearchPlan::Semantic,
            CardSearchType::Like => SearchPlan::Literal,
        }
    }
}

/// Chooses the query for a search.
pub fn plan_search(query: &str, mode: CardSearchType) -> (r: SearchPlan)
    ensures
        r == plan_of(query@, mode),
{
    if query.unicode_len() == 0 {
        SearchPlan::Listing
    } else {
        match mode {
            CardSearchType::Semantic => SearchPlan::Semantic,
            CardSearchType::Like => SearchPlan::Literal,
        }
    }
}

/// One row of a search page: a card and, for a semantic search, its squared
/// distance from the query.
#[derive(Debug)]
pub struct SearchHit {
    pub card: Card,
    pub sq_distance: Option<u128>,
}

/// The model that turns text into an embedding of the vector store's
/// dimension, in the same fixed-point scale as the stored vectors.
pub trait Embedder {
    /// The embedding of `text`, or why the model could not produce one.
    fn embed(&self, text: &str) -> Result<Vec<i32>, String>;
}

/// Cards as search rows without a distance.
pub open spec fn literal_hits(cards: Seq<Card>) -> Seq<SearchHit> {
    cards.map_values(|c: Card| SearchHit { card: c, sq_distance: None })
}

/// Neighbors as search rows, in their order; a neighbor whose row identifier
/// names no card is passed over.
pub open spec fn hydrate_neighbors(cards: Seq<Card>, nbrs: Seq<Neighbor>) -> Seq<SearchHit>
    decreases nbrs.len(),
{
    if nbrs.len() == 0 {
        Seq::empty()
    } else {
        let rest = hydrate_neighbors(cards, nbrs.drop_last());
        let n = nbrs.last();
        if 1 <= n.rowid <= cards.len() {
            rest.push(SearchHit { card: cards[n.rowid - 1], sq_distance: Some(n.sq_distance) })
        } else {
            rest
        }
    }
}

/// Some row bears the name.
pub open spec fn has_name(hits: Seq<SearchHit>, name: Seq<char>) -> bool {
    exists|i: int| 0 <= i < hits.len() && (#[trigger] hits[i]).card.name@ == name
}

/// The first row of each name, in order.
pub open spec fn group_by_name(hits: Seq<SearchHit>) -> Seq<SearchHit>
    decreases hits.len(),
{
    if hits.len() == 0 {
        Seq::empty()
    } else {
        let rest = group_by_name(hits.drop_last());
        if has_name(rest, hits.last().card.name@) {
            rest
        } else {
            rest.push(hits.last())
        }
    }
}

/// Up to `limit` rows from position `offset` on.
pub open spec fn page_window(s: Seq<SearchHit>, offset: nat, limit: nat) -> Seq<SearchHit> {
    let lo = if offset < s.len() {
        offset
    } else {
        s.len()
    };
    let hi = if offset + limit < s.len() {
        offset + limit
    } else {
        s.len()
    };
    s.subrange(lo as int, hi as int)
}

/// The number of rows before page `page`.
pub open spec fn page_offset(page: u32, page_size: u32) -> u64 {
    ((page - 1) * page_size) as u64
}

/// How many neighbors a semantic search asks for.
pub open spec fn candidate_count(page: u32, page_size: u32) -> nat {
    let c = page * page_size * OVERSCAN_FACTOR;
    if c > usize::MAX {
        usize::MAX as nat
    } else {
        c as nat
    }
}

/// A page of a name-ordered search for `pattern`.
pub open spec fn is_listing_page(cards: Seq<Card>, pattern: Seq<char>, page: u32, page_size: u32, r: Seq<SearchHit>) -> bool {
    exists|rk: Seq<int>|
        is_ranking(
            card_names(cards),
            pattern,
            sat_add(page_offset(page, page_size), page_size as u64),
            rk,
        ) && r == literal_hits(cards_at(cards, from_offset(rk, page_offset(page, page_size))))
}

/// A page of a semantic search for an embedding `q`.
pub open spec fn is_semantic_page(
    cards: Seq<Card>,
    rows: Seq<(i64, Seq<i32>)>,
    q: Seq<i32>,
    page: u32,
    page_size: u32,
    r: Seq<SearchHit>,
) -> bool {
    exists|nbrs: Seq<Neighbor>|
        is_nearest(rows, q, candidate_count(page, page_size), nbrs) && r == page_window(
            group_by_name(hydrate_neighbors(cards, nbrs)),
            page_offset(page, page_size) as nat,
            page_size as nat,
        )
}

/// What a search returns under a plan that needs no embedding.
pub open spec fn plan_result(cards: Seq<Card>, plan: SearchPlan, query: Seq<char>, page: u32, page_size: u32, r: Seq<SearchHit>) -> bool {
    match plan {
        SearchPlan::Listing => is_listing_page(cards, Seq::empty(), page, page_size, r),
        SearchPlan::Literal => is_listing_page(cards, query, page, page_size, r),
        SearchPlan::Semantic => true,
    }
}

/// The number of rows before page `page`.
fn page_start(page: u32, page_size: u32) -> (r: u64)
    requires
        page >= 1,
    ensures
        r == page_offset(page, page_size),
{
    let p: u64 = page as u64 - 1;
    let s: u64 = page_size as u64;
    assert(p * s <= 0xFFFF_FFFF * 0xFFFF_FFFF) by (nonlinear_arith)
        requires
            p <= 0xFFFF_FFFF,
            s <= 0xFFFF_FFFF,
    ;
    p * s
}

/// How many neighbors a semantic search asks for.
fn candidates(page: u32, page_size: u32) -> (r: usize)
    requires
        page >= 1,
        page_size >= 1,
    ensures
        r == candidate_count(page, page_size),
        r >= 1,
{
    let p: u128 = page as u128;
    let s: u128 = page_size as u128;
    assert(p * s <= 0xFFFF_FFFF * 0xFFFF_FFFF) by (nonlinear_arith)
        requires
            p <= 0xFFFF_FFFF,
            s <= 0xFFFF_FFFF,
    ;
    assert(p * s >= 1) by (nonlinear_arith)
        requires
            p >= 1,
            s >= 1,
    ;
    let c: u128 = p * s * OVERSCAN_FACTOR;
    if c > usize::MAX as u128 {
        usize::MAX
    } else {
        c as usize
    }
}

fn copy_hit(h: &SearchHit) -> (r: SearchHit)
    ensures
        r == *h,
{
    SearchHit { card: copy_card(&h.card), sq_distance: h.sq_distance }
}

/// Cards as search rows without a distance.
fn as_literal_hits(cards: Vec<Card>) -> (r: Vec<SearchHit>)
    ensures
        r@ == literal_hits(cards@),
{
    let mut out: Vec<SearchHit> = Vec::with_capacity(cards.len());
    let mut i: usize = 0;
    while i < cards.len()
        invariant
            i <= cards.len(),
            out@ == literal_hits(cards@.subrange(0, i as int)),
        decreases cards.len() - i,
    {
        out.push(SearchHit { card: copy_card(&cards[i]), sq_distance: None });
        assert(literal_hits(cards@.subrange(0, i + 1)) =~= literal_hits(cards@.subrange(0, i as int)).push(
            SearchHit { card: cards@[i as int], sq_distance: None },
        ));
        i = i + 1;
    }
    assert(cards@.subrange(0, cards.len() as int) =~= cards@);
    out
}

/// The page of a semantic search, given the neighbors that the vector store
/// returned: the neighbors become rows (those whose row identifier names no
/// card are passed over), each name keeps its first and so closest row, and
/// the page takes `limit` rows from position `offset` on.
pub fn semantic_page(catalog: &CatalogStore, neighbors: &[Neighbor], limit: u64, offset: u64) -> (r: Vec<SearchHit>)
    ensures
        r@ == page_window(group_by_name(hydrate_neighbors(catalog@, neighbors@)), offset as nat, limit as nat),
{
    let mut kept: Vec<SearchHit> = Vec::new();
    let mut kept_names: Vec<Vec<char>> = Vec::new();
    let mut i: usize = 0;
    while i < neighbors.len()
        invariant
            i <= neighbors.len(),
            kept@ == group_by_name(hydrate_neighbors(catalog@, neighbors@.subrange(0, i as int))),
            kept_names.len() == kept.len(),
            forall|x: int| 0 <= x < kept.len() ==> (#[trigger] kept_names@[x])@ == kept@[x].card.name@,
        decreases neighbors.len() - i,
    {
        let ghost pre = neighbors@.subrange(0, i as int);
        assert(neighbors@.subrange(0, i + 1).drop_last() =~= pre);
        let nb = neighbors[i];
        match catalog.get(nb.rowid) {
            None => {
                assert(neighbors@.subrange(0, i + 1).last() == nb);
            },
            Some(card) => {
                let name = chars_of(card.name.as_str());
                let mut seen = false;
                let mut x: usize = 0;
                while x < kept_names.len()
                    invariant
                        x <= kept_names.len(),
                        kept_names.len() == kept.len(),
                        forall|y: int| 0 <= y < kept.len() ==> (#[trigger] kept_names@[y])@ == kept@[y].card.name@,
                        seen == has_name(kept@.subrange(0, x as int), name@),
                    decreases kept_names.len() - x,
                {
                    let same = text_equal(&kept_names[x], &name);
                    proof {
                        let s1 = kept@.subrange(0, x + 1);
                        let s0 = kept@.subrange(0, x as int);
                        assert(s1 =~= s0.push(kept@[x as int]));
                        if has_name(s1, name@) && !has_name(s0, name@) {
                            let y = choose|y: int| 0 <= y < s1.len() && (#[trigger] s1[y]).card.name@ == name@;
                            assert(y == x);
                        }
                        if has_name(s0, name@) {
                            let y = choose|y: int| 0 <= y < s0.len() && (#[trigger] s0[y]).card.name@ == name@;
                            assert(s1[y] == s0[y]);
                        }
                        if same {
                            assert(s1[x as int].card.name@ == name@);
                        }
                    }
                    seen = seen || same;
                    x = x + 1;
                }
                assert(kept@.subrange(0, kept.len() as int) =~= kept@);
                let hit = SearchHit { card, sq_distance: Some(nb.sq_distance) };
                proof {
                    let h0 = hydrate_neighbors(catalog@, pre);
                    let h1 = hydrate_neighbors(catalog@, neighbors@.subrange(0, i + 1));
                    assert(neighbors@.subrange(0, i + 1).last() == nb);
                    assert(h1 == h0.push(hit));
                    assert(h1.drop_last() =~= h0);
                    assert(h1.last() == hit);
                }
                if !seen {
                    kept.push(hit);
                    kept_names.push(name);
                }
            },
        }
        i = i + 1;
    }
    assert(neighbors@.subrange(0, neighbors.len() as int) =~= neighbors@);
    let n = kept.len();
    let lo: usize = if (offset as u128) < (n as u128) {
        offset as usize
    } else {
        n
    };
    let hi: usize = if (offset as u128) + (limit as u128) < (n as u128) {
        (offset + limit) as usize
    } else {
        n
    };
    let mut out: Vec<SearchHit> = Vec::new();
    let mut j: usize = lo;
    while j < hi
        invariant
            lo <= j <= hi,
            hi <= kept.len(),
            out@ == kept@.subrange(lo as int, j as int),
        decreases hi - j,
    {
        out.push(copy_hit(&kept[j]));
        assert(kept@.subrange(lo as int, j + 1) =~= kept@.subrange(lo as int, j as int).push(kept@[j as int]));
        j = j + 1;
    }
    out
}

/// The semantic page for the embedding `query_vector`: the neighbors asked
/// for are `page * page_size * OVERSCAN_FACTOR` (at most `usize::MAX`).
pub fn semantic_search(
    catalog: &CatalogStore,
    store: &VectorStore,
    query_vector: &[i32],
    page: u32,
    page_size: u32,
) -> (r: Result<Vec<SearchHit>, CoreError>)
    requires
        store.wf(),
    ensures
        page == 0 ==> r == Err::<Vec<SearchHit>, CoreError>(CoreError::Validation(Invalid::PageZero)),
        page > 0 && page_size == 0 ==> r == Err::<Vec<SearchHit>, CoreError>(
            CoreError::Validation(Invalid::PageSizeZero),
        ),
        page > 0 && page_size > 0 && query_vector@.len() != store.dim() ==> r == Err::<
            Vec<SearchHit>,
            CoreError,
        >(
            CoreError::Validation(
                Invalid::Dimension { expected: store.dim() as usize, found: query_vector.len() },
            ),
        ),
        page > 0 && page_size > 0 && query_vector@.len() == store.dim() ==> r is Ok
            && is_semantic_page(catalog@, store@, query_vector@, page, page_size, r->Ok_0@),
{
    if page == 0 {
        return Err(CoreError::Validation(Invalid::PageZero));
    }
    if page_size == 0 {
        return Err(CoreError::Validation(Invalid::PageSizeZero));
    }
    let offset = page_start(page, page_size);
    let k = candidates(page, page_size);
    match store.nearest_neighbors(query_vector, k) {
        Err(e) => Err(e),
        Ok(nbrs) => {
            let hits = semantic_page(catalog, &nbrs, page_size as u64, offset);
            assert(is_nearest(store@, query_vector@, candidate_count(page, page_size), nbrs@));
            Ok(hits)
        },
    }
}

/// Answers a search: an empty query lists every card by name in either mode;
/// a literal search pages through the names that contain the query; a
/// semantic search embeds the query and pages through its nearest neighbors.
pub fn search_cards<E: Embedder>(
    catalog: &CatalogStore,
    store: &VectorStore,
    model: &E,
    search_query: &str,
    page: u32,
    page_size: u32,
    search_type: CardSearchType,
) -> (r: Result<Vec<SearchHit>, CoreError>)
    requires
        catalog.wf(),
        store.wf(),
    ensures
        page == 0 ==> r == Err::<Vec<SearchHit>, CoreError>(CoreError::Validation(Invalid::PageZero)),
        page > 0 && page_size == 0 ==> r == Err::<Vec<SearchHit>, CoreError>(
            CoreError::Validation(Invalid::PageSizeZero),
        ),
        page > 0 && page_size > 0 && plan_of(search_query@, search_type) != SearchPlan::Semantic ==> r is Ok
            && plan_result(
            catalog@,
            plan_of(search_query@, search_type),
            search_query@,
            page,
            page_size,
            r->Ok_0@,
        ),
        page > 0 && page_size > 0 && plan_of(search_query@, search_type) == SearchPlan::Semantic && r is Ok
            ==> exists|v: Seq<i32>|
            v.len() == store.dim() && is_semantic_page(catalog@, store@, v, page, page_size, r->Ok_0@),
        page > 0 && page_size > 0 && plan_of(search_query@, search_type) == SearchPlan::Semantic && r is Err
            ==> r->Err_0 is UpstreamUnavailable || r->Err_0 is Validation,
{
    if page == 0 {
        return Err(CoreError::Validation(Invalid::PageZero));
    }
    if page_size == 0 {
        return Err(CoreError::Validation(Invalid::PageSizeZero));
    }
    let offset = page_start(page, page_size);
    match plan_search(search_query, search_type) {
        SearchPlan::Listing => {
            let cards = catalog.list(page_size as u64, offset);
            Ok(as_literal_hits(cards))
        },
        SearchPlan::Literal => {
            let cards = catalog.search_literal(search_query, page_size as u64, offset);
            Ok(as_literal_hits(cards))
        },
        SearchPlan::Semantic => match model.embed(search_query) {
            Err(message) => Err(CoreError::UpstreamUnavailable { message }),
            Ok(v) => semantic_search(catalog, store, &v, page, page_size),
        },
    }
}

/// Two pages of one name-ordered search are the same page.
pub proof fn lemma_listing_page_unique(
    cards: Seq<Card>,
    pattern: Seq<char>,
    page: u32,
    page_size: u32,
    r1: Seq<SearchHit>,
    r2: Seq<SearchHit>,
)
    requires
        is_listing_page(cards, pattern, page, page_size, r1),
        is_listing_page(cards, pattern, page, page_size, r2),
    ensures
        r1 == r2,
{
    let count = sat_add(page_offset(page, page_size), page_size as u64);
    let rk1 = choose|rk: Seq<int>|
        is_ranking(card_names(cards), pattern, count, rk) && r1 == literal_hits(
            cards_at(cards, from_offset(rk, page_offset(page, page_size))),
        );
    let rk2 = choose|rk: Seq<int>|
        is_ranking(card_names(cards), pattern, count, rk) && r2 == literal_hits(
            cards_at(cards, from_offset(rk, page_offset(page, page_size))),
        );
    lemma_ranking_unique(card_names(cards), pattern, count, rk1, rk2);
}

/// A semantic search for the empty query returns the same page as a literal
/// search for the empty pattern: both list every card by name.
pub proof fn lemma_empty_query_same_page(
    cards: Seq<Card>,
    query: Seq<char>,
    page: u32,
    page_size: u32,
    semantic: Seq<SearchHit>,
    literal: Seq<SearchHit>,
)
    requires
        query.len() == 0,
        plan_result(cards, plan_of(query, CardSearchType::Semantic), query, page, page_size, semantic),
        plan_result(cards, plan_of(query, CardSearchType::Like), query, page, page_size, literal),
    ensures
        plan_of(query, CardSearchType::Semantic) == SearchPlan::Listing,
        plan_of(query, CardSearchType::Like) == SearchPlan::Listing,
        semantic == literal,
{
    lemma_listing_page_unique(cards, Seq::empty(), page, page_size, semantic, literal);
}

/// Consecutive pages of one name-ordered search follow one another: each
/// holds at most `page_size` cards, and every name on page `page` comes
/// before every name on page `page + 1`, so that no name is on both.
pub proof fn lemma_consecutive_pages(
    cards: Seq<Card>,
    pattern: Seq<char>,
    page: u32,
    page_size: u32,
    r1: Seq<SearchHit>,
    r2: Seq<SearchHit>,
)
    requires
        1 <= page < u32::MAX,
        is_listing_page(cards, pattern, page, page_size, r1),
        is_listing_page(cards, pattern, (page + 1) as u32, page_size, r2),
    ensures
        r1.len() <= page_size,
        r2.len() <= page_size,
        forall|i: int, j: int|
            0 <= i < r1.len() && 0 <= j < r2.len() ==> text_lt(
                (#[trigger] r1[i]).card.name@,
                (#[trigger] r2[j]).card.name@,
            ),
{
    let p = page as int;
    let sz = page_size as int;
    assert((p - 1) * sz + sz == p * sz && p * sz + sz == (p + 1) * sz) by (nonlinear_arith);
    assert((p + 1) * sz <= 0xFFFF_FFFF * 0xFFFF_FFFF) by (nonlinear_arith)
        requires
            p + 1 <= 0xFFFF_FFFF,
            0 <= sz <= 0xFFFF_FFFF,
    ;
    assert(0 <= (p - 1) * sz) by (nonlinear_arith)
        requires
            p >= 1,
            sz >= 0,
    ;
    let o1 = page_offset(page, page_size);
    let o2 = page_offset((page + 1) as u32, page_size);
    assert(o1 == (p - 1) * sz);
    assert(o2 == p * sz);
    let c1 = sat_add(o1, page_size as u64);
    let c2 = sat_add(o2, page_size as u64);
    assert(c1 == o2);
    assert(c2 == o2 + sz);
    let names = card_names(cards);
    let rk1 = choose|rk: Seq<int>|
        is_ranking(names, pattern, c1, rk) && r1 == literal_hits(cards_at(cards, from_offset(rk, o1)));
    let rk2 = choose|rk: Seq<int>|
        is_ranking(names, pattern, c2, rk) && r2 == literal_hits(cards_at(cards, from_offset(rk, o2)));
    lemma_ranking_prefix(names, pattern, c1, c2, rk2);
    let m = if c1 < rk2.len() {
        c1 as int
    } else {
        rk2.len() as int
    };
    lemma_ranking_unique(names, pattern, c1, rk1, rk2.take(m));
    assert(rk1.len() == m);
    assert forall|i: int, j: int|
        0 <= i < r1.len() && 0 <= j < r2.len() implies text_lt(
        (#[trigger] r1[i]).card.name@,
        (#[trigger] r2[j]).card.name@,
    ) by {
        assert(o1 < rk1.len());
        assert(o2 < rk2.len());
        let a = o1 + i;
        let b = o2 + j;
        assert(from_offset(rk1, o1)[i] == rk1[a]);
        assert(from_offset(rk2, o2)[j] == rk2[b]);
        assert(rk1[a] == rk2[a]);
        assert(r1[i].card == cards[rk1[a]]);
        assert(r2[j].card == cards[rk2[b]]);
        assert(text_lt(names[rk2[a]], names[rk2[b]]));
        assert(names[rk2[a]] == cards[rk2[a]].name@);
        assert(names[rk2[b]] == cards[rk2[b]].name@);
    }
}

/// A page of a name-ordered search is a window of the ranking of all
/// matching names: row `i` of page `page` is the card ranked
/// `(page - 1) * page_size + i`, for as many rows as the ranking holds.
pub proof fn lemma_page_is_rank_window(
    cards: Seq<Card>,
    pattern: Seq<char>,
    page: u32,
    page_size: u32,
    r: Seq<SearchHit>,
    count: nat,
    full: Seq<int>,
)
    requires
        page >= 1,
        is_listing_page(cards, pattern, page, page_size, r),
        is_ranking(card_names(cards), pattern, count, full),
        count >= sat_add(page_offset(page, page_size), page_size as u64),
    ensures
        ({
            let o = page_offset(page, page_size) as int;
            let c = sat_add(page_offset(page, page_size), page_size as u64) as int;
            let hi = if c < full.len() {
                c
            } else {
                full.len() as int
            };
            &&& r.len() == (if o < hi {
                hi - o
            } else {
                0
            })
            &&& forall|i: int| 0 <= i < r.len() ==> (#[trigger] r[i]).card == cards[full[o + i]]
        }),
{
    let o = page_offset(page, page_size);
    let c = sat_add(o, page_size as u64);
    let names = card_names(cards);
    let rk = choose|rk: Seq<int>|
        is_ranking(names, pattern, c, rk) && r == literal_hits(cards_at(cards, from_offset(rk, o)));
    lemma_ranking_prefix(names, pattern, c, count, full);
    let m = if c < full.len() {
        c as int
    } else {
        full.len() as int
    };
    lemma_ranking_unique(names, pattern, c, rk, full.take(m));
    assert forall|i: int| 0 <= i < r.len() implies (#[trigger] r[i]).card == cards[full[o + i]] by {
        assert(from_offset(rk, o)[i] == rk[o + i]);
    }
}

/// Every row carries a distance, in non-decreasing order.
pub open spec fn distances_sorted(h: Seq<SearchHit>) -> bool {
    &&& forall|i: int| 0 <= i < h.len() ==> (#[trigger] h[i]).sq_distance is Some
    &&& forall|i: int, j: int|
        0 <= i <= j < h.len() ==> (#[trigger] h[i]).sq_distance->Some_0 <= (
        #[trigger] h[j]).sq_distance->Some_0
}

/// No two rows bear one name.
pub open spec fn names_distinct(h: Seq<SearchHit>) -> bool {
    forall|i: int, j: int|
        0 <= i < j < h.len() ==> (#[trigger] h[i]).card.name@ != (#[trigger] h[j]).card.name@
}

proof fn lemma_hydrate_sorted(cards: Seq<Card>, nbrs: Seq<Neighbor>)
    requires
        forall|i: int, j: int|
            0 <= i <= j < nbrs.len() ==> (#[trigger] nbrs[i]).sq_distance <= (
            #[trigger] nbrs[j]).sq_distance,
    ensures
        distances_sorted(hydrate_neighbors(cards, nbrs)),
        nbrs.len() > 0 ==> forall|i: int|
            0 <= i < hydrate_neighbors(cards, nbrs).len() ==> (#[trigger] hydrate_neighbors(
                cards,
                nbrs,
            )[i]).sq_distance->Some_0 <= nbrs.last().sq_distance,
    decreases nbrs.len(),
{
    if nbrs.len() > 0 {
        let rest = nbrs.drop_last();
        lemma_hydrate_sorted(cards, rest);
        let h0 = hydrate_neighbors(cards, rest);
        if rest.len() > 0 {
            assert(rest.last().sq_distance <= nbrs.last().sq_distance) by {
                assert(rest.last() == nbrs[nbrs.len() - 2]);
            }
        }
        assert(forall|i: int| 0 <= i < h0.len() ==> (#[trigger] h0[i]).sq_distance->Some_0 <= nbrs.last().sq_distance);
    }
}

proof fn lemma_group_sorted(h: Seq<SearchHit>)
    requires
        distances_sorted(h),
    ensures
        distances_sorted(group_by_name(h)),
        names_distinct(group_by_name(h)),
        h.len() > 0 ==> forall|i: int|
            0 <= i < group_by_name(h).len() ==> (#[trigger] group_by_name(h)[i]).sq_distance->Some_0
                <= h.last().sq_distance->Some_0,
    decreases h.len(),
{
    if h.len() > 0 {
        let rest = h.drop_last();
        assert(distances_sorted(rest)) by {
            assert forall|i: int| 0 <= i < rest.len() implies #[trigger] rest[i] == h[i] by {}
        }
        lemma_group_sorted(rest);
        let g0 = group_by_name(rest);
        if rest.len() > 0 {
            assert(rest.last() == h[h.len() - 2]);
            assert(h[h.len() - 2].sq_distance->Some_0 <= h.last().sq_distance->Some_0);
        }
        assert(forall|i: int| 0 <= i < g0.len() ==> (#[trigger] g0[i]).sq_distance->Some_0 <= h.last().sq_distance->Some_0);
        assert(h.last() == h[h.len() - 1]);
        if !has_name(g0, h.last().card.name@) {
            let g = g0.push(h.last());
            assert forall|i: int, j: int| 0 <= i < j < g.len() implies (#[trigger] g[i]).card.name@
                != (#[trigger] g[j]).card.name@ by {
                if j == g.len() - 1 {
                    assert(g[i] == g0[i]);
                    if g0[i].card.name@ == h.last().card.name@ {
                        assert(has_name(g0, h.last().card.name@));
                    }
                } else {
                    assert(g[i] == g0[i] && g[j] == g0[j]);
                }
            }
        }
    }
}

/// A semantic page holds at most `page_size` rows, each name at most once,
/// in non-decreasing order of distance from the query.
pub proof fn lemma_semantic_page_shape(
    cards: Seq<Card>,
    rows: Seq<(i64, Seq<i32>)>,
    q: Seq<i32>,
    page: u32,
    page_size: u32,
    r: Seq<SearchHit>,
)
    requires
        is_semantic_page(cards, rows, q, page, page_size, r),
    ensures
        r.len() <= page_size,
        distances_sorted(r),
        names_distinct(r),
{
    let nbrs = choose|nbrs: Seq<Neighbor>|
        is_nearest(rows, q, candidate_count(page, page_size), nbrs) && r == page_window(
            group_by_name(hydrate_neighbors(cards, nbrs)),
            page_offset(page, page_size) as nat,
            page_size as nat,
        );
    assert forall|i: int, j: int| 0 <= i <= j < nbrs.len() implies (#[trigger] nbrs[i]).sq_distance
        <= (#[trigger] nbrs[j]).sq_distance by {
        if i < j {
            assert(key_lt(
                nbrs[i].sq_distance as int,
                nbrs[i].rowid as int,
                nbrs[j].sq_distance as int,
                nbrs[j].rowid as int,
            ));
        }
    }
    lemma_hydrate_sorted(cards, nbrs);
    let g = group_by_name(hydrate_neighbors(cards, nbrs));
    lemma_group_sorted(hydrate_neighbors(cards, nbrs));
    let o = page_offset(page, page_size) as nat;
    let lo = if o < g.len() {
        o
    } else {
        g.len()
    };
    assert forall|i: int| 0 <= i < r.len() implies #[trigger] r[i] == g[lo + i] by {}
    assert forall|i: int, j: int| 0 <= i < j < r.len() implies (#[trigger] r[i]).card.name@
        != (#[trigger] r[j]).card.name@ by {
        assert(r[i] == g[lo + i] && r[j] == g[lo + j]);
    }
    assert forall|i: int, j: int| 0 <= i <= j < r.len() implies (#[trigger] r[i]).sq_distance->Some_0
        <= (#[trigger] r[j]).sq_distance->Some_0 by {
        assert(r[i] == g[lo + i] && r[j] == g[lo + j]);
    }
}

} // verus!
