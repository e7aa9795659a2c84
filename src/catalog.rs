use vstd::prelude::*;

use crate::text::{
    chars_of, contains_folded, contains_ignoring_case, lemma_text_lt_asymmetric,
    lemma_text_lt_irreflexive, lemma_text_lt_total, lemma_text_lt_transitive, text_equal, text_less,
    text_lt,
};

verus! {

/// A card record. Its identity is `id`; several records may share a name.
#[derive(Debug)]
pub struct Card {
    pub id: String,
    pub oracle_id: String,
    pub name: String,
    pub lang: Option<String>,
    pub released_at: Option<String>,
    pub mana_cost: Option<String>,
    /// Mana value in hundredths (a mana value of 2.5 is 250).
    pub cmc_hundredths: Option<u64>,
    pub type_line: Option<String>,
    pub oracle_text: Option<String>,
    pub power: Option<String>,
    pub toughness: Option<String>,
    pub rarity: Option<String>,
    pub flavor_text: Option<String>,
    pub artist: Option<String>,
    pub set_code: Option<String>,
    pub collector_number: Option<String>,
    pub digital: Option<String>,
    pub image_url: Option<String>,
}

fn copy_text(o: &Option<String>) -> (r: Option<String>)
    ensures
        r == *o,
{
    match o {
        Some(s) => Some(s.clone()),
        None => None,
    }
}

/// A field-by-field copy of a card.
pub fn copy_card(c: &Card) -> (r: Card)
    ensures
        r == *c,
{
    Card {
        id: c.id.clone(),
        oracle_id: c.oracle_id.clone(),
        name: c.name.clone(),
        lang: copy_text(&c.lang),
        released_at: copy_text(&c.released_at),
        mana_cost: copy_text(&c.mana_cost),
        cmc_hundredths: c.cmc_hundredths,
        type_line: copy_text(&c.type_line),
        oracle_text: copy_text(&c.oracle_text),
        power: copy_text(&c.power),
        toughness: copy_text(&c.toughness),
        rarity: copy_text(&c.rarity),
        flavor_text: copy_text(&c.flavor_text),
        artist: copy_text(&c.artist),
        set_code: copy_text(&c.set_code),
        collector_number: copy_text(&c.collector_number),
        digital: copy_text(&c.digital),
        image_url: copy_text(&c.image_url),
    }
}

/// The names of a sequence of cards.
pub open spec fn card_names(cards: Seq<Card>) -> Seq<Seq<char>> {
    cards.map_values(|c: Card| c.name@)
}

/// No two cards share an id.
pub open spec fn ids_unique(cards: Seq<Card>) -> bool {
    forall|i: int, j: int|
        0 <= i < cards.len() && 0 <= j < cards.len() && i != j ==> (#[trigger] cards[i]).id@
            != (#[trigger] cards[j]).id@
}

/// The cards after storing `c`: it replaces the card with its id in place,
/// or is appended.
pub open spec fn upsert_cards(cards: Seq<Card>, c: Card) -> Seq<Card> {
    if exists|i: int| 0 <= i < cards.len() && (#[trigger] cards[i]).id@ == c.id@ {
        let i = choose|i: int| 0 <= i < cards.len() && (#[trigger] cards[i]).id@ == c.id@;
        cards.update(i, c)
    } else {
        cards.push(c)
    }
}

/// The card that row identifier `rowid` names: the card at position `rowid - 1`.
pub open spec fn names_card(cards: Seq<Card>, rowid: int) -> bool {
    1 <= rowid <= cards.len()
}

/// The cards for the given row identifiers, in their order; identifiers that
/// name no card are passed over.
pub open spec fn hydrate(cards: Seq<Card>, rowids: Seq<i64>) -> Seq<Card>
    decreases rowids.len(),
{
    if rowids.len() == 0 {
        Seq::empty()
    } else {
        let rest = hydrate(cards, rowids.drop_last());
        let id = rowids.last() as int;
        if names_card(cards, id) {
            rest.push(cards[id - 1])
        } else {
            rest
        }
    }
}

/// Some listed position holds a card named `name`.
pub open spec fn lists_name(names: Seq<Seq<char>>, r: Seq<int>, name: Seq<char>) -> bool {
    exists|x: int| 0 <= x < r.len() && names[#[trigger] r[x]] == name
}

/// Position `i` holds the first card with its name.
pub open spec fn first_of_name(names: Seq<Seq<char>>, i: int) -> bool {
    forall|j: int| 0 <= j < i ==> #[trigger] names[j] != names[i]
}

/// `r` lists, by position, the first `count` distinct names that contain
/// `pattern` (ignoring ASCII case), in ascending order, each by the first
/// card that bears it; all of them where there are fewer.
pub open spec fn is_ranking(names: Seq<Seq<char>>, pattern: Seq<char>, count: nat, r: Seq<int>) -> bool {
    &&& r.len() <= count
    &&& forall|x: int|
        0 <= x < r.len() ==> 0 <= #[trigger] r[x] < names.len() && contains_folded(
            names[r[x]],
            pattern,
        ) && first_of_name(names, r[x])
    &&& forall|x: int, y: int|
        0 <= x < y < r.len() ==> text_lt(names[#[trigger] r[x]], names[#[trigger] r[y]])
    &&& r.len() < count ==> forall|j: int|
        0 <= j < names.len() && contains_folded(#[trigger] names[j], pattern) ==> lists_name(
            names,
            r,
            names[j],
        )
    &&& r.len() > 0 ==> forall|j: int|
        0 <= j < names.len() && contains_folded(#[trigger] names[j], pattern) ==> lists_name(
            names,
            r,
            names[j],
        ) || text_lt(names[r.last()], names[j])
}

/// The cards at the given positions.
pub open spec fn cards_at(cards: Seq<Card>, positions: Seq<int>) -> Seq<Card> {
    positions.map_values(|i: int| cards[i])
}

/// `min(a + b, u64::MAX)`.
pub open spec fn sat_add(a: u64, b: u64) -> nat {
    if a + b > u64::MAX {
        u64::MAX as nat
    } else {
        (a + b) as nat
    }
}

/// The positions from `offset` on.
pub open spec fn from_offset(r: Seq<int>, offset: u64) -> Seq<int> {
    if offset >= r.len() {
        Seq::empty()
    } else {
        r.subrange(offset as int, r.len() as int)
    }
}

/// Card records keyed by id. The row identifier of the card at position `i`
/// is `i + 1`; it never changes.
pub struct CatalogStore {
    cards: Vec<Card>,
    names: Vec<Vec<char>>,
}

impl View for CatalogStore {
    type V = Seq<Card>;

    closed spec fn view(&self) -> Seq<Card> {
        self.cards@
    }
}

impl CatalogStore {
    pub closed spec fn wf(&self) -> bool {
        &&& ids_unique(self.cards@)
        &&& self.names.len() == self.cards.len()
        &&& forall|i: int| 0 <= i < self.names.len() ==> (#[trigger] self.names@[i])@ == self.cards@[i].name@
    }

    pub fn new() -> (r: CatalogStore)
        ensures
            r.wf(),
            ids_unique(r@),
            r@ == Seq::<Card>::empty(),
    {
        CatalogStore { cards: Vec::new(), names: Vec::new() }
    }

    pub fn len(&self) -> (r: usize)
        ensures
            r == self@.len(),
    {
        self.cards.len()
    }

    /// Stores `card`, replacing the card with the same id; returns its row
    /// identifier.
    pub fn upsert(&mut self, card: Card) -> (r: usize)
        requires
            old(self).wf(),
        ensures
            final(self).wf(),
            ids_unique(final(self)@),
            final(self)@ == upsert_cards(old(self)@, card),
            1 <= r <= final(self)@.len(),
            final(self)@[r - 1] == card,
    {
        let ghost cards0 = self@;
        let ghost c = card;
        let name = chars_of(card.name.as_str());
        let n = self.cards.len();
        let mut i: usize = 0;
        while i < n
            invariant
                self.wf(),
                n == self.cards.len(),
                i <= n,
                self@ == cards0,
                cards0 == old(self)@,
                c == card,
                name@ == card.name@,
                forall|j: int| 0 <= j < i ==> (#[trigger] cards0[j]).id@ != card.id@,
            decreases n - i,
        {
            if self.cards[i].id == card.id {
                proof {
                    assert(0 <= i < cards0.len() && cards0[i as int].id@ == c.id@);
                    let k = choose|k: int| 0 <= k < cards0.len() && (#[trigger] cards0[k]).id@ == c.id@;
                    assert(k == i);
                }
                self.cards.set(i, card);
                self.names.set(i, name);
                assert(self@ =~= cards0.update(i as int, c));
                return i + 1;
            }
            i = i + 1;
        }
        self.cards.push(card);
        self.names.push(name);
        assert(self@ =~= cards0.push(c));
        self.cards.len()
    }

    /// The cards for the given row identifiers, in their order.
    pub fn by_row_ids(&self, rowids: &[i64]) -> (r: Vec<Card>)
        ensures
            r@ == hydrate(self@, rowids@),
    {
        let mut out: Vec<Card> = Vec::new();
        let mut i: usize = 0;
        while i < rowids.len()
            invariant
                i <= rowids.len(),
                out@ == hydrate(self@, rowids@.subrange(0, i as int)),
            decreases rowids.len() - i,
        {
            assert(rowids@.subrange(0, i + 1).drop_last() =~= rowids@.subrange(0, i as int));
            let id = rowids[i];
            if 1 <= id && ((id - 1) as u64) < (self.cards.len() as u64) {
                let c = copy_card(&self.cards[(id - 1) as usize]);
                out.push(c);
            }
            i = i + 1;
        }
        assert(rowids@.subrange(0, rowids.len() as int) =~= rowids@);
        out
    }
}

impl CatalogStore {
    proof fn lemma_names(&self)
        requires
            self.wf(),
        ensures
            card_names(self@).len() == self.names.len(),
            forall|i: int| 0 <= i < self.names.len() ==> #[trigger] card_names(self@)[i] == self.names@[i]@,
    {
        assert forall|i: int| 0 <= i < self.names.len() implies #[trigger] card_names(self@)[i] == self.names@[i]@ by {
            assert(card_names(self@)[i] == self@[i].name@);
        }
    }

    /// The first card, by position, whose name is the smallest name that
    /// contains `pattern` and comes after `last` (after nothing when `has_last`
    /// is false).
    fn next_name_above(&self, pattern: &Vec<char>, has_last: bool, last: &Vec<char>) -> (r: Option<usize>)
        requires
            self.wf(),
        ensures
            r is Some ==> r->Some_0 < self@.len() && contains_folded(
                card_names(self@)[r->Some_0 as int],
                pattern@,
            ) && (!has_last || text_lt(last@, card_names(self@)[r->Some_0 as int])) && first_of_name(
                card_names(self@),
                r->Some_0 as int,
            ),
            r is Some ==> forall|i: int|
                0 <= i < self@.len() && contains_folded(card_names(self@)[i], pattern@) && (!has_last
                    || text_lt(last@, card_names(self@)[i])) ==> !text_lt(
                    #[trigger] card_names(self@)[i],
                    card_names(self@)[r->Some_0 as int],
                ),
            r is None ==> forall|i: int|
                0 <= i < self@.len() ==> !(contains_folded(#[trigger] card_names(self@)[i], pattern@) && (
                !has_last || text_lt(last@, card_names(self@)[i]))),
    {
        let ghost names = card_names(self@);
        proof {
            self.lemma_names();
        }
        let n = self.names.len();
        let mut best: Option<usize> = None;
        let mut j: usize = 0;
        while j < n
            invariant
                self.wf(),
                names == card_names(self@),
                n == names.len(),
                n == self.names.len(),
                forall|i: int| 0 <= i < n ==> #[trigger] names[i] == self.names@[i]@,
                j <= n,
                best is Some ==> best->Some_0 < j && contains_folded(names[best->Some_0 as int], pattern@)
                    && (!has_last || text_lt(last@, names[best->Some_0 as int])) && first_of_name(
                    names,
                    best->Some_0 as int,
                ),
                best is Some ==> forall|i: int|
                    0 <= i < j && contains_folded(names[i], pattern@) && (!has_last || text_lt(
                        last@,
                        names[i],
                    )) ==> !text_lt(#[trigger] names[i], names[best->Some_0 as int]),
                best is None ==> forall|i: int|
                    0 <= i < j ==> !(contains_folded(#[trigger] names[i], pattern@) && (!has_last
                        || text_lt(last@, names[i]))),
            decreases n - j,
        {
            let q = contains_ignoring_case(&self.names[j], pattern);
            let above = !has_last || text_less(last, &self.names[j]);
            if q && above {
                match best {
                    None => {
                        proof {
                            assert forall|i: int| 0 <= i < j implies #[trigger] names[i] != names[j as int] by {
                                if names[i] == names[j as int] {
                                    assert(contains_folded(names[i], pattern@));
                                }
                            }
                        }
                        best = Some(j);
                    },
                    Some(b) => {
                        if text_less(&self.names[j], &self.names[b]) {
                            proof {
                                assert forall|i: int| 0 <= i < j implies #[trigger] names[i] != names[j as int] by {
                                    if names[i] == names[j as int] {
                                        assert(contains_folded(names[i], pattern@));
                                        assert(!text_lt(names[i], names[b as int]));
                                    }
                                }
                                assert forall|i: int|
                                    0 <= i < j + 1 && contains_folded(names[i], pattern@) && (!has_last
                                        || text_lt(last@, names[i])) implies !text_lt(
                                    #[trigger] names[i],
                                    names[j as int],
                                ) by {
                                    if i < j && text_lt(names[i], names[j as int]) {
                                        lemma_text_lt_transitive(names[i], names[j as int], names[b as int]);
                                    }
                                    if i == j {
                                        lemma_text_lt_irreflexive(names[i]);
                                    }
                                }
                            }
                            best = Some(j);
                        }
                    },
                }
            }
            proof {
                if best is Some && best->Some_0 < j {
                    let b = best->Some_0 as int;
                    if q && above {
                        assert(!text_lt(names[j as int], names[b]));
                    }
                }
                if best is Some && best->Some_0 == j {
                    lemma_text_lt_irreflexive(names[j as int]);
                }
            }
            j = j + 1;
        }
        best
    }
}

/// Positions as integers.
pub open spec fn positions(r: Seq<usize>) -> Seq<int> {
    r.map_values(|x: usize| x as int)
}

impl CatalogStore {
    /// The first `count` distinct names that contain `pattern`, in ascending
    /// order, each by the position of its first card.
    fn rank_names(&self, pattern: &Vec<char>, count: u64) -> (r: Vec<usize>)
        requires
            self.wf(),
        ensures
            is_ranking(card_names(self@), pattern@, count as nat, positions(r@)),
    {
        let ghost names = card_names(self@);
        proof {
            self.lemma_names();
        }
        let n = self.names.len();
        let none: Vec<char> = Vec::new();
        let mut out: Vec<usize> = Vec::new();
        let mut exhausted = false;
        while (out.len() as u64) < count && !exhausted
            invariant
                self.wf(),
                names == card_names(self@),
                n == names.len(),
                n == self.names.len(),
                forall|i: int| 0 <= i < n ==> #[trigger] names[i] == self.names@[i]@,
                out.len() <= count,
                forall|x: int|
                    0 <= x < out.len() ==> (#[trigger] out@[x]) < n && contains_folded(
                        names[out@[x] as int],
                        pattern@,
                    ) && first_of_name(names, out@[x] as int),
                forall|x: int, y: int|
                    0 <= x < y < out.len() ==> text_lt(
                        names[(#[trigger] out@[x]) as int],
                        names[(#[trigger] out@[y]) as int],
                    ),
                exhausted ==> forall|j: int|
                    0 <= j < n && contains_folded(#[trigger] names[j], pattern@) ==> lists_name(
                        names,
                        positions(out@),
                        names[j],
                    ),
                out.len() > 0 ==> forall|j: int|
                    0 <= j < n && contains_folded(#[trigger] names[j], pattern@) ==> lists_name(
                        names,
                        positions(out@),
                        names[j],
                    ) || text_lt(names[out@.last() as int], names[j]),
            decreases count - out.len() + (if exhausted { 0int } else { 1int }),
        {
            let has_last = out.len() > 0;
            let best = if has_last {
                self.next_name_above(pattern, true, &self.names[out[out.len() - 1]])
            } else {
                self.next_name_above(pattern, false, &none)
            };
            let ghost before = out@;
            match best {
                None => {
                    proof {
                        assert forall|j: int|
                            0 <= j < n && contains_folded(#[trigger] names[j], pattern@) implies lists_name(
                            names,
                            positions(out@),
                            names[j],
                        ) by {
                            assert(has_last);
                        }
                    }
                    exhausted = true;
                },
                Some(b) => {
                    out.push(b);
                    proof {
                        let m = out@.len() - 1;
                        assert(out@[m] == b);
                        assert(forall|x: int| 0 <= x < before.len() ==> out@[x] == before[x]);
                        assert(positions(out@).len() == out@.len());
                        assert forall|x: int, y: int|
                            0 <= x < y < out.len() implies text_lt(
                            names[(#[trigger] out@[x]) as int],
                            names[(#[trigger] out@[y]) as int],
                        ) by {
                            if y == m && x < m - 1 {
                                lemma_text_lt_transitive(
                                    names[out@[x] as int],
                                    names[before.last() as int],
                                    names[b as int],
                                );
                            }
                        }
                        assert forall|j: int|
                            0 <= j < n && contains_folded(#[trigger] names[j], pattern@) implies lists_name(
                            names,
                            positions(out@),
                            names[j],
                        ) || text_lt(names[out@.last() as int], names[j]) by {
                            if !text_lt(names[b as int], names[j]) {
                                if !has_last || text_lt(names[before.last() as int], names[j]) {
                                    if names[j] != names[b as int] {
                                        lemma_text_lt_total(names[j], names[b as int]);
                                    }
                                    assert(positions(out@)[m] == b as int);
                                } else {
                                    let x = choose|x: int|
                                        0 <= x < positions(before).len() && names[#[trigger] positions(
                                            before,
                                        )[x]] == names[j];
                                    assert(positions(out@)[x] == positions(before)[x]);
                                }
                            }
                        }
                    }
                },
            }
        }
        out
    }

    /// The page from `offset` of the first `offset + limit` ranked names.
    fn ranked_page(&self, pattern: &Vec<char>, limit: u64, offset: u64) -> (r: Vec<Card>)
        requires
            self.wf(),
        ensures
            exists|rk: Seq<int>|
                is_ranking(card_names(self@), pattern@, sat_add(offset, limit), rk) && r@ == cards_at(
                    self@,
                    from_offset(rk, offset),
                ),
    {
        let count: u64 = if offset > u64::MAX - limit {
            u64::MAX
        } else {
            offset + limit
        };
        let rk = self.rank_names(pattern, count);
        let ghost pos = positions(rk@);
        proof {
            assert forall|x: int| 0 <= x < rk.len() implies (#[trigger] rk@[x]) < self@.len() by {
                assert(pos[x] == rk@[x] as int);
                assert(card_names(self@).len() == self@.len());
            }
        }
        let mut out: Vec<Card> = Vec::new();
        if (offset as u128) < (rk.len() as u128) {
            let start = offset as usize;
            let mut i: usize = start;
            while i < rk.len()
                invariant
                    start <= i <= rk.len(),
                    start == offset,
                    pos == positions(rk@),
                    forall|x: int| 0 <= x < rk.len() ==> (#[trigger] rk@[x]) < self@.len(),
                    out@ == cards_at(self@, pos.subrange(start as int, i as int)),
                decreases rk.len() - i,
            {
                let c = copy_card(&self.cards[rk[i]]);
                out.push(c);
                assert(pos[i as int] == rk@[i as int] as int);
                assert(cards_at(self@, pos.subrange(start as int, i + 1)) =~= cards_at(
                    self@,
                    pos.subrange(start as int, i as int),
                ).push(self@[pos[i as int]]));
                i = i + 1;
            }
            assert(from_offset(pos, offset) == pos.subrange(start as int, rk.len() as int));
        } else {
            assert(cards_at(self@, from_offset(pos, offset)) =~= Seq::<Card>::empty());
        }
        proof {
            assert(is_ranking(card_names(self@), pattern@, sat_add(offset, limit), pos));
        }
        out
    }

    /// Cards whose names contain `pattern`, ignoring ASCII case, one per name
    /// (the first stored with it), ordered by name: the `limit` names from
    /// position `offset` on.
    pub fn search_literal(&self, pattern: &str, limit: u64, offset: u64) -> (r: Vec<Card>)
        requires
            self.wf(),
        ensures
            exists|rk: Seq<int>|
                is_ranking(card_names(self@), pattern@, sat_add(offset, limit), rk) && r@ == cards_at(
                    self@,
                    from_offset(rk, offset),
                ),
    {
        let pat = chars_of(pattern);
        self.ranked_page(&pat, limit, offset)
    }

    /// One card per name, ordered by name: the `limit` names from position
    /// `offset` on.
    pub fn list(&self, limit: u64, offset: u64) -> (r: Vec<Card>)
        requires
            self.wf(),
        ensures
            exists|rk: Seq<int>|
                is_ranking(card_names(self@), Seq::<char>::empty(), sat_add(offset, limit), rk) && r@
                    == cards_at(self@, from_offset(rk, offset)),
    {
        let pat: Vec<char> = Vec::new();
        assert(pat@ =~= Seq::<char>::empty());
        self.ranked_page(&pat, limit, offset)
    }
}

impl CatalogStore {
    /// The card with row identifier `rowid`, if there is one.
    pub fn get(&self, rowid: i64) -> (r: Option<Card>)
        ensures
            names_card(self@, rowid as int) ==> r == Some(self@[rowid - 1]),
            !names_card(self@, rowid as int) ==> r is None,
    {
        if 1 <= rowid && ((rowid - 1) as u64) < (self.cards.len() as u64) {
            Some(copy_card(&self.cards[(rowid - 1) as usize]))
        } else {
            None
        }
    }
}

proof fn lemma_no_earlier_name(
    names: Seq<Seq<char>>,
    pattern: Seq<char>,
    count: nat,
    r1: Seq<int>,
    r2: Seq<int>,
    x: int,
)
    requires
        is_ranking(names, pattern, count, r1),
        is_ranking(names, pattern, count, r2),
        0 <= x < r1.len(),
        x < r2.len(),
        forall|y: int| 0 <= y < x ==> names[#[trigger] r1[y]] == names[r2[y]],
    ensures
        !text_lt(names[r1[x]], names[r2[x]]),
{
    let n1 = names[r1[x]];
    let n2 = names[r2[x]];
    if text_lt(n1, n2) {
        assert(contains_folded(names[r1[x]], pattern));
        let j = r1[x];
        assert(lists_name(names, r2, names[j]) || text_lt(names[r2.last()], names[j]));
        if lists_name(names, r2, n1) {
            let y = choose|y: int| 0 <= y < r2.len() && names[#[trigger] r2[y]] == n1;
            if y == x {
                lemma_text_lt_irreflexive(n1);
            } else if y > x {
                lemma_text_lt_asymmetric(n1, n2);
            } else {
                assert(names[r1[y]] == names[r2[y]]);
                assert(text_lt(names[r1[y]], names[r1[x]]));
                lemma_text_lt_irreflexive(n1);
            }
        } else {
            let l = r2.len() - 1;
            if x == l {
                lemma_text_lt_asymmetric(n1, n2);
            } else {
                assert(text_lt(names[r2[x]], names[r2[l]]));
                lemma_text_lt_transitive(n2, names[r2[l]], n1);
                lemma_text_lt_asymmetric(n1, n2);
            }
        }
    }
}

proof fn lemma_names_agree(names: Seq<Seq<char>>, pattern: Seq<char>, count: nat, r1: Seq<int>, r2: Seq<int>, x: int)
    requires
        is_ranking(names, pattern, count, r1),
        is_ranking(names, pattern, count, r2),
        0 <= x <= r1.len(),
        x <= r2.len(),
    ensures
        forall|y: int| 0 <= y < x ==> names[#[trigger] r1[y]] == names[r2[y]],
    decreases x,
{
    if x > 0 {
        lemma_names_agree(names, pattern, count, r1, r2, x - 1);
        lemma_no_earlier_name(names, pattern, count, r1, r2, x - 1);
        lemma_names_agree(names, pattern, count, r2, r1, x - 1);
        lemma_no_earlier_name(names, pattern, count, r2, r1, x - 1);
        if names[r1[x - 1]] != names[r2[x - 1]] {
            lemma_text_lt_total(names[r1[x - 1]], names[r2[x - 1]]);
        }
    }
}

proof fn lemma_not_shorter(names: Seq<Seq<char>>, pattern: Seq<char>, count: nat, r1: Seq<int>, r2: Seq<int>)
    requires
        is_ranking(names, pattern, count, r1),
        is_ranking(names, pattern, count, r2),
    ensures
        r2.len() <= r1.len(),
{
    if r1.len() < r2.len() {
        let l = r1.len() as int;
        lemma_names_agree(names, pattern, count, r1, r2, l);
        let j = r2[l];
        assert(contains_folded(names[j], pattern));
        assert(lists_name(names, r1, names[j]));
        let y = choose|y: int| 0 <= y < r1.len() && names[#[trigger] r1[y]] == names[j];
        assert(names[r1[y]] == names[r2[y]]);
        assert(text_lt(names[r2[y]], names[r2[l]]));
        lemma_text_lt_irreflexive(names[j]);
    }
}

/// A ranking is determined by the names, the pattern and the count.
pub proof fn lemma_ranking_unique(names: Seq<Seq<char>>, pattern: Seq<char>, count: nat, r1: Seq<int>, r2: Seq<int>)
    requires
        is_ranking(names, pattern, count, r1),
        is_ranking(names, pattern, count, r2),
    ensures
        r1 == r2,
{
    lemma_not_shorter(names, pattern, count, r1, r2);
    lemma_not_shorter(names, pattern, count, r2, r1);
    lemma_names_agree(names, pattern, count, r1, r2, r1.len() as int);
    assert forall|x: int| 0 <= x < r1.len() implies r1[x] == r2[x] by {
        assert(names[r1[x]] == names[r2[x]]);
        assert(first_of_name(names, r1[x]));
        assert(first_of_name(names, r2[x]));
        if r1[x] < r2[x] {
            assert(names[r1[x]] != names[r2[x]]);
        } else if r2[x] < r1[x] {
            assert(names[r2[x]] != names[r1[x]]);
        }
    }
    assert(r1 =~= r2);
}

/// Upserting is idempotent by id: upserting a card twice leaves the catalog
/// as one upsert does, and afterwards exactly one card holds its id, at the
/// position of the earlier card with that id or at the end.
pub proof fn lemma_upsert_idempotent(cards: Seq<Card>, c: Card)
    requires
        ids_unique(cards),
    ensures
        ids_unique(upsert_cards(cards, c)),
        upsert_cards(upsert_cards(cards, c), c) == upsert_cards(cards, c),
        exists|i: int|
            0 <= i < upsert_cards(cards, c).len() && #[trigger] upsert_cards(cards, c)[i] == c,
        forall|i: int, j: int|
            0 <= i < upsert_cards(cards, c).len() && 0 <= j < upsert_cards(cards, c).len()
                && (#[trigger] upsert_cards(cards, c)[i]).id@ == c.id@
                && (#[trigger] upsert_cards(cards, c)[j]).id@ == c.id@ ==> i == j,
{
    let once = upsert_cards(cards, c);
    let at = if exists|i: int| 0 <= i < cards.len() && (#[trigger] cards[i]).id@ == c.id@ {
        choose|i: int| 0 <= i < cards.len() && (#[trigger] cards[i]).id@ == c.id@
    } else {
        cards.len() as int
    };
    assert(once[at] == c);
    assert(once.len() == cards.len() || once.len() == cards.len() + 1);
    assert forall|i: int| 0 <= i < once.len() && i != at implies #[trigger] once[i] == cards[i] by {}
    assert forall|i: int, j: int|
        0 <= i < once.len() && 0 <= j < once.len() && i != j implies (#[trigger] once[i]).id@
        != (#[trigger] once[j]).id@ by {
        if i != at && j != at {
            assert(once[i] == cards[i] && once[j] == cards[j]);
        } else if i == at {
            assert(once[j] == cards[j]);
        } else {
            assert(once[i] == cards[i]);
        }
    }
    assert(0 <= at < once.len() && once[at].id@ == c.id@);
    let k = choose|k: int| 0 <= k < once.len() && (#[trigger] once[k]).id@ == c.id@;
    assert(k == at);
    assert(upsert_cards(once, c) =~= once.update(at, c));
    assert(once.update(at, c) =~= once);
}

/// The first `c1` entries of a ranking for a larger count are the ranking
/// for `c1`.
pub proof fn lemma_ranking_prefix(names: Seq<Seq<char>>, pattern: Seq<char>, c1: nat, c2: nat, r: Seq<int>)
    requires
        c1 <= c2,
        is_ranking(names, pattern, c2, r),
    ensures
        is_ranking(names, pattern, c1, r.take(if c1 < r.len() { c1 as int } else { r.len() as int })),
{
    let m = if c1 < r.len() {
        c1 as int
    } else {
        r.len() as int
    };
    let t = r.take(m);
    assert forall|x: int| 0 <= x < t.len() implies #[trigger] t[x] == r[x] by {}
    assert forall|x: int, y: int| 0 <= x < y < t.len() implies text_lt(
        names[#[trigger] t[x]],
        names[#[trigger] t[y]],
    ) by {
        assert(t[x] == r[x] && t[y] == r[y]);
    }
    if m == r.len() {
        assert(t =~= r);
    } else if m > 0 {
        assert forall|j: int|
            0 <= j < names.len() && contains_folded(#[trigger] names[j], pattern) implies lists_name(
            names,
            t,
            names[j],
        ) || text_lt(names[t.last()], names[j]) by {
            assert(t.last() == r[m - 1]);
            if lists_name(names, r, names[j]) {
                let x = choose|x: int| 0 <= x < r.len() && names[#[trigger] r[x]] == names[j];
                if x < m {
                    assert(t[x] == r[x]);
                } else if x > m - 1 {
                    assert(text_lt(names[r[m - 1]], names[r[x]]));
                }
            } else {
                let l = r.len() - 1;
                assert(text_lt(names[r[m - 1]], names[r[l]]));
                lemma_text_lt_transitive(names[r[m - 1]], names[r[l]], names[j]);
            }
        }
    }
}

} // verus!
