use vstd::prelude::*;

verus! {

/// The page asked for when a request names none.
pub fn default_page() -> (r: u32)
    ensures
        r == 1,
{
    1
}

/// The page size used when a request names none.
pub fn default_limit() -> (r: u32)
    ensures
        r == 25,
{
    25
}

/// The query used when a request names none: the empty query, which lists
/// every card.
pub fn default_search() -> (r: String)
    ensures
        r@ == Seq::<char>::empty(),
{
    String::new()
}

/// The parameters of a card search request.
pub struct CardQueryParams {
    pub page: u32,
    pub limit: u32,
    pub search: String,
}

impl Default for CardQueryParams {
    fn default() -> (r: CardQueryParams)
        ensures
            r.page == 1,
            r.limit == 25,
            r.search@ == Seq::<char>::empty(),
    {
        CardQueryParams { page: default_page(), limit: default_limit(), search: default_search() }
    }
}

} // verus!
