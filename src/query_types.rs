//! Parameters of list queries: the home/away filter and pagination.

use vstd::prelude::*;

verus! {

/// Page sizes a caller may ask for.
#[derive(Debug, Clone, Copy, PartialEq, Eq, Structural)]
pub enum PagPerPage {
    Ten,
    TwentyFive,
    Fifty,
    Hundred,
    TwoHundredFifty,
}

impl PagPerPage {
    pub open spec fn spec_size(self) -> usize {
        match self {
            PagPerPage::Ten => 10,
            PagPerPage::TwentyFive => 25,
            PagPerPage::Fifty => 50,
            PagPerPage::Hundred => 100,
            PagPerPage::TwoHundredFifty => 250,
        }
    }

    /// Number of items on one page.
    pub fn size(self) -> (r: usize)
        ensures
            r == self.spec_size(),
    {
        match self {
            PagPerPage::Ten => 10,
            PagPerPage::TwentyFive => 25,
            PagPerPage::Fifty => 50,
            PagPerPage::Hundred => 100,
            PagPerPage::TwoHundredFifty => 250,
        }
    }

    /// The page size written as that number, if it is one of the sizes.
    pub fn from_size(n: u64) -> (r: Option<PagPerPage>)
        ensures
            match r {
                Some(p) => p.spec_size() == n,
                None => n != 10 && n != 25 && n != 50 && n != 100 && n != 250,
            },
    {
        if n == 10 {
            Some(PagPerPage::Ten)
        } else if n == 25 {
            Some(PagPerPage::TwentyFive)
        } else if n == 50 {
            Some(PagPerPage::Fifty)
        } else if n == 100 {
            Some(PagPerPage::Hundred)
        } else if n == 250 {
            Some(PagPerPage::TwoHundredFifty)
        } else {
            None
        }
    }
}

/// Which side of a match a team query counts: either side, home only, away only.
#[derive(Debug, Clone, Copy, PartialEq, Eq, Structural)]
pub enum HomeAwayOption {
    Both,
    Home,
    Away,
}

impl Default for HomeAwayOption {
    fn default() -> (r: Self)
        ensures
            r == HomeAwayOption::Both,
    {
        HomeAwayOption::Both
    }
}

#[derive(Debug, Clone, Copy, PartialEq, Eq)]
pub struct QueryParams {
    pub offset: Option<usize>,
    pub per_page: Option<PagPerPage>,
    pub home_away: Option<HomeAwayOption>,
}

impl Default for QueryParams {
    fn default() -> (r: Self)
        ensures
            r.offset is None,
            r.per_page is None,
            r.home_away is None,
    {
        QueryParams { offset: None, per_page: None, home_away: None }
    }
}

/// The items of the requested page: skip `offset` items (none by
/// default), then take at most one page (ten items by default).
pub open spec fn page_of<T>(q: QueryParams, items: Seq<T>) -> Seq<T> {
    let off = match q.offset {
        Some(o) => o as int,
        None => 0,
    };
    let size = match q.per_page {
        Some(p) => p.spec_size() as int,
        None => 10,
    };
    if off >= items.len() {
        Seq::empty()
    } else if off + size >= items.len() {
        items.subrange(off, items.len() as int)
    } else {
        items.subrange(off, off + size)
    }
}

/// The page of `items` that `q` asks for.
pub fn paginate_matches<T: Copy>(q: &QueryParams, items: &Vec<T>) -> (r: Vec<T>)
    ensures
        r@ == page_of(*q, items@),
{
    let off: usize = match q.offset {
        Some(o) => o,
        None => 0,
    };
    let size: usize = match q.per_page {
        Some(p) => p.size(),
        None => 10,
    };
    let n = items.len();
    if off >= n {
        return Vec::new();
    }
    let end: usize = if n - off <= size {
        n
    } else {
        off + size
    };
    let mut r: Vec<T> = Vec::new();
    let mut i: usize = off;
    while i < end
        invariant
            off <= i <= end,
            end <= n,
            n == items@.len(),
            r@ == items@.subrange(off as int, i as int),
        decreases end - i,
    {
        r.push(items[i]);
        i = i + 1;
        assert(r@ =~= items@.subrange(off as int, i as int));
    }
    r
}

} // verus!
