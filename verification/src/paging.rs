//! Showing a log a page at a time: how many pages there are, which records a
//! page shows, and moving between pages.

use vstd::prelude::*;

verus! {

/// The number of pages that `total` records fill at `per_page` a page; an
/// empty log still has one (empty) page.
pub open spec fn pages_for(total: int, per_page: int) -> int {
    if total == 0 {
        1
    } else {
        (total + per_page - 1) / per_page
    }
}

/// The records `start..end` that page `page` shows.
pub open spec fn span_of(page: int, per_page: int, total: int) -> (int, int) {
    let start = page * per_page;
    (start, if start + per_page < total { start + per_page } else { total })
}

/// Where the reader stands in a paged log.
pub struct Pager {
    pub current_page: usize,
    pub items_per_page: usize,
}

impl Pager {
    /// A reader on the first page.
    pub fn new(items_per_page: usize) -> (r: Self)
        ensures
            r.current_page == 0,
            r.items_per_page == items_per_page,
    {
        Pager { current_page: 0, items_per_page }
    }

    /// The number of pages for `total_items` records.
    pub fn page_count(&self, total_items: usize) -> (r: usize)
        requires
            total_items == 0 || (self.items_per_page > 0 && total_items + self.items_per_page
                <= usize::MAX),
        ensures
            r == pages_for(total_items as int, self.items_per_page as int),
    {
        if total_items == 0 {
            1
        } else {
            (total_items + self.items_per_page - 1) / self.items_per_page
        }
    }

    /// The records `start..end` that the current page shows.
    pub fn visible_span(&self, total_items: usize) -> (r: (usize, usize))
        requires
            self.current_page * self.items_per_page + self.items_per_page <= usize::MAX,
        ensures
            (r.0 as int, r.1 as int) == span_of(
                self.current_page as int,
                self.items_per_page as int,
                total_items as int,
            ),
    {
        let start = self.current_page * self.items_per_page;
        let end = if start + self.items_per_page < total_items {
            start + self.items_per_page
        } else {
            total_items
        };
        (start, end)
    }

    /// Whether there is a page before the current one.
    pub fn has_previous(&self) -> (r: bool)
        ensures
            r == (self.current_page > 0),
    {
        self.current_page > 0
    }

    /// Whether there is a page after the current one, among `total_pages`.
    pub fn has_next(&self, total_pages: usize) -> (r: bool)
        ensures
            r == (self.current_page + 1 < total_pages),
    {
        self.current_page < total_pages && total_pages - self.current_page > 1
    }

    /// Moves to the previous page.
    pub fn go_previous(&mut self)
        requires
            old(self).current_page > 0,
        ensures
            final(self).current_page == old(self).current_page - 1,
            final(self).items_per_page == old(self).items_per_page,
    {
        self.current_page = self.current_page - 1;
    }

    /// Moves to the next page.
    pub fn go_next(&mut self)
        requires
            old(self).current_page < usize::MAX,
        ensures
            final(self).current_page == old(self).current_page + 1,
            final(self).items_per_page == old(self).items_per_page,
    {
        self.current_page = self.current_page + 1;
    }

    /// Back to the first page.
    pub fn reset(&mut self)
        ensures
            final(self).current_page == 0,
            final(self).items_per_page == old(self).items_per_page,
    {
        self.current_page = 0;
    }
}

/// The pages of a log cover its records without gaps or overlaps: the first
/// page starts at the first record, each page starts where the one before it
/// ends, the last page ends at the last record, and no page of a non-empty log
/// is empty or longer than `per_page`.
pub proof fn law_pages_cover_log(total: int, per_page: int, page: int)
    requires
        total >= 0,
        per_page > 0,
        0 <= page < pages_for(total, per_page),
    ensures
        span_of(0, per_page, total).0 == 0,
        0 <= span_of(page, per_page, total).0 <= span_of(page, per_page, total).1 <= total,
        span_of(page, per_page, total).1 - span_of(page, per_page, total).0 <= per_page,
        total > 0 ==> span_of(page, per_page, total).0 < span_of(page, per_page, total).1,
        page + 1 < pages_for(total, per_page) ==> span_of(page, per_page, total).1 == span_of(
            page + 1,
            per_page,
            total,
        ).0,
        page + 1 == pages_for(total, per_page) ==> span_of(page, per_page, total).1 == total,
{
    assert(0 * per_page == 0) by (nonlinear_arith);
    assert((page + 1) * per_page == page * per_page + per_page) by (nonlinear_arith);
    assert(page * per_page >= 0) by (nonlinear_arith)
        requires
            page >= 0,
            per_page > 0,
    ;
    if total > 0 {
        let c = (total + per_page - 1) / per_page;
        assert(c * per_page <= total + per_page - 1 < c * per_page + per_page) by (nonlinear_arith)
            requires
                c == (total + per_page - 1) / per_page,
                per_page > 0,
                total > 0,
        ;
        assert(page * per_page < total) by (nonlinear_arith)
            requires
                page < c,
                c * per_page <= total + per_page - 1,
                per_page > 0,
                page >= 0,
        ;
        if page + 1 == c {
            assert(page * per_page + per_page >= total);
        } else {
            assert((page + 1) * per_page <= (c - 1) * per_page) by (nonlinear_arith)
                requires
                    page + 1 <= c - 1,
                    per_page > 0,
            ;
            assert((c - 1) * per_page == c * per_page - per_page) by (nonlinear_arith);
        }
    }
}

} // verus!
