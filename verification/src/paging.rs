//! Column pagination of wide tables.
//!
//! A table shows its fixed columns on every page and the periods in
//! consecutive pages of equal width, the last one holding what is left.

use vstd::prelude::*;

verus! {

/// The number of columns that fit on a page.
pub const MAX_COLUMNS: usize = 10;

/// The fixed columns of the unified view: profile, account id, account name.
pub const UNIFIED_FIXED_COLUMNS: usize = 3;

/// The columns of the service view that are set aside for its fixed columns.
pub const SERVICE_FIXED_COLUMNS: usize = 2;

/// The periods on one page of the unified view.
pub const UNIFIED_PAGE_WIDTH: usize = MAX_COLUMNS - UNIFIED_FIXED_COLUMNS;

/// The periods on one page of the service view.
pub const SERVICE_PAGE_WIDTH: usize = MAX_COLUMNS - SERVICE_FIXED_COLUMNS;

/// The pages one after another.
pub open spec fn joined(pages: Seq<Vec<String>>) -> Seq<String>
    decreases pages.len(),
{
    if pages.len() == 0 {
        Seq::empty()
    } else {
        joined(pages.drop_last()) + pages.last()@
    }
}

/// The end of the page that starts at `start`.
pub open spec fn page_end(start: int, width: int, len: int) -> int {
    if len - start < width {
        len
    } else {
        start + width
    }
}

/// `pages` is `periods` cut into pages of `width`: page `k` holds the
/// periods from position `k * width` up to the next page or the end, and
/// there is no empty page.
pub open spec fn paged(pages: Seq<Vec<String>>, periods: Seq<String>, width: int) -> bool {
    &&& forall|k: int|
        0 <= k < pages.len() ==> (#[trigger] pages[k])@ == periods.subrange(
            k * width,
            page_end(k * width, width, periods.len() as int),
        )
    &&& forall|k: int| 0 <= k < pages.len() ==> 0 < (#[trigger] pages[k])@.len()
    &&& pages.len() * width >= periods.len()
}

/// Cuts `periods` into pages of `width` periods.
pub fn paginate(periods: &Vec<String>, width: usize) -> (pages: Vec<Vec<String>>)
    requires
        width > 0,
    ensures
        paged(pages@, periods@, width as int),
        joined(pages@) == periods@,
        forall|k: int| 0 <= k < pages@.len() ==> 0 < (#[trigger] pages@[k])@.len() <= width,
        forall|k: int| 0 <= k < pages@.len() - 1 ==> (#[trigger] pages@[k])@.len() == width,
{
    let mut pages: Vec<Vec<String>> = Vec::new();
    let mut start: usize = 0;
    let len = periods.len();
    proof {
        assert(periods@.take(0) =~= Seq::<String>::empty());
        assert(0 * width == 0) by (nonlinear_arith);
    }
    while start < len
        invariant
            width > 0,
            len == periods@.len(),
            start <= len,
            start < len ==> start == pages@.len() * width,
            start == len ==> pages@.len() * width >= len,
            joined(pages@) == periods@.take(start as int),
            forall|k: int| 0 <= k < pages@.len() ==> #[trigger] (k * width) < len,
            forall|k: int|
                0 <= k < pages@.len() ==> (#[trigger] pages@[k])@ == periods@.subrange(
                    k * width,
                    page_end(k * width, width as int, len as int),
                ),
            forall|k: int| 0 <= k < pages@.len() ==> 0 < (#[trigger] pages@[k])@.len() <= width,
        decreases len - start,
    {
        let end: usize = if len - start < width {
            len
        } else {
            start + width
        };
        let mut page: Vec<String> = Vec::new();
        let mut i: usize = start;
        while i < end
            invariant
                start <= i <= end <= periods@.len(),
                page@ == periods@.subrange(start as int, i as int),
            decreases end - i,
        {
            let ghost held = page@;
            page.push(periods[i].clone());
            proof {
                assert(page@ =~= periods@.subrange(start as int, i + 1));
            }
            i += 1;
        }
        let ghost before = pages@;
        pages.push(page);
        proof {
            let n = before.len() as int;
            assert((n + 1) * width == n * width + width) by (nonlinear_arith);
            assert(n * width == start);
            assert(end == page_end(start as int, width as int, len as int));
            assert(pages@[n]@ == periods@.subrange(start as int, end as int));
            assert(pages@.drop_last() =~= before);
            assert(joined(pages@) =~= periods@.take(end as int));
            assert forall|k: int| 0 <= k < pages@.len() implies (#[trigger] pages@[k])@
                == periods@.subrange(k * width, page_end(k * width, width as int, len as int)) by {
                if k < n {
                    assert(pages@[k] == before[k]);
                }
            }
            assert forall|k: int| 0 <= k < pages@.len() implies 0 < (#[trigger] pages@[k])@.len()
                <= width by {
                if k < n {
                    assert(pages@[k] == before[k]);
                }
            }
        }
        start = end;
    }
    proof {
        assert(periods@.take(len as int) =~= periods@);
        if len == 0 {
            assert(pages@.len() * width >= 0) by (nonlinear_arith)
                requires
                    pages@.len() >= 0,
                    width > 0,
            ;
        }
        assert forall|k: int| 0 <= k < pages@.len() - 1 implies (#[trigger] pages@[k])@.len()
            == width by {
            assert((k + 1) * width == k * width + width) by (nonlinear_arith);
            assert((k + 1) * width < len);
        }
    }
    pages
}

/// The number that a page is shown under: pages are counted from one.
pub fn page_number(index: usize) -> (number: usize)
    requires
        index < usize::MAX,
    ensures
        number == index + 1,
{
    index + 1
}

} // verus!
