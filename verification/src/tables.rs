//! The tables of a report set, cell by cell.
//!
//! Every table is a header and rows of texts. A wide table is cut into
//! pages by `paging`: each page repeats the fixed columns and shows its own
//! periods. Costs are written with two decimals, percentages with one. A
//! period that an account or a group has no cost on shows as zero.

use vstd::prelude::*;
use vstd::string::*;
use crate::costs::MonthlyCosts;
use crate::paging::{joined, paged, paginate, SERVICE_PAGE_WIDTH, UNIFIED_PAGE_WIDTH};
use crate::periods::texts;
use crate::artifacts::{
    account_file, csv_stem, global_csv_path, service_csv_path, trend_csv_path, unified_csv_path,
};
use crate::report::{AccountCostReport, UnifiedAccountRow};
use crate::run::ReportSet;
use crate::shares::ServiceShare;
use crate::text::{cost_text, format_cost, format_percent, percent_text};
use crate::trend::TrendPoint;
use crate::unified::GlobalSummary;

verus! {

/// A header and rows of cells.
pub struct Table {
    pub header: Vec<String>,
    pub rows: Vec<Vec<String>>,
}

/// The texts of the rows of a table.
pub open spec fn row_texts(rows: Seq<Vec<String>>) -> Seq<Seq<Seq<char>>> {
    Seq::new(rows.len(), |i: int| texts(rows[i]@))
}

impl Table {
    /// The texts of the header and of the rows.
    pub open spec fn view(&self) -> (Seq<Seq<char>>, Seq<Seq<Seq<char>>>) {
        (texts(self.header@), row_texts(self.rows@))
    }
}

/// One page of a wide table, with its number and the periods it shows.
pub struct Page {
    pub number: usize,
    pub periods: Vec<String>,
    pub table: Table,
}

/// The periods of a run of pages.
pub open spec fn page_periods(pages: Seq<Page>) -> Seq<Vec<String>> {
    Seq::new(pages.len(), |k: int| pages[k].periods)
}

/// The costs of `monthly` on the periods of `page`, as texts.
pub open spec fn cost_cells(monthly: MonthlyCosts, page: Seq<String>) -> Seq<Seq<char>> {
    Seq::new(page.len(), |i: int| cost_text(monthly.cost_of(page[i]@)))
}

/// The header of the unified view over the periods of `page`.
pub open spec fn unified_header(page: Seq<String>) -> Seq<Seq<char>> {
    seq!["Profile"@, "Account ID"@, "Account Name"@] + texts(page)
}

/// The cells of one account in the unified view.
pub open spec fn unified_cells(row: UnifiedAccountRow, page: Seq<String>) -> Seq<Seq<char>> {
    seq![row.profile@, row.account_id@, row.account_name@] + cost_cells(row.monthly_costs, page)
}

/// The unified view of `rows` over the periods of `page`.
pub open spec fn unified_view(rows: Seq<UnifiedAccountRow>, page: Seq<String>) -> (
    Seq<Seq<char>>,
    Seq<Seq<Seq<char>>>,
) {
    (unified_header(page), Seq::new(rows.len(), |i: int| unified_cells(rows[i], page)))
}

/// The header of the trend table.
pub open spec fn trend_header() -> Seq<Seq<char>> {
    seq!["Month"@, "Total Cost (USD)"@, "MoM Change (%)"@]
}

/// The cells of one point of a trend.
pub open spec fn trend_cells(point: TrendPoint) -> Seq<Seq<char>> {
    seq![
        point.period@,
        cost_text(point.total_cost as int),
        percent_text(point.mom_change_percent as int),
    ]
}

/// The trend table of `trend`.
pub open spec fn trend_view(trend: Seq<TrendPoint>) -> (Seq<Seq<char>>, Seq<Seq<Seq<char>>>) {
    (trend_header(), Seq::new(trend.len(), |i: int| trend_cells(trend[i])))
}

/// The header of the service table over the periods of `page`.
pub open spec fn service_header(page: Seq<String>) -> Seq<Seq<char>> {
    seq!["Service"@] + texts(page) + seq!["Total Cost (USD)"@, "Percent of Total (%)"@]
}

/// The cells of one share in the service table.
pub open spec fn service_cells(share: ServiceShare, page: Seq<String>) -> Seq<Seq<char>> {
    seq![share.service@] + cost_cells(share.monthly, page) + seq![
        cost_text(share.total_cost as int),
        percent_text(share.percent_of_total as int),
    ]
}

/// The service table of `shares` over the periods of `page`.
pub open spec fn service_view(shares: Seq<ServiceShare>, page: Seq<String>) -> (
    Seq<Seq<char>>,
    Seq<Seq<Seq<char>>>,
) {
    (service_header(page), Seq::new(shares.len(), |i: int| service_cells(shares[i], page)))
}

/// The table of the global summary.
pub open spec fn summary_view(summary: GlobalSummary) -> (Seq<Seq<char>>, Seq<Seq<Seq<char>>>) {
    (
        seq!["Metric"@, "Value"@],
        seq![
            seq!["Total Cost (USD)"@, cost_text(summary.total_cost as int)],
            seq!["Average Monthly Cost (USD)"@, cost_text(summary.average_monthly_cost as int)],
        ],
    )
}

/// Appends to `cells` the costs of `monthly` on the periods of `page`.
pub fn push_cost_cells(cells: &mut Vec<String>, monthly: &MonthlyCosts, page: &Vec<String>)
    requires
        monthly.wf(),
    ensures
        texts(final(cells)@) == texts(old(cells)@) + cost_cells(*monthly, page@),
{
    let ghost before = texts(cells@);
    let mut i: usize = 0;
    proof {
        assert(texts(cells@) =~= before + cost_cells(*monthly, page@).take(0));
    }
    while i < page.len()
        invariant
            i <= page@.len(),
            monthly.wf(),
            texts(cells@) == before + cost_cells(*monthly, page@).take(i as int),
        decreases page@.len() - i,
    {
        let ghost held = texts(cells@);
        let cost = monthly.cost(&page[i]);
        cells.push(format_cost(cost));
        proof {
            assert(texts(cells@) =~= held.push(cost_text(cost as int)));
            assert(texts(cells@) =~= before + cost_cells(*monthly, page@).take(i + 1));
        }
        i += 1;
    }
    proof {
        assert(cost_cells(*monthly, page@).take(i as int) =~= cost_cells(*monthly, page@));
    }
}

/// Appends to `cells` the texts of `page`.
pub fn push_texts(cells: &mut Vec<String>, page: &Vec<String>)
    ensures
        texts(final(cells)@) == texts(old(cells)@) + texts(page@),
{
    let ghost before = texts(cells@);
    let mut i: usize = 0;
    proof {
        assert(texts(cells@) =~= before + texts(page@).take(0));
    }
    while i < page.len()
        invariant
            i <= page@.len(),
            texts(cells@) == before + texts(page@).take(i as int),
        decreases page@.len() - i,
    {
        let ghost held = texts(cells@);
        cells.push(page[i].clone());
        proof {
            assert(texts(cells@) =~= held.push(page@[i as int]@));
            assert(texts(cells@) =~= before + texts(page@).take(i + 1));
        }
        i += 1;
    }
    proof {
        assert(texts(page@).take(i as int) =~= texts(page@));
    }
}

/// The unified view of `rows` over the periods of `page`.
pub fn unified_table(rows: &Vec<UnifiedAccountRow>, page: &Vec<String>) -> (table: Table)
    requires
        forall|i: int| 0 <= i < rows@.len() ==> (#[trigger] rows@[i]).monthly_costs.wf(),
    ensures
        table@ == unified_view(rows@, page@),
{
    let mut header: Vec<String> = Vec::new();
    header.push(String::from_str("Profile"));
    header.push(String::from_str("Account ID"));
    header.push(String::from_str("Account Name"));
    proof {
        assert(texts(header@) =~= seq!["Profile"@, "Account ID"@, "Account Name"@]);
    }
    push_texts(&mut header, page);
    let mut body: Vec<Vec<String>> = Vec::new();
    let mut i: usize = 0;
    while i < rows.len()
        invariant
            i <= rows@.len(),
            forall|k: int| 0 <= k < rows@.len() ==> (#[trigger] rows@[k]).monthly_costs.wf(),
            body@.len() == i,
            forall|k: int| 0 <= k < i ==> texts((#[trigger] body@[k])@) == unified_cells(rows@[k], page@),
        decreases rows@.len() - i,
    {
        let row = &rows[i];
        let mut cells: Vec<String> = Vec::new();
        cells.push(row.profile.clone());
        cells.push(row.account_id.clone());
        cells.push(row.account_name.clone());
        proof {
            assert(texts(cells@) =~= seq![row.profile@, row.account_id@, row.account_name@]);
        }
        push_cost_cells(&mut cells, &row.monthly_costs, page);
        body.push(cells);
        i += 1;
    }
    let table = Table { header, rows: body };
    proof {
        assert(row_texts(table.rows@) =~= unified_view(rows@, page@).1);
    }
    table
}

/// The trend table of `trend`.
pub fn trend_table(trend: &Vec<TrendPoint>) -> (table: Table)
    ensures
        table@ == trend_view(trend@),
{
    let mut header: Vec<String> = Vec::new();
    header.push(String::from_str("Month"));
    header.push(String::from_str("Total Cost (USD)"));
    header.push(String::from_str("MoM Change (%)"));
    proof {
        assert(texts(header@) =~= trend_header());
    }
    let mut body: Vec<Vec<String>> = Vec::new();
    let mut i: usize = 0;
    while i < trend.len()
        invariant
            i <= trend@.len(),
            body@.len() == i,
            forall|k: int| 0 <= k < i ==> texts((#[trigger] body@[k])@) == trend_cells(trend@[k]),
        decreases trend@.len() - i,
    {
        let point = &trend[i];
        let mut cells: Vec<String> = Vec::new();
        cells.push(point.period.clone());
        cells.push(format_cost(point.total_cost));
        cells.push(format_percent(point.mom_change_percent));
        proof {
            assert(texts(cells@) =~= trend_cells(*point));
        }
        body.push(cells);
        i += 1;
    }
    let table = Table { header, rows: body };
    proof {
        assert(row_texts(table.rows@) =~= trend_view(trend@).1);
    }
    table
}

/// The service table of `shares` over the periods of `page`.
pub fn service_table(shares: &Vec<ServiceShare>, page: &Vec<String>) -> (table: Table)
    requires
        forall|i: int| 0 <= i < shares@.len() ==> (#[trigger] shares@[i]).monthly.wf(),
    ensures
        table@ == service_view(shares@, page@),
{
    let mut header: Vec<String> = Vec::new();
    header.push(String::from_str("Service"));
    proof {
        assert(texts(header@) =~= seq!["Service"@]);
    }
    push_texts(&mut header, page);
    let ghost head = texts(header@);
    header.push(String::from_str("Total Cost (USD)"));
    header.push(String::from_str("Percent of Total (%)"));
    proof {
        assert(texts(header@) =~= head + seq!["Total Cost (USD)"@, "Percent of Total (%)"@]);
    }
    let mut body: Vec<Vec<String>> = Vec::new();
    let mut i: usize = 0;
    while i < shares.len()
        invariant
            i <= shares@.len(),
            forall|k: int| 0 <= k < shares@.len() ==> (#[trigger] shares@[k]).monthly.wf(),
            body@.len() == i,
            forall|k: int|
                0 <= k < i ==> texts((#[trigger] body@[k])@) == service_cells(shares@[k], page@),
        decreases shares@.len() - i,
    {
        let share = &shares[i];
        let mut cells: Vec<String> = Vec::new();
        cells.push(share.service.clone());
        proof {
            assert(texts(cells@) =~= seq![share.service@]);
        }
        push_cost_cells(&mut cells, &share.monthly, page);
        let ghost front = texts(cells@);
        cells.push(format_cost(share.total_cost));
        cells.push(format_percent(share.percent_of_total));
        proof {
            assert(texts(cells@) =~= front + seq![
                cost_text(share.total_cost as int),
                percent_text(share.percent_of_total as int),
            ]);
        }
        body.push(cells);
        i += 1;
    }
    let table = Table { header, rows: body };
    proof {
        assert(row_texts(table.rows@) =~= service_view(shares@, page@).1);
    }
    table
}

/// The table of the global summary.
pub fn summary_table(summary: &GlobalSummary) -> (table: Table)
    ensures
        table@ == summary_view(*summary),
{
    let mut header: Vec<String> = Vec::new();
    header.push(String::from_str("Metric"));
    header.push(String::from_str("Value"));
    let mut total: Vec<String> = Vec::new();
    total.push(String::from_str("Total Cost (USD)"));
    total.push(format_cost(summary.total_cost));
    let mut mean: Vec<String> = Vec::new();
    mean.push(String::from_str("Average Monthly Cost (USD)"));
    mean.push(format_cost(summary.average_monthly_cost));
    let mut body: Vec<Vec<String>> = Vec::new();
    body.push(total);
    body.push(mean);
    let table = Table { header, rows: body };
    proof {
        assert(texts(table.header@) =~= summary_view(*summary).0);
        assert(texts(table.rows@[0]@) =~= summary_view(*summary).1[0]);
        assert(texts(table.rows@[1]@) =~= summary_view(*summary).1[1]);
        assert(row_texts(table.rows@) =~= summary_view(*summary).1);
    }
    table
}

/// `pages` are the pages of the unified view of `rows` over `periods`:
/// the periods cut into pages of seven, the pages numbered from one, each
/// with the table of all rows over its periods.
pub open spec fn is_unified_paging(
    pages: Seq<Page>,
    rows: Seq<UnifiedAccountRow>,
    periods: Seq<String>,
) -> bool {
    &&& paged(page_periods(pages), periods, UNIFIED_PAGE_WIDTH as int)
    &&& joined(page_periods(pages)) == periods
    &&& forall|k: int|
        0 <= k < pages.len() ==> (#[trigger] pages[k]).number == k + 1 && pages[k].table@
            == unified_view(rows, pages[k].periods@)
}

/// `pages` are the pages of the service table of `shares` over `periods`:
/// the periods cut into pages of eight, the pages numbered from one, each
/// with the table of all shares over its periods.
pub open spec fn is_service_paging(
    pages: Seq<Page>,
    shares: Seq<ServiceShare>,
    periods: Seq<String>,
) -> bool {
    &&& paged(page_periods(pages), periods, SERVICE_PAGE_WIDTH as int)
    &&& joined(page_periods(pages)) == periods
    &&& forall|k: int|
        0 <= k < pages.len() ==> (#[trigger] pages[k]).number == k + 1 && pages[k].table@
            == service_view(shares, pages[k].periods@)
}

/// The pages of the unified view: the periods of `periods` cut into pages,
/// each with the table of `rows` over its periods.
pub fn unified_pages(rows: &Vec<UnifiedAccountRow>, periods: &Vec<String>) -> (pages: Vec<Page>)
    requires
        forall|i: int| 0 <= i < rows@.len() ==> (#[trigger] rows@[i]).monthly_costs.wf(),
    ensures
        is_unified_paging(pages@, rows@, periods@),
{
    let chunks = paginate(periods, UNIFIED_PAGE_WIDTH);
    let ghost all = chunks@;
    let count = chunks.len();
    let mut pages: Vec<Page> = Vec::new();
    let mut k: usize = 0;
    for chunk in it: chunks
        invariant
            it.seq() == all,
            count == all.len(),
            k == it.index(),
            pages@.len() == k,
            forall|i: int| 0 <= i < rows@.len() ==> (#[trigger] rows@[i]).monthly_costs.wf(),
            forall|j: int|
                0 <= j < k ==> (#[trigger] pages@[j]).number == j + 1 && pages@[j].periods == all[j]
                    && pages@[j].table@ == unified_view(rows@, all[j]@),
    {
        let table = unified_table(rows, &chunk);
        assert(k < count);
        pages.push(Page { number: k + 1, periods: chunk, table });
        k += 1;
    }
    proof {
        assert(page_periods(pages@) =~= all);
    }
    pages
}

/// The pages of the service table of one account.
pub fn service_pages(shares: &Vec<ServiceShare>, periods: &Vec<String>) -> (pages: Vec<Page>)
    requires
        forall|i: int| 0 <= i < shares@.len() ==> (#[trigger] shares@[i]).monthly.wf(),
    ensures
        is_service_paging(pages@, shares@, periods@),
{
    let chunks = paginate(periods, SERVICE_PAGE_WIDTH);
    let ghost all = chunks@;
    let count = chunks.len();
    let mut pages: Vec<Page> = Vec::new();
    let mut k: usize = 0;
    for chunk in it: chunks
        invariant
            it.seq() == all,
            count == all.len(),
            k == it.index(),
            pages@.len() == k,
            forall|i: int| 0 <= i < shares@.len() ==> (#[trigger] shares@[i]).monthly.wf(),
            forall|j: int|
                0 <= j < k ==> (#[trigger] pages@[j]).number == j + 1 && pages@[j].periods == all[j]
                    && pages@[j].table@ == service_view(shares@, all[j]@),
    {
        let table = service_table(shares, &chunk);
        assert(k < count);
        pages.push(Page { number: k + 1, periods: chunk, table });
        k += 1;
    }
    proof {
        assert(page_periods(pages@) =~= all);
    }
    pages
}

/// The tables of one account on the console: its trend, then the pages of
/// its service table.
pub struct AccountTables {
    pub trend: Table,
    pub service_pages: Vec<Page>,
}

/// What the console shows, in the order in which it shows it: the pages of
/// the unified view, then the tables of each account, then the summary.
pub struct ConsoleReport {
    pub unified_pages: Vec<Page>,
    pub accounts: Vec<AccountTables>,
    pub summary: Table,
}

/// `tables` are the console tables of `report` over the recent periods.
pub open spec fn is_account_tables(
    tables: AccountTables,
    report: AccountCostReport,
    recent: Seq<String>,
) -> bool {
    &&& tables.trend@ == trend_view(report.cost_trend@)
    &&& is_service_paging(tables.service_pages@, report.service_consumption@, recent)
}

/// `shown` is what the console shows of `set`.
pub open spec fn is_console_report(shown: ConsoleReport, set: ReportSet) -> bool {
    &&& is_unified_paging(shown.unified_pages@, set.unified_view@, set.recent_periods@)
    &&& shown.accounts@.len() == set.accounts@.len()
    &&& forall|i: int|
        0 <= i < shown.accounts@.len() ==> is_account_tables(
            #[trigger] shown.accounts@[i],
            set.accounts@[i],
            set.recent_periods@,
        )
    &&& shown.summary@ == summary_view(set.global_summary)
}

/// Lays out what the console shows of `set`. Wide tables show the periods
/// of the recent window, page by page; the trend shows all periods.
pub fn console_report(set: &ReportSet) -> (shown: ConsoleReport)
    requires
        set.renderable(),
    ensures
        is_console_report(shown, *set),
{
    let unified = unified_pages(&set.unified_view, &set.recent_periods);
    let mut accounts: Vec<AccountTables> = Vec::new();
    let mut i: usize = 0;
    while i < set.accounts.len()
        invariant
            i <= set.accounts@.len(),
            set.renderable(),
            accounts@.len() == i,
            forall|k: int|
                0 <= k < i ==> is_account_tables(
                    #[trigger] accounts@[k],
                    set.accounts@[k],
                    set.recent_periods@,
                ),
        decreases set.accounts@.len() - i,
    {
        let report = &set.accounts[i];
        proof {
            assert(report.renderable());
        }
        let trend = trend_table(&report.cost_trend);
        let service_pages = service_pages(&report.service_consumption, &set.recent_periods);
        accounts.push(AccountTables { trend, service_pages });
        i += 1;
    }
    let summary = summary_table(&set.global_summary);
    ConsoleReport { unified_pages: unified, accounts, summary }
}

/// A CSV file: where it goes and what it holds.
pub struct CsvFile {
    pub path: String,
    pub table: Table,
}

/// The files of one account: its trend, and its service table over the
/// recent periods.
pub open spec fn is_account_files(
    trend: CsvFile,
    services: CsvFile,
    report: AccountCostReport,
    recent: Seq<String>,
    base: Seq<char>,
) -> bool {
    &&& trend.path@ == account_file(
        csv_stem(base),
        "_trend_profile_"@,
        report.profile@,
        report.account_id@,
        ".csv"@,
    )
    &&& trend.table@ == trend_view(report.cost_trend@)
    &&& services.path@ == account_file(
        csv_stem(base),
        "_service_summary_profile_"@,
        report.profile@,
        report.account_id@,
        ".csv"@,
    )
    &&& services.table@ == service_view(report.service_consumption@, recent)
}

/// `files` are the CSV files of `set` under the base name `base`: two for
/// each account, then the global summary, then the unified view.
pub open spec fn is_csv_export(files: Seq<CsvFile>, set: ReportSet, base: Seq<char>) -> bool {
    &&& files.len() == 2 * set.accounts@.len() + 2
    &&& forall|i: int|
        0 <= i < set.accounts@.len() ==> is_account_files(
            #[trigger] files[2 * i],
            files[2 * i + 1],
            set.accounts@[i],
            set.recent_periods@,
            base,
        )
    &&& files[files.len() - 2].path@ == csv_stem(base) + "_global_summary.csv"@
    &&& files[files.len() - 2].table@ == summary_view(set.global_summary)
    &&& files[files.len() - 1].path@ == csv_stem(base) + "_unified_view.csv"@
    &&& files[files.len() - 1].table@ == unified_view(set.unified_view@, set.recent_periods@)
}

/// Lays out the CSV files of `set`. No table is cut into pages.
pub fn csv_export(set: &ReportSet, base: &str) -> (files: Vec<CsvFile>)
    requires
        set.renderable(),
    ensures
        is_csv_export(files@, *set, base@),
{
    let mut files: Vec<CsvFile> = Vec::new();
    let mut i: usize = 0;
    while i < set.accounts.len()
        invariant
            i <= set.accounts@.len(),
            set.renderable(),
            files@.len() == 2 * i,
            forall|k: int|
                0 <= k < i ==> is_account_files(
                    #[trigger] files@[2 * k],
                    files@[2 * k + 1],
                    set.accounts@[k],
                    set.recent_periods@,
                    base@,
                ),
        decreases set.accounts@.len() - i,
    {
        let report = &set.accounts[i];
        let ghost held = files@;
        proof {
            assert(report.renderable());
        }
        files.push(
            CsvFile {
                path: trend_csv_path(base, report.profile.as_str(), report.account_id.as_str()),
                table: trend_table(&report.cost_trend),
            },
        );
        files.push(
            CsvFile {
                path: service_csv_path(base, report.profile.as_str(), report.account_id.as_str()),
                table: service_table(&report.service_consumption, &set.recent_periods),
            },
        );
        proof {
            assert forall|k: int| 0 <= k < i + 1 implies is_account_files(
                #[trigger] files@[2 * k],
                files@[2 * k + 1],
                set.accounts@[k],
                set.recent_periods@,
                base@,
            ) by {
                if k < i {
                    assert(files@[2 * k] == held[2 * k]);
                    assert(files@[2 * k + 1] == held[2 * k + 1]);
                }
            }
        }
        i += 1;
    }
    let ghost held = files@;
    files.push(CsvFile { path: global_csv_path(base), table: summary_table(&set.global_summary) });
    files.push(
        CsvFile {
            path: unified_csv_path(base),
            table: unified_table(&set.unified_view, &set.recent_periods),
        },
    );
    proof {
        assert forall|k: int| 0 <= k < set.accounts@.len() implies is_account_files(
            #[trigger] files@[2 * k],
            files@[2 * k + 1],
            set.accounts@[k],
            set.recent_periods@,
            base@,
        ) by {
            assert(files@[2 * k] == held[2 * k]);
            assert(files@[2 * k + 1] == held[2 * k + 1]);
        }
    }
    files
}

/// Rendering is repeatable: two tables made of the same rows over the same
/// periods show the same texts, cell by cell.
pub proof fn lemma_tables_repeat(
    first: Table,
    second: Table,
    content: (Seq<Seq<char>>, Seq<Seq<Seq<char>>>),
)
    requires
        first@ == content,
        second@ == content,
    ensures
        texts(first.header@) == texts(second.header@),
        first.rows@.len() == second.rows@.len(),
        forall|i: int|
            0 <= i < first.rows@.len() ==> texts((#[trigger] first.rows@[i])@) == texts(
                second.rows@[i]@,
            ),
{
    assert(row_texts(first.rows@).len() == row_texts(second.rows@).len());
    assert forall|i: int| 0 <= i < first.rows@.len() implies texts((#[trigger] first.rows@[i])@)
        == texts(second.rows@[i]@) by {
        assert(row_texts(first.rows@)[i] == row_texts(second.rows@)[i]);
    }
}

} // verus!
