//! Cost trend reporting: turns per-account billing observations into
//! month-over-month trend series, ranked service shares, a cross-account
//! monthly matrix and a global summary, and lays these out as pages of
//! table cells. Costs are exact integers counted in millionths of the
//! currency unit, so every total and percentage is reproducible.

pub mod accounts;
pub mod amounts;
pub mod artifacts;
pub mod costs;
pub mod intake;
pub mod ledger;
pub mod money;
pub mod paging;
pub mod periods;
pub mod profiles;
pub mod report;
pub mod run;
pub mod shares;
pub mod tables;
pub mod text;
pub mod trend;
pub mod unified;
pub mod window;
