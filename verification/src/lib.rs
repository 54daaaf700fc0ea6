//! Tabular effect features: discretize the columns of chunked tables, accumulate pairwise
//! co-occurrence tallies of their values, and lay out per-row `{column}_effect` attributions.

pub mod activation;
pub mod aggregator;
pub mod cancel;
pub mod counts;
pub mod layout;
pub mod numeric;
pub mod order;
pub mod pairs;
pub mod preprocess;
pub mod progress;
pub mod stream;
pub mod table;
pub mod text;

pub use activation::{ActivationConfig, EffectActivation, KgPairActivation, TransformConfig, TransformLimits};
pub use aggregator::{ComboTally, EffectColumn, EffectPlan, PairAggregator};
pub use cancel::{CancelToken, CheckHook, CtrlcGuard, NoHook, INTERRUPT_MSG};
pub use layout::{build_output_fields, plan_split, require_batches, require_same_schema, SplitPlan};
pub use numeric::{bin_index, map_numerical_bins, numerical_bounds};
pub use pairs::canonical_val_pair;
pub use preprocess::{return_accounted_bins, BinDepth, BinType, ColumnPreprocess, ValueKey};
pub use progress::{select_display, should_log_batch, ProgressDisplay, ProgressTimer};
pub use stream::PreprocessStream;
pub use table::{ChunkTable, ColGraph, ColumnVec, NamedColumns};
