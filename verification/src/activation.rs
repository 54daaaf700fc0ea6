//! Activation choices and transform configuration.

use crate::preprocess::BinDepth;
use crate::text::{cat, debug_quoted, debug_text, decimal, decimal_text, same_text};
use vstd::prelude::*;
use vstd::string::StringExecFns;

verus! {

/// How a pair edge weight is computed from accumulated pair statistics.
#[derive(Clone, Copy, Debug, PartialEq, Eq, Structural)]
pub enum KgPairActivation {
    /// `(sum / count) * log10(count)` when count > 1, else 0.
    LogFrequencyWeightedMean,
}

impl Default for KgPairActivation {
    fn default() -> (r: Self)
        ensures
            r == KgPairActivation::LogFrequencyWeightedMean,
    {
        KgPairActivation::LogFrequencyWeightedMean
    }
}

/// How combined column signal becomes an effect feature value.
#[derive(Clone, Copy, Debug, PartialEq, Eq, Structural)]
pub enum EffectActivation {
    /// `combined - global_mean_outcome`
    GlobalMeanContrast,
}

impl Default for EffectActivation {
    fn default() -> (r: Self)
        ensures
            r == EffectActivation::GlobalMeanContrast,
    {
        EffectActivation::GlobalMeanContrast
    }
}

/// Activation settings for both stages.
#[derive(Clone, Copy, Debug, PartialEq, Eq, Structural)]
pub struct ActivationConfig {
    pub kg_pair: KgPairActivation,
    pub effect: EffectActivation,
}

impl Default for ActivationConfig {
    fn default() -> (r: Self)
        ensures
            r.kg_pair == KgPairActivation::LogFrequencyWeightedMean,
            r.effect == EffectActivation::GlobalMeanContrast,
    {
        ActivationConfig { kg_pair: KgPairActivation::default(), effect: EffectActivation::default() }
    }
}

/// Optional fail-fast caps for large or wide transforms (all `None` = no limits).
#[derive(Clone, Copy, Debug, PartialEq, Eq, Structural)]
pub struct TransformLimits {
    pub max_rows: Option<usize>,
    pub max_active_columns: Option<usize>,
    pub max_col_pairs: Option<usize>,
    pub max_vals_map_keys: Option<usize>,
}

impl Default for TransformLimits {
    fn default() -> (r: Self)
        ensures
            r.max_rows is None,
            r.max_active_columns is None,
            r.max_col_pairs is None,
            r.max_vals_map_keys is None,
    {
        TransformLimits { max_rows: None, max_active_columns: None, max_col_pairs: None, max_vals_map_keys: None }
    }
}

/// The message for a quantity over its limit.
pub open spec fn limit_text(what: Seq<char>, value: nat, max: nat) -> Seq<char> {
    what + " "@ + decimal_text(value) + " exceed the limit of "@ + decimal_text(max)
}

fn limit_message(what: &str, value: usize, max: usize) -> (r: String)
    ensures
        r@ == limit_text(what@, value as nat, max as nat),
{
    let mut m = cat(what, " ");
    m.append(decimal(value).as_str());
    m.append(" exceed the limit of ");
    m.append(decimal(max).as_str());
    m
}

impl TransformLimits {
    /// The first size limit exceeded, in the order rows, active columns, column pairs.
    pub open spec fn size_violation(&self, rows: nat, active_columns: nat, col_pairs: nat) -> Option<Seq<char>> {
        if self.max_rows is Some && rows > self.max_rows->0 {
            Some(limit_text("rows"@, rows, self.max_rows->0 as nat))
        } else if self.max_active_columns is Some && active_columns > self.max_active_columns->0 {
            Some(limit_text("active columns"@, active_columns, self.max_active_columns->0 as nat))
        } else if self.max_col_pairs is Some && col_pairs > self.max_col_pairs->0 {
            Some(limit_text("column pairs"@, col_pairs, self.max_col_pairs->0 as nat))
        } else {
            None
        }
    }

    /// Fails fast when a transform is larger than the caps allow.
    pub fn check_size(&self, rows: usize, active_columns: usize, col_pairs: usize) -> (r: Result<(), String>)
        ensures
            match self.size_violation(rows as nat, active_columns as nat, col_pairs as nat) {
                Some(e) => r matches Err(m) && m@ == e,
                None => r is Ok,
            },
    {
        if let Some(m) = self.max_rows {
            if rows > m {
                return Err(limit_message("rows", rows, m));
            }
        }
        if let Some(m) = self.max_active_columns {
            if active_columns > m {
                return Err(limit_message("active columns", active_columns, m));
            }
        }
        if let Some(m) = self.max_col_pairs {
            if col_pairs > m {
                return Err(limit_message("column pairs", col_pairs, m));
            }
        }
        Ok(())
    }

    /// Fails fast when the pair tallies hold more keys than the cap allows.
    pub fn check_keys(&self, keys: usize) -> (r: Result<(), String>)
        ensures
            match self.max_vals_map_keys {
                Some(m) if keys > m => r matches Err(e) && e@ == limit_text("pair keys"@, keys as nat, m as nat),
                _ => r is Ok,
            },
    {
        if let Some(m) = self.max_vals_map_keys {
            if keys > m {
                return Err(limit_message("pair keys", keys, m));
            }
        }
        Ok(())
    }
}

/// The default activations.
pub open spec fn default_activation() -> ActivationConfig {
    ActivationConfig {
        kg_pair: KgPairActivation::LogFrequencyWeightedMean,
        effect: EffectActivation::GlobalMeanContrast,
    }
}

/// No limits.
pub open spec fn no_limits() -> TransformLimits {
    TransformLimits { max_rows: None, max_active_columns: None, max_col_pairs: None, max_vals_map_keys: None }
}

/// Full configuration of a transform.
#[derive(Clone, Debug)]
pub struct TransformConfig {
    pub bin_depth: BinDepth,
    pub activation: ActivationConfig,
    /// When true, progress is written to stderr.
    pub verbose: bool,
    pub limits: TransformLimits,
}

impl TransformConfig {
    /// Default activations, quiet, no limits.
    pub fn new(bin_depth: BinDepth) -> (r: Self)
        ensures
            r.bin_depth == bin_depth,
            r.activation == default_activation(),
            !r.verbose,
            r.limits == no_limits(),
    {
        TransformConfig {
            bin_depth,
            activation: ActivationConfig::default(),
            verbose: false,
            limits: TransformLimits::default(),
        }
    }

    /// The same configuration with `activation`.
    pub fn with_activation(self, activation: ActivationConfig) -> (r: Self)
        ensures
            r.activation == activation,
            r.bin_depth == self.bin_depth,
            r.verbose == self.verbose,
            r.limits == self.limits,
    {
        let mut c = self;
        c.activation = activation;
        c
    }

    /// The same configuration with `verbose`.
    pub fn with_verbose(self, verbose: bool) -> (r: Self)
        ensures
            r.verbose == verbose,
            r.bin_depth == self.bin_depth,
            r.activation == self.activation,
            r.limits == self.limits,
    {
        let mut c = self;
        c.verbose = verbose;
        c
    }

    /// The same configuration with `limits`.
    pub fn with_limits(self, limits: TransformLimits) -> (r: Self)
        ensures
            r.limits == limits,
            r.bin_depth == self.bin_depth,
            r.activation == self.activation,
            r.verbose == self.verbose,
    {
        let mut c = self;
        c.limits = limits;
        c
    }
}

/// The message for an unknown pair-activation name, given the name as `{:?}` writes it.
pub open spec fn unknown_kg_message_text(quoted: Seq<char>) -> Seq<char> {
    "unknown kg_activation "@ + quoted + "; supported: \"log_frequency_weighted_mean\""@
}

/// The message for an unknown effect-activation name, given the name as `{:?}` writes it.
pub open spec fn unknown_effect_message_text(quoted: Seq<char>) -> Seq<char> {
    "unknown effect_activation "@ + quoted + "; supported: \"global_mean_contrast\""@
}

/// The message for an unknown pair-activation name.
pub open spec fn unknown_kg_text(name: Seq<char>) -> Seq<char> {
    unknown_kg_message_text(debug_text(name))
}

/// The message for an unknown effect-activation name.
pub open spec fn unknown_effect_text(name: Seq<char>) -> Seq<char> {
    unknown_effect_message_text(debug_text(name))
}

/// The message for an unknown pair-activation name, from the name as `{:?}` writes it.
pub fn unknown_kg_message(quoted: &str) -> (r: String)
    ensures
        r@ == unknown_kg_message_text(quoted@),
{
    let mut e = String::from_str("unknown kg_activation ");
    e.append(quoted);
    e.append("; supported: \"log_frequency_weighted_mean\"");
    e
}

/// The message for an unknown effect-activation name, from the name as `{:?}` writes it.
pub fn unknown_effect_message(quoted: &str) -> (r: String)
    ensures
        r@ == unknown_effect_message_text(quoted@),
{
    let mut e = String::from_str("unknown effect_activation ");
    e.append(quoted);
    e.append("; supported: \"global_mean_contrast\"");
    e
}

/// The pair activation named `name`.
pub fn parse_kg_activation(name: &str) -> (r: Result<KgPairActivation, String>)
    ensures
        name@ == "log_frequency_weighted_mean"@ ==> r == Ok::<KgPairActivation, String>(
            KgPairActivation::LogFrequencyWeightedMean,
        ),
        name@ != "log_frequency_weighted_mean"@ ==> (r matches Err(e) && e@ == unknown_kg_text(name@)),
{
    if same_text(name, "log_frequency_weighted_mean") {
        Ok(KgPairActivation::LogFrequencyWeightedMean)
    } else {
        Err(unknown_kg_message(debug_quoted(name).as_str()))
    }
}

/// The effect activation named `name`.
pub fn parse_effect_activation(name: &str) -> (r: Result<EffectActivation, String>)
    ensures
        name@ == "global_mean_contrast"@ ==> r == Ok::<EffectActivation, String>(
            EffectActivation::GlobalMeanContrast,
        ),
        name@ != "global_mean_contrast"@ ==> (r matches Err(e) && e@ == unknown_effect_text(name@)),
{
    if same_text(name, "global_mean_contrast") {
        Ok(EffectActivation::GlobalMeanContrast)
    } else {
        Err(unknown_effect_message(debug_quoted(name).as_str()))
    }
}

/// The per-column overrides that a list of `(column, depth)` pairs gives, later pairs winning.
pub open spec fn overrides(pairs: Seq<(usize, usize)>) -> Map<usize, usize>
    decreases pairs.len(),
{
    if pairs.len() == 0 {
        Map::empty()
    } else {
        overrides(pairs.drop_last()).insert(pairs.last().0, pairs.last().1)
    }
}

/// Bin depth `main` with the given per-column overrides.
pub fn depth_from_args(main: usize, per_column: Option<Vec<(usize, usize)>>) -> (d: BinDepth)
    ensures
        d.main == main,
        d.per_column@ == match per_column {
            Some(p) => overrides(p@),
            None => Map::<usize, usize>::empty(),
        },
{
    let mut d = BinDepth::new(main);
    match per_column {
        Some(p) => {
            let mut i: usize = 0;
            while i < p.len()
                invariant
                    i <= p.len(),
                    d.main == main,
                    d.per_column@ == overrides(p@.take(i as int)),
                decreases p.len() - i,
            {
                let (col, depth) = p[i];
                d.per_column.insert(col, depth);
                assert(p@.take(i + 1).drop_last() =~= p@.take(i as int));
                i = i + 1;
            }
            assert(p@.take(p.len() as int) =~= p@);
        },
        None => {},
    }
    d
}

/// The configuration that the named activations and depths describe, with no limits.
pub fn config_from_args(
    main_depth: usize,
    per_column: Option<Vec<(usize, usize)>>,
    kg_activation: &str,
    effect_activation: &str,
    verbose: bool,
) -> (r: Result<TransformConfig, String>)
    ensures
        kg_activation@ != "log_frequency_weighted_mean"@ ==> (r matches Err(e) && e@ == unknown_kg_text(kg_activation@)),
        kg_activation@ == "log_frequency_weighted_mean"@ && effect_activation@ != "global_mean_contrast"@ ==> (r matches Err(e) && e@ == unknown_effect_text(effect_activation@)),
        kg_activation@ == "log_frequency_weighted_mean"@ && effect_activation@ == "global_mean_contrast"@ ==> (r matches Ok(c) && c.bin_depth.main == main_depth && c.bin_depth.per_column@ == match per_column {
            Some(p) => overrides(p@),
            None => Map::<usize, usize>::empty(),
        } && c.activation == default_activation() && c.verbose == verbose && c.limits == no_limits()),
{
    let bin_depth = depth_from_args(main_depth, per_column);
    let kg_pair = match parse_kg_activation(kg_activation) {
        Ok(a) => a,
        Err(e) => return Err(e),
    };
    let effect = match parse_effect_activation(effect_activation) {
        Ok(a) => a,
        Err(e) => return Err(e),
    };
    Ok(TransformConfig {
        bin_depth,
        activation: ActivationConfig { kg_pair, effect },
        verbose,
        limits: TransformLimits::default(),
    })
}

}
