use napparent_tabular::activation::{
    config_from_args, depth_from_args, parse_effect_activation, parse_kg_activation, unknown_effect_message,
    unknown_kg_message,
};
use napparent_tabular::{ActivationConfig, BinDepth, EffectActivation, KgPairActivation, TransformConfig, TransformLimits};

#[test]
fn config_defaults() {
    let c = TransformConfig::new(BinDepth::new(4));
    assert_eq!(c.bin_depth.main, 4);
    assert_eq!(c.activation, ActivationConfig::default());
    assert!(!c.verbose);
    assert_eq!(c.limits, TransformLimits::default());
    assert_eq!(c.limits.max_rows, None);
}

#[test]
fn config_builders() {
    let lim = TransformLimits { max_rows: Some(10), ..TransformLimits::default() };
    let c = TransformConfig::new(BinDepth::new(2)).with_verbose(true).with_limits(lim).with_activation(ActivationConfig::default());
    assert!(c.verbose);
    assert_eq!(c.limits.max_rows, Some(10));
    assert_eq!(c.activation.kg_pair, KgPairActivation::LogFrequencyWeightedMean);
    assert_eq!(c.activation.effect, EffectActivation::GlobalMeanContrast);
}

#[test]
fn parse_names() {
    assert_eq!(parse_kg_activation("log_frequency_weighted_mean"), Ok(KgPairActivation::LogFrequencyWeightedMean));
    assert_eq!(
        parse_kg_activation("mean").err().unwrap(),
        "unknown kg_activation \"mean\"; supported: \"log_frequency_weighted_mean\""
    );
    assert_eq!(parse_effect_activation("global_mean_contrast"), Ok(EffectActivation::GlobalMeanContrast));
    assert_eq!(
        parse_effect_activation("x").err().unwrap(),
        "unknown effect_activation \"x\"; supported: \"global_mean_contrast\""
    );
}

#[test]
fn depth_overrides_later_win() {
    let d = depth_from_args(3, Some(vec![(1, 5), (1, 6), (2, 9)]));
    assert_eq!(d.main, 3);
    assert_eq!(d.depth_for(1), 6);
    assert_eq!(d.depth_for(2), 9);
    assert_eq!(d.depth_for(0), 3);
    let e = depth_from_args(3, None);
    assert!(e.per_column.is_empty());
}

#[test]
fn config_from_names() {
    let c = config_from_args(5, None, "log_frequency_weighted_mean", "global_mean_contrast", true).unwrap();
    assert_eq!(c.bin_depth.main, 5);
    assert!(c.verbose);
    assert!(config_from_args(5, None, "bad", "global_mean_contrast", true).is_err());
    assert!(config_from_args(5, None, "log_frequency_weighted_mean", "bad", true).is_err());
}

#[test]
fn limits_fail_fast() {
    let none = TransformLimits::default();
    assert!(none.check_size(usize::MAX, 1000, 1_000_000).is_ok());
    assert!(none.check_keys(1 << 40).is_ok());
    let lim = TransformLimits {
        max_rows: Some(10),
        max_active_columns: Some(3),
        max_col_pairs: Some(2),
        max_vals_map_keys: Some(5),
    };
    assert!(lim.check_size(10, 3, 2).is_ok());
    assert_eq!(lim.check_size(11, 4, 9).err().unwrap(), "rows 11 exceed the limit of 10");
    assert_eq!(lim.check_size(10, 4, 9).err().unwrap(), "active columns 4 exceed the limit of 3");
    assert_eq!(lim.check_size(10, 3, 3).err().unwrap(), "column pairs 3 exceed the limit of 2");
    assert!(lim.check_keys(5).is_ok());
    assert_eq!(lim.check_keys(6).err().unwrap(), "pair keys 6 exceed the limit of 5");
}

#[test]
fn unknown_name_messages() {
    assert_eq!(unknown_kg_message("\"a\""), "unknown kg_activation \"a\"; supported: \"log_frequency_weighted_mean\"");
    assert_eq!(unknown_effect_message("\"b\""), "unknown effect_activation \"b\"; supported: \"global_mean_contrast\"");
    // a name with a quote is escaped as `{:?}` does
    assert_eq!(
        parse_kg_activation("a\"b").err().unwrap(),
        "unknown kg_activation \"a\\\"b\"; supported: \"log_frequency_weighted_mean\""
    );
}
