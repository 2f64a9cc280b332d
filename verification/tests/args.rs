use serde_columnar::args::{
    check_args_validate, compress_args, get_strategy_column, ArgsErrorKind, ColumnKind,
    CompressArgs, CompressOverride, CompressSetting, FieldArgs,
};
use serde_columnar::{AsType, Strategy};

fn field(optional: bool, index: Option<usize>) -> FieldArgs {
    FieldArgs {
        ident: Some("f".to_string()),
        index,
        optional,
        strategy: None,
        class: None,
        skip: false,
    }
}

#[test]
fn validate_accepts_optional_fields_last() {
    let args = vec![field(false, None), field(false, Some(7)), field(true, Some(0)), field(true, Some(1))];
    assert!(check_args_validate(&args).is_ok());
    assert!(check_args_validate(&[]).is_ok());
}

#[test]
fn validate_required_after_optional() {
    let args = vec![field(true, Some(0)), field(false, None)];
    let e = check_args_validate(&args).unwrap_err();
    assert_eq!(e.field, 1);
    assert_eq!(e.kind, ArgsErrorKind::RequiredAfterOptional);
    assert_eq!(e.message(), "optional field must be placed after non-optional field");
}

#[test]
fn validate_missing_index() {
    let args = vec![field(false, None), field(true, None)];
    let e = check_args_validate(&args).unwrap_err();
    assert_eq!(e.field, 1);
    assert_eq!(e.kind, ArgsErrorKind::MissingIndex);
}

#[test]
fn validate_duplicate_index() {
    let args = vec![field(false, Some(2)), field(true, Some(2)), field(true, Some(3)), field(true, Some(2))];
    let e = check_args_validate(&args).unwrap_err();
    assert_eq!(e.field, 3);
    assert_eq!(e.kind, ArgsErrorKind::DuplicateIndex);
}

#[test]
fn validate_strategy_and_class() {
    let mut f = field(false, None);
    f.strategy = Some("Rle".to_string());
    f.class = Some("vec".to_string());
    let e = check_args_validate(&[field(false, None), f]).unwrap_err();
    assert_eq!(e.field, 1);
    assert_eq!(e.kind, ArgsErrorKind::StrategyAndClass);
}

#[test]
fn validate_first_rule_broken_wins() {
    // the second field both follows an optional one and has no index
    let args = vec![field(true, Some(0)), field(false, None), field(true, None)];
    let e = check_args_validate(&args).unwrap_err();
    assert_eq!(e.field, 1);
    assert_eq!(e.kind, ArgsErrorKind::RequiredAfterOptional);
}

#[test]
fn strategy_from_str() {
    assert_eq!(Strategy::from_str(Some("Rle".to_string())), Strategy::Rle);
    assert_eq!(Strategy::from_str(Some("DeltaRle".to_string())), Strategy::DeltaRle);
    assert_eq!(Strategy::from_str(Some("BoolRle".to_string())), Strategy::BoolRle);
    assert_eq!(Strategy::from_str(Some("DeltaOfDelta".to_string())), Strategy::DeltaOfDelta);
    assert_eq!(Strategy::from_str(None), Strategy::Plain);
}

#[test]
fn field_class_and_strategy() {
    let mut f = field(false, None);
    assert_eq!(f.class(), None);
    f.class = Some("vec".to_string());
    assert_eq!(f.class(), Some(AsType::Vec));
    f.class = Some("map".to_string());
    assert_eq!(f.class(), Some(AsType::Mapping));
    f.class = Some("set".to_string());
    assert_eq!(f.class(), Some(AsType::Other));
    f.strategy = Some("DeltaRle".to_string());
    assert_eq!(f.strategy(), Strategy::DeltaRle);
}

#[test]
fn strategy_columns() {
    assert_eq!(get_strategy_column(Strategy::Rle, None), ColumnKind::Rle);
    assert_eq!(get_strategy_column(Strategy::BoolRle, Some(AsType::Vec)), ColumnKind::BoolRle);
    assert_eq!(get_strategy_column(Strategy::DeltaRle, None), ColumnKind::DeltaRle);
    assert_eq!(get_strategy_column(Strategy::DeltaOfDelta, None), ColumnKind::DeltaOfDelta);
    assert_eq!(get_strategy_column(Strategy::Plain, Some(AsType::Mapping)), ColumnKind::GenericMap);
    assert_eq!(get_strategy_column(Strategy::Plain, Some(AsType::Vec)), ColumnKind::GenericVec);
    assert_eq!(get_strategy_column(Strategy::Plain, None), ColumnKind::Generic);
}

#[test]
fn compress_settings() {
    assert!(matches!(compress_args(&None), Ok(None)));
    assert!(matches!(
        compress_args(&Some(CompressOverride::Inherit)),
        Ok(Some(CompressSetting::Default))
    ));
    let level = CompressOverride::Explicit(CompressArgs { min_size: None, level: Some(9), method: None });
    assert!(matches!(
        compress_args(&Some(level)),
        Ok(Some(CompressSetting::Level { threshold: 256, level: 9 }))
    ));
    let method = CompressOverride::Explicit(CompressArgs {
        min_size: Some(10),
        level: None,
        method: Some("fast".to_string()),
    });
    match compress_args(&Some(method)) {
        Ok(Some(CompressSetting::Method { threshold, method })) => {
            assert_eq!(threshold, 10);
            assert_eq!(method, "fast");
        }
        _ => panic!("expected a method"),
    }
    let both = CompressOverride::Explicit(CompressArgs {
        min_size: None,
        level: Some(1),
        method: Some("best".to_string()),
    });
    assert_eq!(
        compress_args(&Some(both)).unwrap_err(),
        "level and method can not be used at the same time"
    );
}

#[test]
fn compress_min_size_alone_takes_default_level() {
    let only_size = CompressOverride::Explicit(CompressArgs { min_size: Some(1024), level: None, method: None });
    assert!(matches!(
        compress_args(&Some(only_size)),
        Ok(Some(CompressSetting::Level { threshold: 1024, level: 6 }))
    ));
    let nothing = CompressOverride::Explicit(CompressArgs { min_size: None, level: None, method: None });
    assert!(matches!(
        compress_args(&Some(nothing)),
        Ok(Some(CompressSetting::Level { threshold: 256, level: 6 }))
    ));
}
