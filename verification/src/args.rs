//! The arguments of the `columnar` attribute: which containers a struct
//! derives, and the options of each field, with the rules they must obey.
use vstd::prelude::*;
use std::collections::HashSet;

verus! {

broadcast use vstd::std_specs::hash::group_hash_axioms;

/// What the `columnar` attribute of a struct asks for.
#[derive(Debug, Clone, Copy, PartialEq, Eq, Structural)]
pub struct DeriveArgs {
    pub vec: bool,
    pub hashmap: bool,
    pub ser: bool,
    pub de: bool,
    pub iterable: bool,
}

/// The options of `compress`.
#[derive(Debug, Clone)]
pub struct CompressArgs {
    pub min_size: Option<usize>,
    pub level: Option<u32>,
    pub method: Option<String>,
}

/// How a field's values become a column.
#[derive(Debug, Clone, Copy, PartialEq, Eq, Structural)]
pub enum Strategy {
    Rle,
    DeltaRle,
    BoolRle,
    DeltaOfDelta,
    /// No strategy: the values are stored as they are.
    Plain,
}

/// The container kind that a field is declared as.
#[derive(Debug, Clone, Copy, PartialEq, Eq, Structural)]
pub enum AsType {
    Vec,
    /// A map-like container.
    Mapping,
    Other,
}

/// The shape of a struct's fields.
#[derive(Debug, Clone, Copy, PartialEq, Eq, Structural)]
pub enum Style {
    /// Named fields.
    Struct,
    /// Many unnamed fields.
    Tuple,
    /// One unnamed field.
    Newtype,
    /// No fields.
    Unit,
}

/// `s` is `lit`.
fn str_is(s: &String, lit: &str) -> (r: bool)
    ensures
        r == (s@ == lit@),
{
    let t = lit.to_owned();
    *s == t
}

/// The strategy that a field names: `Rle`, `DeltaRle`, `BoolRle` or
/// `DeltaOfDelta`, or none at all.
pub open spec fn spec_strategy(s: Option<Seq<char>>) -> Option<Strategy> {
    match s {
        None => Some(Strategy::Plain),
        Some(t) => if t == "Rle"@ {
            Some(Strategy::Rle)
        } else if t == "DeltaRle"@ {
            Some(Strategy::DeltaRle)
        } else if t == "BoolRle"@ {
            Some(Strategy::BoolRle)
        } else if t == "DeltaOfDelta"@ {
            Some(Strategy::DeltaOfDelta)
        } else {
            None
        },
    }
}

/// The view of an optional string.
pub open spec fn opt_view(s: Option<String>) -> Option<Seq<char>> {
    match s {
        Some(t) => Some(t@),
        None => None,
    }
}

impl Strategy {
    /// The strategy that a field names; the name must be one of the four.
    pub fn from_str(s: Option<String>) -> (r: Self)
        requires
            spec_strategy(opt_view(s)) is Some,
        ensures
            spec_strategy(opt_view(s)) == Some(r),
    {
        match s {
            Some(s) => {
                if str_is(&s, "Rle") {
                    Strategy::Rle
                } else if str_is(&s, "DeltaRle") {
                    Strategy::DeltaRle
                } else if str_is(&s, "BoolRle") {
                    Strategy::BoolRle
                } else {
                    Strategy::DeltaOfDelta
                }
            },
            None => Strategy::Plain,
        }
    }
}

/// The container kind that a `class` names: `vec`, `map`, or anything
/// else.
pub open spec fn spec_class(s: Option<Seq<char>>) -> Option<AsType> {
    match s {
        None => None,
        Some(t) => if t == "vec"@ {
            Some(AsType::Vec)
        } else if t == "map"@ {
            Some(AsType::Mapping)
        } else {
            Some(AsType::Other)
        },
    }
}

/// The column type that a field's values go into.
#[derive(Debug, Clone, Copy, PartialEq, Eq, Structural)]
pub enum ColumnKind {
    Rle,
    BoolRle,
    DeltaRle,
    DeltaOfDelta,
    /// Uncompressed, each value a map-like container of rows.
    GenericMap,
    /// Uncompressed, each value a vec-like container of rows.
    GenericVec,
    /// Uncompressed values.
    Generic,
}

/// The column type for a field's strategy and class; a class other than
/// `vec` or `map` cannot stand without a strategy.
pub fn get_strategy_column(strategy: Strategy, class: Option<AsType>) -> (r: ColumnKind)
    requires
        strategy == Strategy::Plain ==> class != Some(AsType::Other),
    ensures
        r == match strategy {
            Strategy::Rle => ColumnKind::Rle,
            Strategy::BoolRle => ColumnKind::BoolRle,
            Strategy::DeltaRle => ColumnKind::DeltaRle,
            Strategy::DeltaOfDelta => ColumnKind::DeltaOfDelta,
            Strategy::Plain => match class {
                Some(AsType::Mapping) => ColumnKind::GenericMap,
                Some(_) => ColumnKind::GenericVec,
                None => ColumnKind::Generic,
            },
        },
{
    match strategy {
        Strategy::Rle => ColumnKind::Rle,
        Strategy::BoolRle => ColumnKind::BoolRle,
        Strategy::DeltaRle => ColumnKind::DeltaRle,
        Strategy::DeltaOfDelta => ColumnKind::DeltaOfDelta,
        Strategy::Plain => match class {
            Some(AsType::Mapping) => ColumnKind::GenericMap,
            Some(AsType::Vec) => ColumnKind::GenericVec,
            Some(AsType::Other) => ColumnKind::GenericVec,
            None => ColumnKind::Generic,
        },
    }
}

/// The `compress` option of a field: given alone, or with its options.
#[derive(Debug, Clone)]
pub enum CompressOverride {
    Inherit,
    Explicit(CompressArgs),
}

/// How a field's column is compressed.
#[derive(Debug, Clone)]
pub enum CompressSetting {
    /// The default threshold and level.
    Default,
    /// Columns above `threshold` bytes are compressed at `level`.
    Level { threshold: usize, level: u32 },
    /// Columns above `threshold` bytes are compressed by the named method.
    Method { threshold: usize, method: String },
}

/// The threshold that a `compress` option without `min_size` takes.
pub const DEFAULT_COMPRESS_THRESHOLD: usize = 256;

/// The Deflate level that a `compress` option with neither `level` nor
/// `method` takes.
pub const DEFAULT_COMPRESS_LEVEL: u32 = 6;

/// The compression that a field asks for: none, the default, a level (the
/// default level where neither a level nor a method is given), or a method;
/// `None` where both a level and a method are given.
pub open spec fn spec_compress_args(compress: Option<CompressOverride>) -> Option<Option<CompressSetting>> {
    match compress {
        None => Some(None),
        Some(CompressOverride::Inherit) => Some(Some(CompressSetting::Default)),
        Some(CompressOverride::Explicit(c)) => if c.level is Some && c.method is Some {
            None
        } else {
            let threshold = match c.min_size {
                Some(m) => m,
                None => DEFAULT_COMPRESS_THRESHOLD,
            };
            match (c.level, c.method) {
                (Some(level), _) => Some(Some(CompressSetting::Level { threshold, level })),
                (None, Some(method)) => Some(Some(CompressSetting::Method { threshold, method })),
                (None, None) => Some(Some(CompressSetting::Level { threshold, level: DEFAULT_COMPRESS_LEVEL })),
            }
        },
    }
}

/// The compression that a field asks for; an error where both a level and
/// a method are given.
pub fn compress_args(compress: &Option<CompressOverride>) -> (r: Result<Option<CompressSetting>, String>)
    ensures
        match spec_compress_args(*compress) {
            None => r matches Err(m) && m@ == "level and method can not be used at the same time"@,
            Some(x) => r == Ok::<Option<CompressSetting>, String>(x),
        },
{
    match compress {
        None => Ok(None),
        Some(CompressOverride::Inherit) => Ok(Some(CompressSetting::Default)),
        Some(CompressOverride::Explicit(c)) => {
            if c.level.is_some() && c.method.is_some() {
                return Err("level and method can not be used at the same time".to_owned());
            }
            let threshold = match c.min_size {
                Some(m) => m,
                None => DEFAULT_COMPRESS_THRESHOLD,
            };
            match c.level {
                Some(level) => Ok(Some(CompressSetting::Level { threshold, level })),
                None => match &c.method {
                    Some(method) => Ok(Some(CompressSetting::Method { threshold, method: method.clone() })),
                    None => Ok(Some(CompressSetting::Level { threshold, level: DEFAULT_COMPRESS_LEVEL })),
                },
            }
        },
    }
}

/// An explicit `compress` option with at most one of a level and a method
/// compresses above the `min_size` it gives, or above 256 bytes where it
/// gives none; a given level or method is kept as it is, and with neither
/// the level is 6.
pub proof fn lemma_compress_settings(c: CompressArgs)
    requires
        !(c.level is Some && c.method is Some),
    ensures
        spec_compress_args(Some(CompressOverride::Explicit(c))) matches Some(Some(setting)) && match setting {
            CompressSetting::Default => false,
            CompressSetting::Level { threshold, level } => {
                &&& c.method is None
                &&& (c.min_size matches Some(m) ==> threshold == m)
                &&& (c.min_size is None ==> threshold == 256)
                &&& (c.level matches Some(l) ==> level == l)
                &&& (c.level is None ==> level == 6)
            },
            CompressSetting::Method { threshold, method } => {
                &&& c.level is None
                &&& c.method == Some(method)
                &&& (c.min_size matches Some(m) ==> threshold == m)
                &&& (c.min_size is None ==> threshold == 256)
            },
        },
{
}

/// Without a `compress` option a field is not compressed; `compress` alone
/// asks for the default setting.
pub proof fn lemma_compress_absent_or_default()
    ensures
        spec_compress_args(None) == Some(None::<CompressSetting>),
        spec_compress_args(Some(CompressOverride::Inherit)) matches Some(Some(CompressSetting::Default)),
{
}

/// A `compress` option that gives both a level and a method is refused.
pub proof fn lemma_compress_level_and_method_refused(c: CompressArgs)
    requires
        c.level is Some && c.method is Some,
    ensures
        spec_compress_args(Some(CompressOverride::Explicit(c))) is None,
{
}

/// The options of one field that the rules below read.
#[derive(Debug, Clone)]
pub struct FieldArgs {
    /// The name of the field.
    pub ident: Option<String>,
    /// The index of an optional field, which the encoding carries.
    pub index: Option<usize>,
    /// The field may be missing in older or newer encodings.
    pub optional: bool,
    /// The strategy that turns the values into a column.
    pub strategy: Option<String>,
    /// The container kind of the field, `vec` or `map`.
    pub class: Option<String>,
    /// The field is neither serialized nor deserialized.
    pub skip: bool,
}

impl FieldArgs {
    /// The container kind that the field's class names.
    pub fn class(&self) -> (r: Option<AsType>)
        ensures
            r == spec_class(opt_view(self.class)),
    {
        match &self.class {
            Some(s) => {
                if str_is(s, "vec") {
                    Some(AsType::Vec)
                } else if str_is(s, "map") {
                    Some(AsType::Mapping)
                } else {
                    Some(AsType::Other)
                }
            },
            None => None,
        }
    }

    /// The strategy that the field names; the name must be one of the
    /// four.
    pub fn strategy(&self) -> (r: Strategy)
        requires
            spec_strategy(opt_view(self.strategy)) is Some,
        ensures
            spec_strategy(opt_view(self.strategy)) == Some(r),
    {
        match &self.strategy {
            Some(s) => Strategy::from_str(Some(s.clone())),
            None => Strategy::from_str(None),
        }
    }
}

/// Which rule a field breaks.
#[derive(Debug, Clone, Copy, PartialEq, Eq, Structural)]
pub enum ArgsErrorKind {
    /// A field that is not optional comes after an optional one.
    RequiredAfterOptional,
    /// An optional field has no index.
    MissingIndex,
    /// Two optional fields have the same index.
    DuplicateIndex,
    /// A field has both a strategy and a class.
    StrategyAndClass,
    /// A `borrow` option that borrows no lifetime.
    NoBorrowedLifetime,
    /// A `borrow` list that cannot be read, or names a lifetime twice.
    BadBorrowedLifetimes,
    /// A `borrow` list names a lifetime that the field's type does not have.
    LifetimeNotInField,
}

/// A rule that the field at position `field` breaks.
#[derive(Debug, Clone, Copy, PartialEq, Eq, Structural)]
pub struct ArgsError {
    pub field: usize,
    pub kind: ArgsErrorKind,
}

/// What an error of each kind says.
pub open spec fn args_error_message(kind: ArgsErrorKind) -> Seq<char> {
    match kind {
        ArgsErrorKind::RequiredAfterOptional => "optional field must be placed after non-optional field"@,
        ArgsErrorKind::MissingIndex => "optional field must have index"@,
        ArgsErrorKind::DuplicateIndex => "index cannot have duplicate values"@,
        ArgsErrorKind::StrategyAndClass => "strategy and class cannot be set at the same time"@,
        ArgsErrorKind::NoBorrowedLifetime => "at least one lifetime must be borrowed"@,
        ArgsErrorKind::BadBorrowedLifetimes => "failed to parse borrowed lifetimes"@,
        ArgsErrorKind::LifetimeNotInField => "field does not have the borrowed lifetime"@,
    }
}

impl ArgsError {
    /// What the error says.
    pub fn message(&self) -> (r: String)
        ensures
            r@ == args_error_message(self.kind),
    {
        match self.kind {
            ArgsErrorKind::RequiredAfterOptional => "optional field must be placed after non-optional field".to_owned(),
            ArgsErrorKind::MissingIndex => "optional field must have index".to_owned(),
            ArgsErrorKind::DuplicateIndex => "index cannot have duplicate values".to_owned(),
            ArgsErrorKind::StrategyAndClass => "strategy and class cannot be set at the same time".to_owned(),
            ArgsErrorKind::NoBorrowedLifetime => "at least one lifetime must be borrowed".to_owned(),
            ArgsErrorKind::BadBorrowedLifetimes => "failed to parse borrowed lifetimes".to_owned(),
            ArgsErrorKind::LifetimeNotInField => "field does not have the borrowed lifetime".to_owned(),
        }
    }
}

/// Some field of `prev` is optional.
pub open spec fn some_optional(prev: Seq<FieldArgs>) -> bool {
    exists|j: int| 0 <= j < prev.len() && #[trigger] prev[j].optional
}

/// The indexes of the optional fields of `prev`.
pub open spec fn optional_indexes(prev: Seq<FieldArgs>) -> Set<usize> {
    Set::new(|x: usize| exists|j: int| 0 <= j < prev.len() && #[trigger] prev[j].optional && prev[j].index == Some(x))
}

/// The first rule that field `a` breaks, after the fields `prev`.
pub open spec fn field_check(prev: Seq<FieldArgs>, a: FieldArgs) -> Option<ArgsErrorKind> {
    if some_optional(prev) && !a.optional {
        Some(ArgsErrorKind::RequiredAfterOptional)
    } else if a.optional && a.index is None {
        Some(ArgsErrorKind::MissingIndex)
    } else if a.optional && optional_indexes(prev).contains(a.index->0) {
        Some(ArgsErrorKind::DuplicateIndex)
    } else if a.strategy is Some && a.class is Some {
        Some(ArgsErrorKind::StrategyAndClass)
    } else {
        None
    }
}

/// The first field that breaks a rule, with the rule; `None` where all of
/// them obey.
pub open spec fn spec_validate(args: Seq<FieldArgs>) -> Option<(int, ArgsErrorKind)>
    decreases args.len(),
{
    if args.len() == 0 {
        None
    } else {
        let prev = args.drop_last();
        match spec_validate(prev) {
            Some(e) => Some(e),
            None => match field_check(prev, args.last()) {
                Some(k) => Some((prev.len() as int, k)),
                None => None,
            },
        }
    }
}

/// The rules of the fields: the optional fields come after all the others,
/// each optional field has an index, no two optional fields share one, and
/// no field has both a strategy and a class.
pub open spec fn args_valid(args: Seq<FieldArgs>) -> bool {
    &&& forall|i: int, j: int| 0 <= i < j < args.len() && #[trigger] args[i].optional ==> #[trigger] args[j].optional
    &&& forall|i: int| 0 <= i < args.len() && #[trigger] args[i].optional ==> args[i].index is Some
    &&& forall|i: int, j: int|
        0 <= i < j < args.len() && #[trigger] args[i].optional && #[trigger] args[j].optional ==> args[i].index != args[j].index
    &&& forall|i: int| 0 <= i < args.len() ==> !(#[trigger] args[i].strategy is Some && args[i].class is Some)
}

/// The check accepts exactly the fields that obey the rules.
pub proof fn lemma_validate_iff(args: Seq<FieldArgs>)
    ensures
        spec_validate(args) is None <==> args_valid(args),
    decreases args.len(),
{
    if args.len() > 0 {
        let prev = args.drop_last();
        let a = args.last();
        let n = prev.len() as int;
        lemma_validate_iff(prev);
        assert forall|i: int| 0 <= i < n implies #[trigger] args[i] == prev[i] by {}
        assert(args[n] == a);
        if args_valid(args) {
            assert(args_valid(prev)) by {
                assert forall|i: int, j: int| 0 <= i < j < prev.len() && #[trigger] prev[i].optional implies #[trigger] prev[j].optional by {
                    assert(args[i] == prev[i] && args[j] == prev[j]);
                }
                assert forall|i: int, j: int|
                    0 <= i < j < prev.len() && #[trigger] prev[i].optional && #[trigger] prev[j].optional implies prev[i].index != prev[j].index by {
                    assert(args[i] == prev[i] && args[j] == prev[j]);
                }
            }
            if some_optional(prev) {
                let j = choose|j: int| 0 <= j < prev.len() && #[trigger] prev[j].optional;
                assert(args[j].optional);
            }
            if a.optional && optional_indexes(prev).contains(a.index->0) {
                let x = a.index->0;
                let j = choose|j: int| 0 <= j < prev.len() && #[trigger] prev[j].optional && prev[j].index == Some(x);
                assert(args[j].optional && args[n].optional);
            }
            assert(field_check(prev, a) is None);
        }
        if spec_validate(args) is None {
            assert(field_check(prev, a) is None);
            assert forall|i: int, j: int| 0 <= i < j < args.len() && #[trigger] args[i].optional implies #[trigger] args[j].optional by {
                if j == n {
                    assert(prev[i].optional);
                }
            }
            assert forall|i: int, j: int|
                0 <= i < j < args.len() && #[trigger] args[i].optional && #[trigger] args[j].optional implies args[i].index != args[j].index by {
                if j == n {
                    assert(prev[i].optional);
                    if args[i].index == args[j].index {
                        assert(optional_indexes(prev).contains(a.index->0));
                    }
                }
            }
        }
    }
}

/// Once a field breaks a rule, the fields after it do not change the
/// outcome.
proof fn lemma_validate_stops(args: Seq<FieldArgs>, j: int)
    requires
        0 <= j <= args.len(),
        spec_validate(args.take(j)) is Some,
    ensures
        spec_validate(args) == spec_validate(args.take(j)),
    decreases args.len(),
{
    if j == args.len() {
        assert(args.take(j) =~= args);
    } else {
        assert(args.drop_last().take(j) =~= args.take(j));
        lemma_validate_stops(args.drop_last(), j);
    }
}

/// Checks the rules of the fields, in order: the optional fields come
/// last, each has an index and no two share one, and no field has both a
/// strategy and a class.
pub fn check_args_validate(field_args: &[FieldArgs]) -> (r: Result<(), ArgsError>)
    ensures
        match spec_validate(field_args@) {
            None => r is Ok,
            Some((i, k)) => r == Err::<(), ArgsError>(ArgsError { field: i as usize, kind: k }),
        },
{
    let mut start_optional = false;
    let mut indexes: HashSet<usize> = HashSet::new();
    let n = field_args.len();
    let mut i: usize = 0;
    while i < n
        invariant
            n == field_args@.len(),
            i <= n,
            spec_validate(field_args@.take(i as int)) is None,
            start_optional == some_optional(field_args@.take(i as int)),
            indexes@ == optional_indexes(field_args@.take(i as int)),
        decreases n - i,
    {
        let args = &field_args[i];
        let ghost prev = field_args@.take(i as int);
        let ghost next = field_args@.take(i + 1);
        proof {
            assert(next.drop_last() =~= prev);
            assert(next.last() == *args);
        }
        let optional = args.optional;
        if start_optional && !optional {
            proof {
                lemma_validate_stops(field_args@, i + 1);
            }
            return Err(ArgsError { field: i, kind: ArgsErrorKind::RequiredAfterOptional });
        }
        if optional {
            start_optional = true;
            match args.index {
                None => {
                    proof {
                        lemma_validate_stops(field_args@, i + 1);
                    }
                    return Err(ArgsError { field: i, kind: ArgsErrorKind::MissingIndex });
                },
                Some(index) => {
                    if indexes.contains(&index) {
                        proof {
                            lemma_validate_stops(field_args@, i + 1);
                        }
                        return Err(ArgsError { field: i, kind: ArgsErrorKind::DuplicateIndex });
                    }
                    indexes.insert(index);
                },
            }
        }
        if args.strategy.is_some() && args.class.is_some() {
            proof {
                lemma_validate_stops(field_args@, i + 1);
            }
            return Err(ArgsError { field: i, kind: ArgsErrorKind::StrategyAndClass });
        }
        proof {
            if optional {
                assert(next[i as int].optional);
            } else {
                assert forall|j: int| 0 <= j < next.len() implies !#[trigger] next[j].optional by {
                    if j < i {
                        assert(next[j] == prev[j]);
                    }
                }
            }
            assert(indexes@ =~= optional_indexes(next)) by {
                assert forall|x: usize| #[trigger] optional_indexes(next).contains(x) implies indexes@.contains(x) by {
                    let j = choose|j: int| 0 <= j < next.len() && #[trigger] next[j].optional && next[j].index == Some(x);
                    if j < i {
                        assert(next[j] == prev[j]);
                        assert(optional_indexes(prev).contains(x));
                    }
                }
                assert forall|x: usize| indexes@.contains(x) implies #[trigger] optional_indexes(next).contains(x) by {
                    if optional_indexes(prev).contains(x) {
                        let j = choose|j: int| 0 <= j < prev.len() && #[trigger] prev[j].optional && prev[j].index == Some(x);
                        assert(next[j] == prev[j]);
                    } else {
                        assert(next[i as int].optional && next[i as int].index == Some(x));
                    }
                }
            }
        }
        i = i + 1;
    }
    proof {
        assert(field_args@.take(n as int) =~= field_args@);
    }
    Ok(())
}

} // verus!
