//! Registered types as plain data: what the builder of values reads of a type.

use vstd::prelude::*;

use crate::text::same_text;

verus! {

/// The identity of a registered type: its index in a [`TypeTable`].
#[derive(Clone, Copy, PartialEq, Eq, Structural, Debug)]
pub struct TypeKey(pub u32);

/// The integer types.
#[derive(Clone, Copy, PartialEq, Eq, Structural, Debug)]
pub enum IntType {
    I8,
    I16,
    I32,
    I64,
    I128,
    Isize,
    U8,
    U16,
    U32,
    U64,
    U128,
    Usize,
}

/// The floating-point types.
#[derive(Clone, Copy, PartialEq, Eq, Structural, Debug)]
pub enum FloatType {
    F32,
    F64,
}

/// Which of the types that literals are written for a type is.
#[derive(Clone, Copy, PartialEq, Eq, Structural, Debug)]
pub enum Builtin {
    /// `()`
    Unit,
    /// `bool`
    Bool,
    /// An integer type.
    Int(IntType),
    /// A floating-point type.
    Float(FloatType),
    /// `String`
    Text,
    /// `Cow<'static, str>`
    SharedText,
    /// An asset path.
    AssetPath,
    /// The template of an entity.
    EntityTemplate,
    /// None of these.
    Other,
}

/// A field of a struct, or a position of a tuple.
#[derive(Debug)]
pub struct Field {
    /// The name, empty for a position.
    pub name: String,
    /// The type of the field, which need not be registered.
    pub ty: TypeKey,
    /// The path of the type.
    pub type_path: String,
}

/// The kinds of variant.
#[derive(Clone, Copy, PartialEq, Eq, Structural, Debug)]
pub enum VariantKind {
    Unit,
    Struct,
    Tuple,
}

/// A variant of an enum.
#[derive(Debug)]
pub struct Variant {
    pub name: String,
    pub kind: VariantKind,
    /// The fields that are not ignored.
    pub fields: Vec<Field>,
}

/// How the values of a type are made up.
#[derive(Debug)]
pub enum Shape {
    Struct(Vec<Field>),
    TupleStruct(Vec<Field>),
    Tuple(Vec<Field>),
    /// A list, with the type of its items.
    List(Field),
    Enum(Vec<Variant>),
    /// Anything else.
    Opaque,
}

/// A registered type.
#[derive(Debug)]
pub struct TypeEntry {
    /// The path of the type.
    pub path: String,
    pub builtin: Builtin,
    pub shape: Shape,
    /// Whether a default value can be made.
    pub has_default: bool,
    /// Whether conversions from other types are registered.
    pub converts: bool,
    /// For a template, the type of what it builds, where that is another type.
    pub template_output: Option<TypeKey>,
    /// For an asset handle, the number of the type of the assets.
    pub handle_asset: Option<u64>,
}

/// The registered types.
#[derive(Debug)]
pub struct TypeTable {
    pub entries: Vec<TypeEntry>,
}

pub open spec fn in_range(low: int, v: int, high: int) -> bool {
    low <= v <= high
}

impl IntType {
    /// Whether `v` is a value of the type.
    pub open spec fn holds(self, v: int) -> bool {
        match self {
            IntType::I8 => in_range(i8::MIN as int, v, i8::MAX as int),
            IntType::I16 => in_range(i16::MIN as int, v, i16::MAX as int),
            IntType::I32 => in_range(i32::MIN as int, v, i32::MAX as int),
            IntType::I64 => in_range(i64::MIN as int, v, i64::MAX as int),
            IntType::I128 => in_range(i128::MIN as int, v, i128::MAX as int),
            IntType::Isize => in_range(isize::MIN as int, v, isize::MAX as int),
            IntType::U8 => in_range(0, v, u8::MAX as int),
            IntType::U16 => in_range(0, v, u16::MAX as int),
            IntType::U32 => in_range(0, v, u32::MAX as int),
            IntType::U64 => in_range(0, v, u64::MAX as int),
            IntType::U128 => in_range(0, v, u128::MAX as int),
            IntType::Usize => in_range(0, v, usize::MAX as int),
        }
    }

    /// Whether `v` is a value of the type.
    pub fn contains(self, v: i128) -> (r: bool)
        ensures
            r == self.holds(v as int),
    {
        match self {
            IntType::I8 => i8::MIN as i128 <= v && v <= i8::MAX as i128,
            IntType::I16 => i16::MIN as i128 <= v && v <= i16::MAX as i128,
            IntType::I32 => i32::MIN as i128 <= v && v <= i32::MAX as i128,
            IntType::I64 => i64::MIN as i128 <= v && v <= i64::MAX as i128,
            IntType::I128 => true,
            IntType::Isize => isize::MIN as i128 <= v && v <= isize::MAX as i128,
            IntType::U8 => 0 <= v && v <= u8::MAX as i128,
            IntType::U16 => 0 <= v && v <= u16::MAX as i128,
            IntType::U32 => 0 <= v && v <= u32::MAX as i128,
            IntType::U64 => 0 <= v && v <= u64::MAX as i128,
            IntType::U128 => 0 <= v,
            IntType::Usize => 0 <= v && v <= usize::MAX as i128,
        }
    }
}

/// The largest magnitude up to which every integer is a value of the type.
pub open spec fn exact_limit(ty: FloatType) -> int {
    match ty {
        FloatType::F32 => 0x100_0000,
        FloatType::F64 => 0x20_0000_0000_0000,
    }
}

/// Whether every integer up to the magnitude of `v` is a value of the type.
pub fn is_exact(ty: FloatType, v: i128) -> (r: bool)
    ensures
        r == (-exact_limit(ty) <= v <= exact_limit(ty)),
{
    match ty {
        FloatType::F32 => -0x100_0000i128 <= v && v <= 0x100_0000i128,
        FloatType::F64 => -0x20_0000_0000_0000i128 <= v && v <= 0x20_0000_0000_0000i128,
    }
}

/// The index of the first of `fields` with the given name.
#[verifier::opaque]
pub open spec fn field_index(fields: Seq<Field>, name: Seq<char>) -> Option<int> {
    if exists|i: int| 0 <= i < fields.len() && (#[trigger] fields[i]).name@ == name {
        Some(
            choose|i: int|
                0 <= i < fields.len() && (#[trigger] fields[i]).name@ == name && (forall|j: int|
                    0 <= j < i ==> (#[trigger] fields[j]).name@ != name),
        )
    } else {
        None
    }
}

/// The index of the first of `variants` with the given name.
#[verifier::opaque]
pub open spec fn variant_index(variants: Seq<Variant>, name: Seq<char>) -> Option<int> {
    if exists|i: int| 0 <= i < variants.len() && (#[trigger] variants[i]).name@ == name {
        Some(
            choose|i: int|
                0 <= i < variants.len() && (#[trigger] variants[i]).name@ == name && (forall|j: int|
                    0 <= j < i ==> (#[trigger] variants[j]).name@ != name),
        )
    } else {
        None
    }
}

/// Finds a field by its name.
pub fn find_field<'f>(fields: &'f Vec<Field>, name: &str) -> (r: Option<&'f Field>)
    ensures
        match field_index(fields@, name@) {
            Some(i) => 0 <= i < fields@.len() && r == Some(&fields@[i]) && fields@[i].name@
                == name@,
            None => r is None,
        },
{
    proof {
        reveal(field_index);
    }
    let mut i: usize = 0;
    while i < fields.len()
        invariant
            i <= fields.len(),
            forall|j: int| 0 <= j < i ==> (#[trigger] fields@[j]).name@ != name@,
        decreases fields.len() - i,
    {
        if same_text(fields[i].name.as_str(), name) {
            proof {
                reveal(field_index);
                assert(fields@[i as int].name@ == name@);
                let k = field_index(fields@, name@)->0;
                assert(k == i);
            }
            return Some(&fields[i]);
        }
        i = i + 1;
    }
    None
}

/// Finds a variant by its name.
pub fn find_variant<'v>(variants: &'v Vec<Variant>, name: &str) -> (r: Option<&'v Variant>)
    ensures
        match variant_index(variants@, name@) {
            Some(i) => 0 <= i < variants@.len() && r == Some(&variants@[i]) && variants@[i].name@
                == name@,
            None => r is None,
        },
{
    proof {
        reveal(variant_index);
    }
    let mut i: usize = 0;
    while i < variants.len()
        invariant
            i <= variants.len(),
            forall|j: int| 0 <= j < i ==> (#[trigger] variants@[j]).name@ != name@,
        decreases variants.len() - i,
    {
        if same_text(variants[i].name.as_str(), name) {
            proof {
                reveal(variant_index);
                assert(variants@[i as int].name@ == name@);
                let k = variant_index(variants@, name@)->0;
                assert(k == i);
            }
            return Some(&variants[i]);
        }
        i = i + 1;
    }
    None
}

/// Whether the type is registered.
pub open spec fn is_registered(types: Seq<TypeEntry>, key: TypeKey) -> bool {
    key.0 < types.len()
}

/// The entry of a registered type.
pub open spec fn entry_of(types: Seq<TypeEntry>, key: TypeKey) -> TypeEntry {
    types[key.0 as int]
}

impl TypeTable {
    /// The entry of a type, if it is registered.
    pub fn get(&self, key: TypeKey) -> (r: Option<&TypeEntry>)
        ensures
            r == (if is_registered(self.entries@, key) {
                Some(&entry_of(self.entries@, key))
            } else {
                None
            }),
    {
        if (key.0 as usize) < self.entries.len() {
            Some(&self.entries[key.0 as usize])
        } else {
            None
        }
    }
}

/// For a template that builds asset handles, the number of the type of the assets.
pub open spec fn built_asset(types: Seq<TypeEntry>, key: TypeKey) -> Option<u64> {
    match entry_of(types, key).template_output {
        Some(output) => if is_registered(types, output) {
            entry_of(types, output).handle_asset
        } else {
            None
        },
        None => None,
    }
}

/// See [`built_asset`].
pub fn handle_asset_type(types: &TypeTable, key: TypeKey) -> (r: Option<u64>)
    requires
        is_registered(types.entries@, key),
    ensures
        r == built_asset(types.entries@, key),
{
    match types.entries[key.0 as usize].template_output {
        Some(output) => match types.get(output) {
            Some(entry) => entry.handle_asset,
            None => None,
        },
        None => None,
    }
}

/// If the type is an `Option`-shaped enum — exactly a unit `None` and a one-field tuple `Some` —
/// the type of the payload of `Some`, provided that it is registered.
///
/// The test is structural, so that it also covers the templates of options.
#[verifier::opaque]
pub open spec fn payload_of(types: Seq<TypeEntry>, key: TypeKey) -> Option<TypeKey> {
    match entry_of(types, key).shape {
        Shape::Enum(variants) => match (
            variant_index(variants@, "None"@),
            variant_index(variants@, "Some"@),
        ) {
            (Some(none), Some(some)) => {
                let payload = variants@[some];
                if variants@.len() == 2 && variants@[none].kind == VariantKind::Unit && payload.kind
                    == VariantKind::Tuple && payload.fields@.len() == 1 && is_registered(
                    types,
                    payload.fields@[0].ty,
                ) {
                    Some(payload.fields@[0].ty)
                } else {
                    None
                }
            },
            _ => None,
        },
        _ => None,
    }
}

/// See [`payload_of`].
pub fn optionish_payload(types: &TypeTable, expected: TypeKey) -> (r: Option<TypeKey>)
    requires
        is_registered(types.entries@, expected),
    ensures
        r == payload_of(types.entries@, expected),
        r matches Some(payload) ==> is_registered(types.entries@, payload),
{
    proof {
        reveal(payload_of);
    }
    let variants = match &types.entries[expected.0 as usize].shape {
        Shape::Enum(variants) => variants,
        _ => {
            return None;
        },
    };
    if variants.len() != 2 {
        return None;
    }
    match find_variant(variants, "None") {
        Some(none) => {
            if none.kind != VariantKind::Unit {
                return None;
            }
        },
        None => {
            return None;
        },
    }
    match find_variant(variants, "Some") {
        Some(some) => {
            if some.kind != VariantKind::Tuple || some.fields.len() != 1 {
                return None;
            }
            let ty = some.fields[0].ty;
            if types.get(ty).is_none() {
                return None;
            }
            Some(ty)
        },
        None => None,
    }
}

} // verus!
