//! The exact diagnostic messages emitted for constructs that exist in the `bsn!` macro but
//! cannot exist in a `.bsn` asset.
//!
//! Each message names the construct, says why it cannot work in an asset, and ends with a
//! remedy. Downstream tools can compare an `Unsupported` payload against these constants
//! instead of matching on message text.

use vstd::prelude::*;

verus! {

/// A Rust expression block, `{ … }`.
pub const EXPR: &'static str = "Rust expressions (`{ ... }`) are not supported in `.bsn` assets. Only literal values are allowed here; move the computation into a `bsn!` macro or a scene function.";

/// A closure, `|x| { … }`.
pub const CLOSURE: &'static str = "Closures are not supported in `.bsn` assets. Observers and template functions must be written in Rust.";

/// An observer entry, `on(…)`.
pub const OBSERVER: &'static str = "Observers (`on(...)`) are not supported in `.bsn` assets. Attach them from Rust, e.g. with a `bsn!` scene or an `Observer` entity.";

/// A scene function or function call in entry position.
pub const FN: &'static str = "Scene functions and function calls are not supported in `.bsn` assets. Expected a type path; type names start with an uppercase letter.";

/// A constructor call, `Type::function(…)`.
pub const CTOR: &'static str = "Constructor calls (`Type::function(...)`) are not supported in `.bsn` assets. Write the resulting value out in full instead.";

/// A Rust constant, such as `PI` or `Type::MAX`.
pub const CONST: &'static str = "Constants are not supported in `.bsn` assets. Write the literal value instead (`.bsn` has no access to Rust items).";

/// Struct field shorthand, `Comp { name }`.
pub const SHORTHAND: &'static str = "Field shorthand (`{ name }`) is not supported in `.bsn` assets, because there are no variables to capture. Write `name: <value>` instead.";

/// A scene component prop, `@prop: …`.
pub const PROP: &'static str = "Scene component props (`@prop: ...`) are not supported in `.bsn` assets. Props are evaluated by Rust code when the scene is included and cannot be expressed in an asset.";

/// A macro invocation, `vec![…]`.
pub const MACRO: &'static str = "Macro invocations are not supported in `.bsn` assets. Use a list literal `[ ... ]` instead of `vec![ ... ]`.";

/// A `use` import.
pub const USE: &'static str = "`use` imports are not supported in `.bsn` assets. Write fully-qualified type paths, e.g. `bevy_transform::components::transform::Transform`.";

/// A character literal, `'a'`.
pub const CHAR: &'static str = "Character literals are not supported in `.bsn` assets. Use a string literal instead.";

/// A numeric literal suffix, `1u8` or `1.0f32`.
pub const SUFFIX: &'static str = "Numeric literal suffixes are not supported in `.bsn` assets. The field's declared type determines the literal's type.";

/// A raw identifier, `r#type`.
pub const RAW_IDENT: &'static str = "Raw identifiers (`r#name`) are not supported in `.bsn` assets.";

/// A lowercase path where a value was expected.
pub const PATH_CASE: &'static str = "Expected a value. Type paths start with an uppercase letter; this path looks like a function or variable, and `.bsn` assets can only contain literal values.";

} // verus!
