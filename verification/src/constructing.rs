//! Ways to construct a value of a registered type from another value.

use vstd::prelude::*;

use crate::text::{copy_str, push_text, string_of};

verus! {

/// What is known of the type that a value is to be constructed of.
#[derive(Clone, Copy, Debug)]
pub struct Constructors {
    /// Whether the type is registered at all.
    pub registered: bool,
    /// Whether the reflected `FromReflect` is there and gives a value.
    pub from_reflect: bool,
    /// Whether the reflected `Default` is there.
    pub default: bool,
    /// Whether the reflected `FromWorld` is there.
    pub from_world: bool,
    /// Whether there is a world to construct from.
    pub world: bool,
}

/// The reflected trait that constructs a value.
#[derive(Clone, Copy, PartialEq, Eq, Structural, Debug)]
pub enum SourceTrait {
    FromReflect,
    Default,
    FromWorld,
}

/// Why a value cannot be constructed.
#[derive(Debug)]
pub enum FromReflectError {
    /// The target type is not registered at all.
    NotRegistered {
        /// The name of the type that could not be constructed.
        type_label: String,
    },
    /// The target type is registered, but carries neither the type data needed to construct a
    /// value nor a way to fall back to a default.
    MissingConstructor {
        /// The name of the type that could not be constructed.
        type_label: String,
        /// A human-readable list of the traits that were tried.
        traits: &'static str,
    },
    /// A default value was produced, but applying the other value on top of it failed.
    ApplyFailed {
        /// The name of the type being constructed.
        type_label: String,
        /// The reason.
        error: String,
    },
    /// The registered type data produced a value of the wrong type.
    MismatchedType {
        /// The name of the expected type.
        type_label: String,
        /// Which reflected trait produced the wrong value.
        source_trait: &'static str,
    },
}

/// The name of the trait.
pub open spec fn trait_name(source: SourceTrait) -> Seq<char> {
    match source {
        SourceTrait::FromReflect => "FromReflect"@,
        SourceTrait::Default => "Default"@,
        SourceTrait::FromWorld => "FromWorld"@,
    }
}

/// The traits that are tried.
pub open spec fn tried_traits(world: bool) -> Seq<char> {
    if world {
        "`FromReflect`, `Default` or `FromWorld` traits"@
    } else {
        "`FromReflect` or `Default` traits"@
    }
}

/// The trait that constructs a value: the first of `FromReflect`, `Default` and `FromWorld` that
/// can.
pub open spec fn source_of(c: Constructors) -> Option<SourceTrait> {
    if c.from_reflect {
        Some(SourceTrait::FromReflect)
    } else if c.default {
        Some(SourceTrait::Default)
    } else if c.from_world && c.world {
        Some(SourceTrait::FromWorld)
    } else {
        None
    }
}

/// The trait by which a value of the type is constructed, or why there is none.
///
/// Strategies, in order: reflected `FromReflect`; reflected `Default`; reflected `FromWorld`
/// (only when there is a world).
pub fn choose_constructor(type_label: &str, c: Constructors) -> (r: Result<
    SourceTrait,
    FromReflectError,
>)
    ensures
        match r {
            Ok(source) => c.registered && source_of(c) == Some(source),
            Err(FromReflectError::NotRegistered { type_label: name }) => !c.registered && name@
                == type_label@,
            Err(FromReflectError::MissingConstructor { type_label: name, traits }) => c.registered
                && source_of(c) is None && name@ == type_label@ && traits@ == tried_traits(c.world),
            Err(_) => false,
        },
{
    if !c.registered {
        return Err(FromReflectError::NotRegistered { type_label: copy_str(type_label) });
    }
    if c.from_reflect {
        Ok(SourceTrait::FromReflect)
    } else if c.default {
        Ok(SourceTrait::Default)
    } else if c.from_world && c.world {
        Ok(SourceTrait::FromWorld)
    } else {
        Err(
            FromReflectError::MissingConstructor {
                type_label: copy_str(type_label),
                traits: if c.world {
                    "`FromReflect`, `Default` or `FromWorld` traits"
                } else {
                    "`FromReflect` or `Default` traits"
                },
            },
        )
    }
}

/// Whether the value that a trait constructed still needs the other value applied on top of it.
pub fn needs_apply(source: SourceTrait) -> (r: bool)
    ensures
        r == (source != SourceTrait::FromReflect),
{
    match source {
        SourceTrait::FromReflect => false,
        _ => true,
    }
}

/// The result of constructing a value by a trait: `apply_error` is why the other value could not
/// be applied, and `same_type` tells whether the value has the type.
pub fn finish_construction(
    type_label: &str,
    source: SourceTrait,
    apply_error: Option<&str>,
    same_type: bool,
) -> (r: Result<(), FromReflectError>)
    ensures
        match r {
            Ok(_) => (source == SourceTrait::FromReflect || apply_error is None) && same_type,
            Err(FromReflectError::ApplyFailed { type_label: name, error }) => source
                != SourceTrait::FromReflect && name@ == type_label@ && (apply_error matches Some(
                reason,
            ) && reason@ == error@),
            Err(FromReflectError::MismatchedType { type_label: name, source_trait }) => (source
                == SourceTrait::FromReflect || apply_error is None) && !same_type && name@
                == type_label@ && source_trait@ == trait_name(source),
            Err(_) => false,
        },
{
    if needs_apply(source) {
        if let Some(error) = apply_error {
            return Err(
                FromReflectError::ApplyFailed {
                    type_label: copy_str(type_label),
                    error: copy_str(error),
                },
            );
        }
    }
    if same_type {
        Ok(())
    } else {
        Err(
            FromReflectError::MismatchedType {
                type_label: copy_str(type_label),
                source_trait: match source {
                    SourceTrait::FromReflect => "FromReflect",
                    SourceTrait::Default => "Default",
                    SourceTrait::FromWorld => "FromWorld",
                },
            },
        )
    }
}

/// The text of an error.
pub open spec fn from_reflect_text(error: FromReflectError) -> Seq<char> {
    match error {
        FromReflectError::NotRegistered { type_label } => "The type `"@ + type_label@
            + "` is not registered in the `TypeRegistry`"@,
        FromReflectError::MissingConstructor { type_label, traits } =>
            "Couldn't create an instance of `"@ + type_label@ + "` using the reflected "@ + traits@
            + ". Are you perhaps missing a `#[reflect(Default)]` attribute?"@,
        FromReflectError::ApplyFailed { type_label, error } =>
            "Failed to apply a reflected value onto a default instance of `"@ + type_label@ + "`: "@
            + error@,
        FromReflectError::MismatchedType { type_label, source_trait } =>
            "The registration for the reflected `"@ + source_trait@ + "` trait for the type `"@
            + type_label@ + "` produced a value of a different type"@,
    }
}

impl FromReflectError {
    /// The text of the error.
    pub fn message(&self) -> (r: String)
        ensures
            r@ == from_reflect_text(*self),
    {
        let mut out: Vec<char> = Vec::new();
        match self {
            FromReflectError::NotRegistered { type_label } => {
                push_text(&mut out, "The type `");
                push_text(&mut out, type_label.as_str());
                push_text(&mut out, "` is not registered in the `TypeRegistry`");
            },
            FromReflectError::MissingConstructor { type_label, traits } => {
                push_text(&mut out, "Couldn't create an instance of `");
                push_text(&mut out, type_label.as_str());
                push_text(&mut out, "` using the reflected ");
                push_text(&mut out, traits);
                push_text(
                    &mut out,
                    ". Are you perhaps missing a `#[reflect(Default)]` attribute?",
                );
            },
            FromReflectError::ApplyFailed { type_label, error } => {
                push_text(
                    &mut out,
                    "Failed to apply a reflected value onto a default instance of `",
                );
                push_text(&mut out, type_label.as_str());
                push_text(&mut out, "`: ");
                push_text(&mut out, error.as_str());
            },
            FromReflectError::MismatchedType { type_label, source_trait } => {
                push_text(&mut out, "The registration for the reflected `");
                push_text(&mut out, source_trait);
                push_text(&mut out, "` trait for the type `");
                push_text(&mut out, type_label.as_str());
                push_text(&mut out, "` produced a value of a different type");
            },
        }
        assert(out@ =~= from_reflect_text(*self));
        string_of(&out)
    }
}

// -- duplicates ---------------------------------------------------------------------------------

/// Where the duplicate of a template value comes from.
#[derive(Clone, Copy, PartialEq, Eq, Structural, Debug)]
pub enum CloneSource {
    /// The value was cloned.
    Clone,
    /// The value was read by the reflected `FromReflect`.
    FromReflect,
    /// The default value, with as much of the value applied as can be.
    Default,
}

/// Where the duplicate of a template value comes from, given whether it can be cloned and
/// whether the reflected `FromReflect` reads it. There always is one.
pub fn clone_template_source(cloned: bool, from_reflect: bool) -> (r: CloneSource)
    ensures
        r == (if cloned {
            CloneSource::Clone
        } else if from_reflect {
            CloneSource::FromReflect
        } else {
            CloneSource::Default
        }),
{
    if cloned {
        CloneSource::Clone
    } else if from_reflect {
        CloneSource::FromReflect
    } else {
        CloneSource::Default
    }
}

/// Where the output of a template value comes from.
#[derive(Clone, Copy, PartialEq, Eq, Structural, Debug)]
pub enum OutputSource {
    /// The template builds it.
    Built,
    /// The value is its own output, and was cloned.
    Clone,
    /// The value is its own output, and was read by the reflected `FromReflect`.
    FromReflect,
}

/// Where the output of a template value comes from, given whether the template builds outputs,
/// whether the value can be cloned, and whether the reflected `FromReflect` reads it. Without
/// any of them the output fails as cloning did.
pub fn output_source(builds: bool, cloned: bool, from_reflect: bool) -> (r: Option<OutputSource>)
    ensures
        r == (if builds {
            Some(OutputSource::Built)
        } else if cloned {
            Some(OutputSource::Clone)
        } else if from_reflect {
            Some(OutputSource::FromReflect)
        } else {
            None
        }),
{
    if builds {
        Some(OutputSource::Built)
    } else if cloned {
        Some(OutputSource::Clone)
    } else if from_reflect {
        Some(OutputSource::FromReflect)
    } else {
        None
    }
}

/// A world never hinders construction: a trait that constructs a value without a world constructs
/// it with one, too. Without a world nothing is constructed from a world.
pub proof fn law_a_world_only_helps(c: Constructors)
    ensures
        source_of(c) is Some ==> source_of(Constructors { world: true, ..c }) == source_of(c),
        source_of(Constructors { world: false, ..c }) != Some(SourceTrait::FromWorld),
{
}

/// A value is constructed by `FromReflect` wherever that gives one; else by `Default` wherever
/// there is one; else from a world, where there are both; and otherwise not at all.
pub proof fn law_constructors_are_tried_in_order(c: Constructors)
    ensures
        source_of(c) == Some(SourceTrait::FromReflect) <==> c.from_reflect,
        source_of(c) == Some(SourceTrait::Default) <==> !c.from_reflect && c.default,
        source_of(c) == Some(SourceTrait::FromWorld) <==> !c.from_reflect && !c.default
            && c.from_world && c.world,
        source_of(c) is None <==> !c.from_reflect && !c.default && !(c.from_world && c.world),
{
}

} // verus!
