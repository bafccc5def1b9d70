//! Templates: things that, given the entities that are known while a scene is spawned, produce
//! a value.

use vstd::prelude::*;

use crate::entity::Entity;
use crate::scene_reference::{
    asset_reference, Reference, SceneEntityReference, SceneEntityReferences,
};
use crate::text::copy_str;

verus! {

/// Why a template could not be built.
#[derive(Debug)]
pub enum TemplateError {
    /// An entity has not been specified.
    Unspecified,
    /// The entity of a reference is not known yet: spawn one, set it for the reference, and
    /// build the template again.
    Unresolved(SceneEntityReference),
    /// The template failed for a reason of its own.
    Failed(String),
}

/// The text of an unspecified entity.
pub const UNSPECIFIED: &'static str = "Failed to specify an entity for this EntityTemplate";

impl TemplateError {
    /// The text of the error.
    pub fn message(&self) -> (r: String)
        ensures
            r@ == match *self {
                TemplateError::Unspecified => UNSPECIFIED@,
                TemplateError::Unresolved(reference) => crate::scene_reference::reference_text(
                    reference@,
                ),
                TemplateError::Failed(text) => text@,
            },
    {
        match self {
            TemplateError::Unspecified => copy_str(UNSPECIFIED),
            TemplateError::Unresolved(reference) => reference.text(),
            TemplateError::Failed(text) => copy_str(text.as_str()),
        }
    }
}

/// The context used to apply the current [`Template`]: the entity that it is applied to, and the
/// entities that `#Name` references stand for.
pub struct TemplateContext {
    /// The current entity the template is being applied to
    pub entity: Entity,
    /// A mapping of [`SceneEntityReference`] to [`Entity`] used for resolving `#Name` entity
    /// references
    pub entity_references: SceneEntityReferences,
}

impl TemplateContext {
    /// The entities that are context.
    pub open spec fn view(&self) -> Map<Reference, Entity> {
        self.entity_references@
    }

    /// Creates a new [`TemplateContext`].
    pub fn new(entity: Entity, entity_references: SceneEntityReferences) -> (r: Self)
        ensures
            r.entity == entity,
            r@ == entity_references@,
    {
        TemplateContext { entity, entity_references }
    }

    /// Get the entity associated with the [`SceneEntityReference`], or ask for one if there is
    /// none.
    pub fn get_entity(&self, reference: SceneEntityReference) -> (r: Result<Entity, TemplateError>)
        ensures
            r == (if self@.contains_key(reference@) {
                Ok::<Entity, TemplateError>(self@[reference@])
            } else {
                Err(TemplateError::Unresolved(reference))
            }),
    {
        match self.entity_references.find(reference) {
            Some(entity) => Ok(entity),
            None => Err(TemplateError::Unresolved(reference)),
        }
    }
}

/// A [`Template`] is something that, given a spawn context, can produce a [`Template::Output`].
///
/// Building a template does not consume it, and templates can be duplicated via
/// [`Template::clone_template`], so that scenes can be reused and shared. Building changes
/// nothing: a template that needs an entity that is not known yet asks for it, and is built
/// again when there is one.
pub trait Template: Sized {
    /// The type of value produced by this [`Template`].
    type Output;

    /// Whether the template can be built in every context.
    spec fn can_build(&self) -> bool;

    /// Whether `r` is what building the template gives, with the entities that are context.
    spec fn builds(
        &self,
        context: TemplateContext,
        r: Result<Self::Output, TemplateError>,
    ) -> bool;

    /// Whether `other` is a duplicate of this template.
    spec fn is_clone(&self, other: &Self) -> bool;

    /// Uses this template and the given context to produce a [`Template::Output`].
    fn build_template(&self, context: &TemplateContext) -> (r: Result<Self::Output, TemplateError>)
        requires
            self.can_build(),
        ensures
            self.builds(*context, r),
    ;

    /// Clones this template. See [`Clone`].
    fn clone_template(&self) -> (r: Self)
        ensures
            self.is_clone(&r),
    ;
}

/// Whether building a template may give a value.
pub open spec fn can_succeed<T: Template>(template: &T, context: TemplateContext) -> bool {
    exists|out: T::Output| template.builds(context, Ok(out))
}

/// [`FromTemplate`] is implemented for types that can be produced by a specific, canonical
/// [`Template`].
pub trait FromTemplate: Sized {
    /// The [`Template`] for this type.
    type Template: Template<Output = Self>;
}

/// A marker for types that must name their template themselves.
pub trait SpecializeFromTemplate: Sized {

}

/// Roughly equivalent to [`FromTemplate`], for common generic collection types like [`Option`]
/// and [`Vec`] whose items are templated.
pub trait BuiltInTemplate: Sized {
    /// The template to consider the "built in" template for this type.
    type Template: Template;
}

impl<T: FromTemplate> BuiltInTemplate for Option<T> {
    type Template = OptionTemplate<T::Template>;
}

impl<T: FromTemplate> BuiltInTemplate for Vec<T> {
    type Template = VecTemplate<T::Template>;
}

// -- entities -----------------------------------------------------------------------------------

/// A [`Template`] reference to an [`Entity`].
///
/// This is only valid during scene spawning and should **never** be used as a component field.
#[derive(Copy, Clone, Debug)]
pub enum EntityTemplate {
    /// A reference to a specific [`Entity`]
    Entity(Entity),
    /// A reference to an entity via a unique reference
    SceneEntityReference(SceneEntityReference),
    /// An entity has not been specified. Building a template with this variant will result in
    /// an error.
    Unset,
}

impl Default for EntityTemplate {
    fn default() -> (r: Self)
        ensures
            r is Unset,
    {
        EntityTemplate::Unset
    }
}

impl EntityTemplate {
    /// Create a [`EntityTemplate::SceneEntityReference`] from the data needed for
    /// [`SceneEntityReference`]
    pub fn from_reference(
        invocation: (&'static str, usize, usize),
        name_id: usize,
        runtime: u64,
    ) -> (r: Self)
        ensures
            r matches EntityTemplate::SceneEntityReference(reference) && reference@ == (Reference {
                source: crate::scene_reference::Source::CallSite {
                    file: invocation.0@,
                    line: invocation.1,
                    column: invocation.2,
                },
                name_id,
                runtime,
            }),
    {
        EntityTemplate::SceneEntityReference(
            SceneEntityReference::new(invocation, name_id, runtime),
        )
    }

    /// Create an [`EntityTemplate::SceneEntityReference`] pointing at a named entity defined in
    /// a scene asset. See [`SceneEntityReference::from_asset`].
    pub fn from_asset_reference(asset_path: &str, node_id: u32) -> (r: Self)
        ensures
            r matches EntityTemplate::SceneEntityReference(reference) && exists|
                wide_multiply: bool,
                wide_rotate: bool,
            |
                reference@ == #[trigger] asset_reference(
                    asset_path@,
                    node_id,
                    wide_multiply,
                    wide_rotate,
                ),
    {
        EntityTemplate::SceneEntityReference(SceneEntityReference::from_asset(asset_path, node_id))
    }
}

impl From<Entity> for EntityTemplate {
    fn from(entity: Entity) -> (r: Self) {
        EntityTemplate::Entity(entity)
    }
}

impl vstd::std_specs::convert::FromSpecImpl<Entity> for EntityTemplate {
    open spec fn obeys_from_spec() -> bool {
        true
    }

    open spec fn from_spec(entity: Entity) -> Self {
        EntityTemplate::Entity(entity)
    }
}

impl Template for EntityTemplate {
    type Output = Entity;

    open spec fn can_build(&self) -> bool {
        true
    }

    open spec fn builds(
        &self,
        context: TemplateContext,
        r: Result<Entity, TemplateError>,
    ) -> bool {
        match *self {
            EntityTemplate::Entity(entity) => r == Ok::<Entity, TemplateError>(entity),
            EntityTemplate::SceneEntityReference(reference) => r == (if context@.contains_key(
                reference@,
            ) {
                Ok::<Entity, TemplateError>(context@[reference@])
            } else {
                Err(TemplateError::Unresolved(reference))
            }),
            EntityTemplate::Unset => r == Err::<Entity, TemplateError>(TemplateError::Unspecified),
        }
    }

    open spec fn is_clone(&self, other: &Self) -> bool {
        *self == *other
    }

    fn build_template(&self, context: &TemplateContext) -> (r: Result<Entity, TemplateError>) {
        match self {
            EntityTemplate::Entity(entity) => Ok(*entity),
            EntityTemplate::SceneEntityReference(reference) => context.get_entity(*reference),
            EntityTemplate::Unset => Err(TemplateError::Unspecified),
        }
    }

    fn clone_template(&self) -> (r: Self) {
        match self {
            EntityTemplate::Entity(entity) => EntityTemplate::Entity(*entity),
            EntityTemplate::SceneEntityReference(reference) => {
                EntityTemplate::SceneEntityReference(*reference)
            },
            EntityTemplate::Unset => EntityTemplate::Unset,
        }
    }
}

impl FromTemplate for Entity {
    type Template = EntityTemplate;
}

// -- values -------------------------------------------------------------------------------------

/// A [`Template`] that holds a value and produces clones of it. It stands around the value, so
/// that a type that can be cloned may still have a template of its own.
#[derive(Clone, Debug, Default, PartialEq)]
pub struct ValueTemplate<T: Clone>(pub T);

impl<T: Clone> From<T> for ValueTemplate<T> {
    fn from(value: T) -> (r: Self) {
        ValueTemplate(value)
    }
}

impl<T: Clone> vstd::std_specs::convert::FromSpecImpl<T> for ValueTemplate<T> {
    open spec fn obeys_from_spec() -> bool {
        true
    }

    open spec fn from_spec(value: T) -> Self {
        ValueTemplate(value)
    }
}

impl<T: Clone> Template for ValueTemplate<T> {
    type Output = T;

    open spec fn can_build(&self) -> bool {
        true
    }

    open spec fn builds(&self, context: TemplateContext, r: Result<T, TemplateError>) -> bool {
        r matches Ok(out) && cloned(self.0, out)
    }

    open spec fn is_clone(&self, other: &Self) -> bool {
        cloned(self.0, other.0)
    }

    fn build_template(&self, context: &TemplateContext) -> (r: Result<T, TemplateError>) {
        Ok(self.0.clone())
    }

    fn clone_template(&self) -> (r: Self) {
        ValueTemplate(self.0.clone())
    }
}

// -- functions ----------------------------------------------------------------------------------

/// A [`Template`] driven by a function that returns an output. This is used to create "free
/// floating" templates without defining a new type. See [`template`] for usage.
#[verifier::reject_recursive_types(O)]
pub struct FnTemplate<F: Fn(&TemplateContext) -> Result<O, TemplateError>, O>(pub F);

impl<F: Fn(&TemplateContext) -> Result<O, TemplateError> + Clone, O> Template for FnTemplate<F, O> {
    type Output = O;

    open spec fn can_build(&self) -> bool {
        forall|context: &TemplateContext| #[trigger] call_requires(self.0, (context,))
    }

    open spec fn builds(
        &self,
        context: TemplateContext,
        r: Result<O, TemplateError>,
    ) -> bool {
        call_ensures(self.0, (&context,), r)
    }

    open spec fn is_clone(&self, other: &Self) -> bool {
        cloned(self.0, other.0)
    }

    fn build_template(&self, context: &TemplateContext) -> (r: Result<O, TemplateError>) {
        assert(call_requires(self.0, (context,)));
        let r = (self.0)(context);
        assert(call_ensures(self.0, (context,), r));
        r
    }

    fn clone_template(&self) -> (r: Self) {
        FnTemplate(self.0.clone())
    }
}

/// Returns a "free floating" template for a given `func`. This prevents the need to define a
/// custom type for one-off templates.
pub fn template<F: Fn(&TemplateContext) -> Result<O, TemplateError>, O>(func: F) -> (r: FnTemplate<
    F,
    O,
>)
    ensures
        r.0 == func,
{
    FnTemplate(func)
}

// -- collections --------------------------------------------------------------------------------

/// A [`Template`] for [`Option`].
#[derive(Debug)]
pub enum OptionTemplate<T> {
    /// Template of [`Option::Some`].
    Present(T),
    /// Template of [`Option::None`].
    Absent,
}

impl<T> Default for OptionTemplate<T> {
    fn default() -> (r: Self)
        ensures
            r is Absent,
    {
        OptionTemplate::Absent
    }
}

impl<T> From<Option<T>> for OptionTemplate<T> {
    fn from(value: Option<T>) -> (r: Self) {
        match value {
            Some(value) => OptionTemplate::Present(value),
            None => OptionTemplate::Absent,
        }
    }
}

impl<T> vstd::std_specs::convert::FromSpecImpl<Option<T>> for OptionTemplate<T> {
    open spec fn obeys_from_spec() -> bool {
        true
    }

    open spec fn from_spec(value: Option<T>) -> Self {
        match value {
            Some(value) => OptionTemplate::Present(value),
            None => OptionTemplate::Absent,
        }
    }
}

impl<T> From<T> for OptionTemplate<T> {
    fn from(value: T) -> (r: Self) {
        OptionTemplate::Present(value)
    }
}

impl<T> vstd::std_specs::convert::FromSpecImpl<T> for OptionTemplate<T> {
    open spec fn obeys_from_spec() -> bool {
        true
    }

    open spec fn from_spec(value: T) -> Self {
        OptionTemplate::Present(value)
    }
}

impl<T: Template> Template for OptionTemplate<T> {
    type Output = Option<T::Output>;

    open spec fn can_build(&self) -> bool {
        self matches OptionTemplate::Present(template) ==> template.can_build()
    }

    open spec fn builds(
        &self,
        context: TemplateContext,
        r: Result<Option<T::Output>, TemplateError>,
    ) -> bool {
        match *self {
            OptionTemplate::Present(template) => match r {
                Ok(out) => out matches Some(value) && template.builds(context, Ok(value)),
                Err(e) => template.builds(context, Err(e)),
            },
            OptionTemplate::Absent => r matches Ok(out) && out is None,
        }
    }

    open spec fn is_clone(&self, other: &Self) -> bool {
        match (*self, *other) {
            (OptionTemplate::Present(a), OptionTemplate::Present(b)) => a.is_clone(&b),
            (OptionTemplate::Absent, OptionTemplate::Absent) => true,
            _ => false,
        }
    }

    fn build_template(&self, context: &TemplateContext) -> (r: Result<
        Option<T::Output>,
        TemplateError,
    >) {
        match self {
            OptionTemplate::Present(template) => match template.build_template(context) {
                Ok(value) => Ok(Some(value)),
                Err(e) => Err(e),
            },
            OptionTemplate::Absent => Ok(None),
        }
    }

    fn clone_template(&self) -> (r: Self) {
        match self {
            OptionTemplate::Present(value) => OptionTemplate::Present(value.clone_template()),
            OptionTemplate::Absent => OptionTemplate::Absent,
        }
    }
}

/// A [`Template`] for [`Vec`].
#[derive(Debug)]
pub struct VecTemplate<T>(pub Vec<T>);

impl<T> Default for VecTemplate<T> {
    fn default() -> (r: Self)
        ensures
            r.0@.len() == 0,
    {
        VecTemplate(Vec::new())
    }
}

impl<T: Template> Template for VecTemplate<T> {
    type Output = Vec<T::Output>;

    open spec fn can_build(&self) -> bool {
        forall|i: int| 0 <= i < self.0@.len() ==> (#[trigger] self.0@[i]).can_build()
    }

    open spec fn builds(
        &self,
        context: TemplateContext,
        r: Result<Vec<T::Output>, TemplateError>,
    ) -> bool {
        match r {
            Ok(out) => out@.len() == self.0@.len() && (forall|i: int|
                0 <= i < self.0@.len() ==> (#[trigger] self.0@[i]).builds(context, Ok(out@[i]))),
            Err(e) => exists|k: int|
                0 <= k < self.0@.len() && (#[trigger] self.0@[k]).builds(context, Err(e)) && (forall|
                    i: int,
                |
                    0 <= i < k ==> can_succeed(&#[trigger] self.0@[i], context)),
        }
    }

    open spec fn is_clone(&self, other: &Self) -> bool {
        &&& self.0@.len() == other.0@.len()
        &&& forall|i: int|
            0 <= i < self.0@.len() ==> (#[trigger] self.0@[i]).is_clone(&other.0@[i])
    }

    fn build_template(&self, context: &TemplateContext) -> (r: Result<
        Vec<T::Output>,
        TemplateError,
    >) {
        let mut output: Vec<T::Output> = Vec::new();
        let mut i: usize = 0;
        while i < self.0.len()
            invariant
                self.can_build(),
                0 <= i <= self.0.len(),
                output@.len() == i,
                forall|k: int|
                    0 <= k < i ==> (#[trigger] self.0@[k]).builds(*context, Ok(output@[k])),
            decreases self.0.len() - i,
        {
            assert(self.0@[i as int].can_build());
            match self.0[i].build_template(context) {
                Ok(value) => {
                    output.push(value);
                },
                Err(e) => {
                    assert forall|k: int| 0 <= k < i implies can_succeed(
                        &#[trigger] self.0@[k],
                        *context,
                    ) by {
                        assert(self.0@[k].builds(*context, Ok(output@[k])));
                    }
                    assert(self.0@[i as int].builds(*context, Err(e)));
                    return Err(e);
                },
            }
            i = i + 1;
        }
        Ok(output)
    }

    fn clone_template(&self) -> (r: Self) {
        let mut output: Vec<T> = Vec::new();
        let mut i: usize = 0;
        while i < self.0.len()
            invariant
                0 <= i <= self.0.len(),
                output@.len() == i,
                forall|k: int| 0 <= k < i ==> (#[trigger] self.0@[k]).is_clone(&output@[k]),
            decreases self.0.len() - i,
        {
            output.push(self.0[i].clone_template());
            i = i + 1;
        }
        VecTemplate(output)
    }
}

// -- duplicates ---------------------------------------------------------------------------------

/// Whether the duplicates of templates of a type build what the templates build.
pub open spec fn duplicates_build_alike<T: Template>() -> bool {
    forall|a: T, b: T, context: TemplateContext, r: Result<T::Output, TemplateError>|
        a.is_clone(&b) ==> (#[trigger] a.builds(context, r) <==> #[trigger] b.builds(context, r))
}

/// The duplicate of an entity template builds the same entity.
pub proof fn law_entity_duplicates()
    ensures
        duplicates_build_alike::<EntityTemplate>(),
{
}

/// Duplicates of optional templates build alike when the duplicates of their templates do.
pub proof fn law_option_duplicates<T: Template>()
    requires
        duplicates_build_alike::<T>(),
    ensures
        duplicates_build_alike::<OptionTemplate<T>>(),
{
    assert forall|
        a: OptionTemplate<T>,
        b: OptionTemplate<T>,
        context: TemplateContext,
        r: Result<Option<T::Output>, TemplateError>,
    |
        a.is_clone(&b) implies (#[trigger] a.builds(context, r) <==> #[trigger] b.builds(
        context,
        r,
    )) by {
        if let (OptionTemplate::Present(x), OptionTemplate::Present(y)) = (a, b) {
            match r {
                Ok(out) => {
                    if let Some(value) = out {
                        assert(x.builds(context, Ok(value)) <==> y.builds(context, Ok(value)));
                    }
                },
                Err(e) => {
                    assert(x.builds(context, Err(e)) <==> y.builds(context, Err(e)));
                },
            }
        }
    }
}

/// Duplicates of lists of templates build alike when the duplicates of their templates do.
pub proof fn law_list_duplicates<T: Template>()
    requires
        duplicates_build_alike::<T>(),
    ensures
        duplicates_build_alike::<VecTemplate<T>>(),
{
    assert forall|
        a: VecTemplate<T>,
        b: VecTemplate<T>,
        context: TemplateContext,
        r: Result<Vec<T::Output>, TemplateError>,
    |
        a.is_clone(&b) implies (#[trigger] a.builds(context, r) <==> #[trigger] b.builds(
        context,
        r,
    )) by {
        if a.builds(context, r) {
            lemma_list_alike(a, b, context, r, true);
        }
        if b.builds(context, r) {
            lemma_list_alike(b, a, context, r, false);
        }
    }
}

/// What a list builds, its duplicate (or the list that it duplicates) builds.
proof fn lemma_list_alike<T: Template>(
    a: VecTemplate<T>,
    b: VecTemplate<T>,
    context: TemplateContext,
    r: Result<Vec<T::Output>, TemplateError>,
    forward: bool,
)
    requires
        duplicates_build_alike::<T>(),
        if forward {
            a.is_clone(&b)
        } else {
            b.is_clone(&a)
        },
        a.builds(context, r),
    ensures
        b.builds(context, r),
{
    assert forall|i: int, x: Result<T::Output, TemplateError>|
        0 <= i < a.0@.len() && #[trigger] a.0@[i].builds(context, x) implies b.0@[i].builds(
        context,
        x,
    ) by {
        if forward {
            assert(a.0@[i].is_clone(&b.0@[i]));
        } else {
            assert(b.0@[i].is_clone(&a.0@[i]));
        }
        assert(b.0@[i].builds(context, x) <==> a.0@[i].builds(context, x));
    }
    match r {
        Ok(out) => {
            assert forall|i: int| 0 <= i < b.0@.len() implies (#[trigger] b.0@[i]).builds(
                context,
                Ok(out@[i]),
            ) by {
                assert(a.0@[i].builds(context, Ok(out@[i])));
            }
        },
        Err(e) => {
            let k = choose|k: int|
                0 <= k < a.0@.len() && (#[trigger] a.0@[k]).builds(context, Err(e)) && (forall|i: int|
                    0 <= i < k ==> can_succeed(&#[trigger] a.0@[i], context));
            assert forall|i: int| 0 <= i < k implies can_succeed(&#[trigger] b.0@[i], context) by {
                assert(can_succeed(&a.0@[i], context));
                let out = choose|out: T::Output| a.0@[i].builds(context, Ok(out));
                assert(b.0@[i].builds(context, Ok(out)));
            }
            assert(b.0@[k].builds(context, Err(e)));
        },
    }
}

/// An entity template that asks for the entity of a reference builds that entity once it is
/// set, and never asks for a reference that is known.
pub proof fn law_asked_entity_is_built(
    t: EntityTemplate,
    context: TemplateContext,
    reference: SceneEntityReference,
    entity: Entity,
    later: TemplateContext,
)
    requires
        t.builds(context, Err(TemplateError::Unresolved(reference))),
        later@ == crate::scene_reference::with_first(context@, reference@, entity),
    ensures
        !context@.contains_key(reference@),
        t.builds(later, Ok(entity)),
{
}

// -- tuples -------------------------------------------------------------------------------------

/// A wrapper over a tuple of [`Template`] implementations, which also implements [`Template`].
pub struct TemplateTuple<T>(pub T);

impl Template for TemplateTuple<()> {
    type Output = ();

    open spec fn can_build(&self) -> bool {
        true
    }

    open spec fn builds(
        &self,
        context: TemplateContext,
        r: Result<Self::Output, TemplateError>,
    ) -> bool {
        r is Ok
    }

    open spec fn is_clone(&self, other: &Self) -> bool {
        true
    }

    fn build_template(&self, context: &TemplateContext) -> (r: Result<Self::Output, TemplateError>) {
        Ok(())
    }

    fn clone_template(&self) -> (r: Self) {
        TemplateTuple(())
    }
}

impl<A: Template> Template for TemplateTuple<(A,)> {
    type Output = (A::Output,);

    open spec fn can_build(&self) -> bool {
        &&& self.0.0.can_build()
    }

    open spec fn builds(
        &self,
        context: TemplateContext,
        r: Result<Self::Output, TemplateError>,
    ) -> bool {
        match r {
            Ok(out) => {
                &&& self.0.0.builds(context, Ok(out.0))
            },
            Err(e) => {
                ||| self.0.0.builds(context, Err(e))
            },
        }
    }

    open spec fn is_clone(&self, other: &Self) -> bool {
        &&& self.0.0.is_clone(&other.0.0)
    }

    fn build_template(&self, context: &TemplateContext) -> (r: Result<Self::Output, TemplateError>) {
        let v0 = match self.0.0.build_template(context) {
            Ok(v) => v,
            Err(e) => {
                return Err(e);
            },
        };
        Ok((v0,))
    }

    fn clone_template(&self) -> (r: Self) {
        TemplateTuple((self.0.0.clone_template(),))
    }
}

impl<A: Template, B: Template> Template for TemplateTuple<(A, B)> {
    type Output = (A::Output, B::Output);

    open spec fn can_build(&self) -> bool {
        &&& self.0.0.can_build()
        &&& self.0.1.can_build()
    }

    open spec fn builds(
        &self,
        context: TemplateContext,
        r: Result<Self::Output, TemplateError>,
    ) -> bool {
        match r {
            Ok(out) => {
                &&& self.0.0.builds(context, Ok(out.0))
                &&& self.0.1.builds(context, Ok(out.1))
            },
            Err(e) => {
                ||| self.0.0.builds(context, Err(e))
                ||| can_succeed(&self.0.0, context) && self.0.1.builds(context, Err(e))
            },
        }
    }

    open spec fn is_clone(&self, other: &Self) -> bool {
        &&& self.0.0.is_clone(&other.0.0)
        &&& self.0.1.is_clone(&other.0.1)
    }

    fn build_template(&self, context: &TemplateContext) -> (r: Result<Self::Output, TemplateError>) {
        let v0 = match self.0.0.build_template(context) {
            Ok(v) => v,
            Err(e) => {
                return Err(e);
            },
        };
        let v1 = match self.0.1.build_template(context) {
            Ok(v) => v,
            Err(e) => {
                return Err(e);
            },
        };
        Ok((v0, v1))
    }

    fn clone_template(&self) -> (r: Self) {
        TemplateTuple((self.0.0.clone_template(), self.0.1.clone_template()))
    }
}

impl<A: Template, B: Template, C: Template> Template for TemplateTuple<(A, B, C)> {
    type Output = (A::Output, B::Output, C::Output);

    open spec fn can_build(&self) -> bool {
        &&& self.0.0.can_build()
        &&& self.0.1.can_build()
        &&& self.0.2.can_build()
    }

    open spec fn builds(
        &self,
        context: TemplateContext,
        r: Result<Self::Output, TemplateError>,
    ) -> bool {
        match r {
            Ok(out) => {
                &&& self.0.0.builds(context, Ok(out.0))
                &&& self.0.1.builds(context, Ok(out.1))
                &&& self.0.2.builds(context, Ok(out.2))
            },
            Err(e) => {
                ||| self.0.0.builds(context, Err(e))
                ||| can_succeed(&self.0.0, context) && self.0.1.builds(context, Err(e))
                ||| can_succeed(&self.0.0, context) && can_succeed(&self.0.1, context)
                    && self.0.2.builds(context, Err(e))
            },
        }
    }

    open spec fn is_clone(&self, other: &Self) -> bool {
        &&& self.0.0.is_clone(&other.0.0)
        &&& self.0.1.is_clone(&other.0.1)
        &&& self.0.2.is_clone(&other.0.2)
    }

    fn build_template(&self, context: &TemplateContext) -> (r: Result<Self::Output, TemplateError>) {
        let v0 = match self.0.0.build_template(context) {
            Ok(v) => v,
            Err(e) => {
                return Err(e);
            },
        };
        let v1 = match self.0.1.build_template(context) {
            Ok(v) => v,
            Err(e) => {
                return Err(e);
            },
        };
        let v2 = match self.0.2.build_template(context) {
            Ok(v) => v,
            Err(e) => {
                return Err(e);
            },
        };
        Ok((v0, v1, v2))
    }

    fn clone_template(&self) -> (r: Self) {
        TemplateTuple((
            self.0.0.clone_template(),
            self.0.1.clone_template(),
            self.0.2.clone_template(),
        ))
    }
}

impl<A: Template, B: Template, C: Template, D: Template> Template for TemplateTuple<(A, B, C, D)> {
    type Output = (A::Output, B::Output, C::Output, D::Output);

    open spec fn can_build(&self) -> bool {
        &&& self.0.0.can_build()
        &&& self.0.1.can_build()
        &&& self.0.2.can_build()
        &&& self.0.3.can_build()
    }

    open spec fn builds(
        &self,
        context: TemplateContext,
        r: Result<Self::Output, TemplateError>,
    ) -> bool {
        match r {
            Ok(out) => {
                &&& self.0.0.builds(context, Ok(out.0))
                &&& self.0.1.builds(context, Ok(out.1))
                &&& self.0.2.builds(context, Ok(out.2))
                &&& self.0.3.builds(context, Ok(out.3))
            },
            Err(e) => {
                ||| self.0.0.builds(context, Err(e))
                ||| can_succeed(&self.0.0, context) && self.0.1.builds(context, Err(e))
                ||| can_succeed(&self.0.0, context) && can_succeed(&self.0.1, context)
                    && self.0.2.builds(context, Err(e))
                ||| can_succeed(&self.0.0, context) && can_succeed(&self.0.1, context)
                    && can_succeed(&self.0.2, context) && self.0.3.builds(context, Err(e))
            },
        }
    }

    open spec fn is_clone(&self, other: &Self) -> bool {
        &&& self.0.0.is_clone(&other.0.0)
        &&& self.0.1.is_clone(&other.0.1)
        &&& self.0.2.is_clone(&other.0.2)
        &&& self.0.3.is_clone(&other.0.3)
    }

    fn build_template(&self, context: &TemplateContext) -> (r: Result<Self::Output, TemplateError>) {
        let v0 = match self.0.0.build_template(context) {
            Ok(v) => v,
            Err(e) => {
                return Err(e);
            },
        };
        let v1 = match self.0.1.build_template(context) {
            Ok(v) => v,
            Err(e) => {
                return Err(e);
            },
        };
        let v2 = match self.0.2.build_template(context) {
            Ok(v) => v,
            Err(e) => {
                return Err(e);
            },
        };
        let v3 = match self.0.3.build_template(context) {
            Ok(v) => v,
            Err(e) => {
                return Err(e);
            },
        };
        Ok((v0, v1, v2, v3))
    }

    fn clone_template(&self) -> (r: Self) {
        TemplateTuple((
            self.0.0.clone_template(),
            self.0.1.clone_template(),
            self.0.2.clone_template(),
            self.0.3.clone_template(),
        ))
    }
}

impl<
    A: Template,
    B: Template,
    C: Template,
    D: Template,
    E: Template,
> Template for TemplateTuple<(A, B, C, D, E)> {
    type Output = (A::Output, B::Output, C::Output, D::Output, E::Output);

    open spec fn can_build(&self) -> bool {
        &&& self.0.0.can_build()
        &&& self.0.1.can_build()
        &&& self.0.2.can_build()
        &&& self.0.3.can_build()
        &&& self.0.4.can_build()
    }

    open spec fn builds(
        &self,
        context: TemplateContext,
        r: Result<Self::Output, TemplateError>,
    ) -> bool {
        match r {
            Ok(out) => {
                &&& self.0.0.builds(context, Ok(out.0))
                &&& self.0.1.builds(context, Ok(out.1))
                &&& self.0.2.builds(context, Ok(out.2))
                &&& self.0.3.builds(context, Ok(out.3))
                &&& self.0.4.builds(context, Ok(out.4))
            },
            Err(e) => {
                ||| self.0.0.builds(context, Err(e))
                ||| can_succeed(&self.0.0, context) && self.0.1.builds(context, Err(e))
                ||| can_succeed(&self.0.0, context) && can_succeed(&self.0.1, context)
                    && self.0.2.builds(context, Err(e))
                ||| can_succeed(&self.0.0, context) && can_succeed(&self.0.1, context)
                    && can_succeed(&self.0.2, context) && self.0.3.builds(context, Err(e))
                ||| can_succeed(&self.0.0, context) && can_succeed(&self.0.1, context)
                    && can_succeed(&self.0.2, context) && can_succeed(&self.0.3, context)
                    && self.0.4.builds(context, Err(e))
            },
        }
    }

    open spec fn is_clone(&self, other: &Self) -> bool {
        &&& self.0.0.is_clone(&other.0.0)
        &&& self.0.1.is_clone(&other.0.1)
        &&& self.0.2.is_clone(&other.0.2)
        &&& self.0.3.is_clone(&other.0.3)
        &&& self.0.4.is_clone(&other.0.4)
    }

    fn build_template(&self, context: &TemplateContext) -> (r: Result<Self::Output, TemplateError>) {
        let v0 = match self.0.0.build_template(context) {
            Ok(v) => v,
            Err(e) => {
                return Err(e);
            },
        };
        let v1 = match self.0.1.build_template(context) {
            Ok(v) => v,
            Err(e) => {
                return Err(e);
            },
        };
        let v2 = match self.0.2.build_template(context) {
            Ok(v) => v,
            Err(e) => {
                return Err(e);
            },
        };
        let v3 = match self.0.3.build_template(context) {
            Ok(v) => v,
            Err(e) => {
                return Err(e);
            },
        };
        let v4 = match self.0.4.build_template(context) {
            Ok(v) => v,
            Err(e) => {
                return Err(e);
            },
        };
        Ok((v0, v1, v2, v3, v4))
    }

    fn clone_template(&self) -> (r: Self) {
        TemplateTuple((
            self.0.0.clone_template(),
            self.0.1.clone_template(),
            self.0.2.clone_template(),
            self.0.3.clone_template(),
            self.0.4.clone_template(),
        ))
    }
}

impl<
    A: Template,
    B: Template,
    C: Template,
    D: Template,
    E: Template,
    F: Template,
> Template for TemplateTuple<(A, B, C, D, E, F)> {
    type Output = (A::Output, B::Output, C::Output, D::Output, E::Output, F::Output);

    open spec fn can_build(&self) -> bool {
        &&& self.0.0.can_build()
        &&& self.0.1.can_build()
        &&& self.0.2.can_build()
        &&& self.0.3.can_build()
        &&& self.0.4.can_build()
        &&& self.0.5.can_build()
    }

    open spec fn builds(
        &self,
        context: TemplateContext,
        r: Result<Self::Output, TemplateError>,
    ) -> bool {
        match r {
            Ok(out) => {
                &&& self.0.0.builds(context, Ok(out.0))
                &&& self.0.1.builds(context, Ok(out.1))
                &&& self.0.2.builds(context, Ok(out.2))
                &&& self.0.3.builds(context, Ok(out.3))
                &&& self.0.4.builds(context, Ok(out.4))
                &&& self.0.5.builds(context, Ok(out.5))
            },
            Err(e) => {
                ||| self.0.0.builds(context, Err(e))
                ||| can_succeed(&self.0.0, context) && self.0.1.builds(context, Err(e))
                ||| can_succeed(&self.0.0, context) && can_succeed(&self.0.1, context)
                    && self.0.2.builds(context, Err(e))
                ||| can_succeed(&self.0.0, context) && can_succeed(&self.0.1, context)
                    && can_succeed(&self.0.2, context) && self.0.3.builds(context, Err(e))
                ||| can_succeed(&self.0.0, context) && can_succeed(&self.0.1, context)
                    && can_succeed(&self.0.2, context) && can_succeed(&self.0.3, context)
                    && self.0.4.builds(context, Err(e))
                ||| can_succeed(&self.0.0, context) && can_succeed(&self.0.1, context)
                    && can_succeed(&self.0.2, context) && can_succeed(&self.0.3, context)
                    && can_succeed(&self.0.4, context) && self.0.5.builds(context, Err(e))
            },
        }
    }

    open spec fn is_clone(&self, other: &Self) -> bool {
        &&& self.0.0.is_clone(&other.0.0)
        &&& self.0.1.is_clone(&other.0.1)
        &&& self.0.2.is_clone(&other.0.2)
        &&& self.0.3.is_clone(&other.0.3)
        &&& self.0.4.is_clone(&other.0.4)
        &&& self.0.5.is_clone(&other.0.5)
    }

    fn build_template(&self, context: &TemplateContext) -> (r: Result<Self::Output, TemplateError>) {
        let v0 = match self.0.0.build_template(context) {
            Ok(v) => v,
            Err(e) => {
                return Err(e);
            },
        };
        let v1 = match self.0.1.build_template(context) {
            Ok(v) => v,
            Err(e) => {
                return Err(e);
            },
        };
        let v2 = match self.0.2.build_template(context) {
            Ok(v) => v,
            Err(e) => {
                return Err(e);
            },
        };
        let v3 = match self.0.3.build_template(context) {
            Ok(v) => v,
            Err(e) => {
                return Err(e);
            },
        };
        let v4 = match self.0.4.build_template(context) {
            Ok(v) => v,
            Err(e) => {
                return Err(e);
            },
        };
        let v5 = match self.0.5.build_template(context) {
            Ok(v) => v,
            Err(e) => {
                return Err(e);
            },
        };
        Ok((v0, v1, v2, v3, v4, v5))
    }

    fn clone_template(&self) -> (r: Self) {
        TemplateTuple((
            self.0.0.clone_template(),
            self.0.1.clone_template(),
            self.0.2.clone_template(),
            self.0.3.clone_template(),
            self.0.4.clone_template(),
            self.0.5.clone_template(),
        ))
    }
}

impl<
    A: Template,
    B: Template,
    C: Template,
    D: Template,
    E: Template,
    F: Template,
    G: Template,
> Template for TemplateTuple<(A, B, C, D, E, F, G)> {
    type Output = (A::Output, B::Output, C::Output, D::Output, E::Output, F::Output, G::Output);

    open spec fn can_build(&self) -> bool {
        &&& self.0.0.can_build()
        &&& self.0.1.can_build()
        &&& self.0.2.can_build()
        &&& self.0.3.can_build()
        &&& self.0.4.can_build()
        &&& self.0.5.can_build()
        &&& self.0.6.can_build()
    }

    open spec fn builds(
        &self,
        context: TemplateContext,
        r: Result<Self::Output, TemplateError>,
    ) -> bool {
        match r {
            Ok(out) => {
                &&& self.0.0.builds(context, Ok(out.0))
                &&& self.0.1.builds(context, Ok(out.1))
                &&& self.0.2.builds(context, Ok(out.2))
                &&& self.0.3.builds(context, Ok(out.3))
                &&& self.0.4.builds(context, Ok(out.4))
                &&& self.0.5.builds(context, Ok(out.5))
                &&& self.0.6.builds(context, Ok(out.6))
            },
            Err(e) => {
                ||| self.0.0.builds(context, Err(e))
                ||| can_succeed(&self.0.0, context) && self.0.1.builds(context, Err(e))
                ||| can_succeed(&self.0.0, context) && can_succeed(&self.0.1, context)
                    && self.0.2.builds(context, Err(e))
                ||| can_succeed(&self.0.0, context) && can_succeed(&self.0.1, context)
                    && can_succeed(&self.0.2, context) && self.0.3.builds(context, Err(e))
                ||| can_succeed(&self.0.0, context) && can_succeed(&self.0.1, context)
                    && can_succeed(&self.0.2, context) && can_succeed(&self.0.3, context)
                    && self.0.4.builds(context, Err(e))
                ||| can_succeed(&self.0.0, context) && can_succeed(&self.0.1, context)
                    && can_succeed(&self.0.2, context) && can_succeed(&self.0.3, context)
                    && can_succeed(&self.0.4, context) && self.0.5.builds(context, Err(e))
                ||| can_succeed(&self.0.0, context) && can_succeed(&self.0.1, context)
                    && can_succeed(&self.0.2, context) && can_succeed(&self.0.3, context)
                    && can_succeed(&self.0.4, context) && can_succeed(&self.0.5, context)
                    && self.0.6.builds(context, Err(e))
            },
        }
    }

    open spec fn is_clone(&self, other: &Self) -> bool {
        &&& self.0.0.is_clone(&other.0.0)
        &&& self.0.1.is_clone(&other.0.1)
        &&& self.0.2.is_clone(&other.0.2)
        &&& self.0.3.is_clone(&other.0.3)
        &&& self.0.4.is_clone(&other.0.4)
        &&& self.0.5.is_clone(&other.0.5)
        &&& self.0.6.is_clone(&other.0.6)
    }

    fn build_template(&self, context: &TemplateContext) -> (r: Result<Self::Output, TemplateError>) {
        let v0 = match self.0.0.build_template(context) {
            Ok(v) => v,
            Err(e) => {
                return Err(e);
            },
        };
        let v1 = match self.0.1.build_template(context) {
            Ok(v) => v,
            Err(e) => {
                return Err(e);
            },
        };
        let v2 = match self.0.2.build_template(context) {
            Ok(v) => v,
            Err(e) => {
                return Err(e);
            },
        };
        let v3 = match self.0.3.build_template(context) {
            Ok(v) => v,
            Err(e) => {
                return Err(e);
            },
        };
        let v4 = match self.0.4.build_template(context) {
            Ok(v) => v,
            Err(e) => {
                return Err(e);
            },
        };
        let v5 = match self.0.5.build_template(context) {
            Ok(v) => v,
            Err(e) => {
                return Err(e);
            },
        };
        let v6 = match self.0.6.build_template(context) {
            Ok(v) => v,
            Err(e) => {
                return Err(e);
            },
        };
        Ok((v0, v1, v2, v3, v4, v5, v6))
    }

    fn clone_template(&self) -> (r: Self) {
        TemplateTuple((
            self.0.0.clone_template(),
            self.0.1.clone_template(),
            self.0.2.clone_template(),
            self.0.3.clone_template(),
            self.0.4.clone_template(),
            self.0.5.clone_template(),
            self.0.6.clone_template(),
        ))
    }
}

impl<
    A: Template,
    B: Template,
    C: Template,
    D: Template,
    E: Template,
    F: Template,
    G: Template,
    H: Template,
> Template for TemplateTuple<(A, B, C, D, E, F, G, H)> {
    type Output = (
        A::Output,
        B::Output,
        C::Output,
        D::Output,
        E::Output,
        F::Output,
        G::Output,
        H::Output,
    );

    open spec fn can_build(&self) -> bool {
        &&& self.0.0.can_build()
        &&& self.0.1.can_build()
        &&& self.0.2.can_build()
        &&& self.0.3.can_build()
        &&& self.0.4.can_build()
        &&& self.0.5.can_build()
        &&& self.0.6.can_build()
        &&& self.0.7.can_build()
    }

    open spec fn builds(
        &self,
        context: TemplateContext,
        r: Result<Self::Output, TemplateError>,
    ) -> bool {
        match r {
            Ok(out) => {
                &&& self.0.0.builds(context, Ok(out.0))
                &&& self.0.1.builds(context, Ok(out.1))
                &&& self.0.2.builds(context, Ok(out.2))
                &&& self.0.3.builds(context, Ok(out.3))
                &&& self.0.4.builds(context, Ok(out.4))
                &&& self.0.5.builds(context, Ok(out.5))
                &&& self.0.6.builds(context, Ok(out.6))
                &&& self.0.7.builds(context, Ok(out.7))
            },
            Err(e) => {
                ||| self.0.0.builds(context, Err(e))
                ||| can_succeed(&self.0.0, context) && self.0.1.builds(context, Err(e))
                ||| can_succeed(&self.0.0, context) && can_succeed(&self.0.1, context)
                    && self.0.2.builds(context, Err(e))
                ||| can_succeed(&self.0.0, context) && can_succeed(&self.0.1, context)
                    && can_succeed(&self.0.2, context) && self.0.3.builds(context, Err(e))
                ||| can_succeed(&self.0.0, context) && can_succeed(&self.0.1, context)
                    && can_succeed(&self.0.2, context) && can_succeed(&self.0.3, context)
                    && self.0.4.builds(context, Err(e))
                ||| can_succeed(&self.0.0, context) && can_succeed(&self.0.1, context)
                    && can_succeed(&self.0.2, context) && can_succeed(&self.0.3, context)
                    && can_succeed(&self.0.4, context) && self.0.5.builds(context, Err(e))
                ||| can_succeed(&self.0.0, context) && can_succeed(&self.0.1, context)
                    && can_succeed(&self.0.2, context) && can_succeed(&self.0.3, context)
                    && can_succeed(&self.0.4, context) && can_succeed(&self.0.5, context)
                    && self.0.6.builds(context, Err(e))
                ||| can_succeed(&self.0.0, context) && can_succeed(&self.0.1, context)
                    && can_succeed(&self.0.2, context) && can_succeed(&self.0.3, context)
                    && can_succeed(&self.0.4, context) && can_succeed(&self.0.5, context)
                    && can_succeed(&self.0.6, context) && self.0.7.builds(context, Err(e))
            },
        }
    }

    open spec fn is_clone(&self, other: &Self) -> bool {
        &&& self.0.0.is_clone(&other.0.0)
        &&& self.0.1.is_clone(&other.0.1)
        &&& self.0.2.is_clone(&other.0.2)
        &&& self.0.3.is_clone(&other.0.3)
        &&& self.0.4.is_clone(&other.0.4)
        &&& self.0.5.is_clone(&other.0.5)
        &&& self.0.6.is_clone(&other.0.6)
        &&& self.0.7.is_clone(&other.0.7)
    }

    fn build_template(&self, context: &TemplateContext) -> (r: Result<Self::Output, TemplateError>) {
        let v0 = match self.0.0.build_template(context) {
            Ok(v) => v,
            Err(e) => {
                return Err(e);
            },
        };
        let v1 = match self.0.1.build_template(context) {
            Ok(v) => v,
            Err(e) => {
                return Err(e);
            },
        };
        let v2 = match self.0.2.build_template(context) {
            Ok(v) => v,
            Err(e) => {
                return Err(e);
            },
        };
        let v3 = match self.0.3.build_template(context) {
            Ok(v) => v,
            Err(e) => {
                return Err(e);
            },
        };
        let v4 = match self.0.4.build_template(context) {
            Ok(v) => v,
            Err(e) => {
                return Err(e);
            },
        };
        let v5 = match self.0.5.build_template(context) {
            Ok(v) => v,
            Err(e) => {
                return Err(e);
            },
        };
        let v6 = match self.0.6.build_template(context) {
            Ok(v) => v,
            Err(e) => {
                return Err(e);
            },
        };
        let v7 = match self.0.7.build_template(context) {
            Ok(v) => v,
            Err(e) => {
                return Err(e);
            },
        };
        Ok((v0, v1, v2, v3, v4, v5, v6, v7))
    }

    fn clone_template(&self) -> (r: Self) {
        TemplateTuple((
            self.0.0.clone_template(),
            self.0.1.clone_template(),
            self.0.2.clone_template(),
            self.0.3.clone_template(),
            self.0.4.clone_template(),
            self.0.5.clone_template(),
            self.0.6.clone_template(),
            self.0.7.clone_template(),
        ))
    }
}

impl<
    A: Template,
    B: Template,
    C: Template,
    D: Template,
    E: Template,
    F: Template,
    G: Template,
    H: Template,
    I: Template,
> Template for TemplateTuple<(A, B, C, D, E, F, G, H, I)> {
    type Output = (
        A::Output,
        B::Output,
        C::Output,
        D::Output,
        E::Output,
        F::Output,
        G::Output,
        H::Output,
        I::Output,
    );

    open spec fn can_build(&self) -> bool {
        &&& self.0.0.can_build()
        &&& self.0.1.can_build()
        &&& self.0.2.can_build()
        &&& self.0.3.can_build()
        &&& self.0.4.can_build()
        &&& self.0.5.can_build()
        &&& self.0.6.can_build()
        &&& self.0.7.can_build()
        &&& self.0.8.can_build()
    }

    open spec fn builds(
        &self,
        context: TemplateContext,
        r: Result<Self::Output, TemplateError>,
    ) -> bool {
        match r {
            Ok(out) => {
                &&& self.0.0.builds(context, Ok(out.0))
                &&& self.0.1.builds(context, Ok(out.1))
                &&& self.0.2.builds(context, Ok(out.2))
                &&& self.0.3.builds(context, Ok(out.3))
                &&& self.0.4.builds(context, Ok(out.4))
                &&& self.0.5.builds(context, Ok(out.5))
                &&& self.0.6.builds(context, Ok(out.6))
                &&& self.0.7.builds(context, Ok(out.7))
                &&& self.0.8.builds(context, Ok(out.8))
            },
            Err(e) => {
                ||| self.0.0.builds(context, Err(e))
                ||| can_succeed(&self.0.0, context) && self.0.1.builds(context, Err(e))
                ||| can_succeed(&self.0.0, context) && can_succeed(&self.0.1, context)
                    && self.0.2.builds(context, Err(e))
                ||| can_succeed(&self.0.0, context) && can_succeed(&self.0.1, context)
                    && can_succeed(&self.0.2, context) && self.0.3.builds(context, Err(e))
                ||| can_succeed(&self.0.0, context) && can_succeed(&self.0.1, context)
                    && can_succeed(&self.0.2, context) && can_succeed(&self.0.3, context)
                    && self.0.4.builds(context, Err(e))
                ||| can_succeed(&self.0.0, context) && can_succeed(&self.0.1, context)
                    && can_succeed(&self.0.2, context) && can_succeed(&self.0.3, context)
                    && can_succeed(&self.0.4, context) && self.0.5.builds(context, Err(e))
                ||| can_succeed(&self.0.0, context) && can_succeed(&self.0.1, context)
                    && can_succeed(&self.0.2, context) && can_succeed(&self.0.3, context)
                    && can_succeed(&self.0.4, context) && can_succeed(&self.0.5, context)
                    && self.0.6.builds(context, Err(e))
                ||| can_succeed(&self.0.0, context) && can_succeed(&self.0.1, context)
                    && can_succeed(&self.0.2, context) && can_succeed(&self.0.3, context)
                    && can_succeed(&self.0.4, context) && can_succeed(&self.0.5, context)
                    && can_succeed(&self.0.6, context) && self.0.7.builds(context, Err(e))
                ||| can_succeed(&self.0.0, context) && can_succeed(&self.0.1, context)
                    && can_succeed(&self.0.2, context) && can_succeed(&self.0.3, context)
                    && can_succeed(&self.0.4, context) && can_succeed(&self.0.5, context)
                    && can_succeed(&self.0.6, context) && can_succeed(&self.0.7, context)
                    && self.0.8.builds(context, Err(e))
            },
        }
    }

    open spec fn is_clone(&self, other: &Self) -> bool {
        &&& self.0.0.is_clone(&other.0.0)
        &&& self.0.1.is_clone(&other.0.1)
        &&& self.0.2.is_clone(&other.0.2)
        &&& self.0.3.is_clone(&other.0.3)
        &&& self.0.4.is_clone(&other.0.4)
        &&& self.0.5.is_clone(&other.0.5)
        &&& self.0.6.is_clone(&other.0.6)
        &&& self.0.7.is_clone(&other.0.7)
        &&& self.0.8.is_clone(&other.0.8)
    }

    fn build_template(&self, context: &TemplateContext) -> (r: Result<Self::Output, TemplateError>) {
        let v0 = match self.0.0.build_template(context) {
            Ok(v) => v,
            Err(e) => {
                return Err(e);
            },
        };
        let v1 = match self.0.1.build_template(context) {
            Ok(v) => v,
            Err(e) => {
                return Err(e);
            },
        };
        let v2 = match self.0.2.build_template(context) {
            Ok(v) => v,
            Err(e) => {
                return Err(e);
            },
        };
        let v3 = match self.0.3.build_template(context) {
            Ok(v) => v,
            Err(e) => {
                return Err(e);
            },
        };
        let v4 = match self.0.4.build_template(context) {
            Ok(v) => v,
            Err(e) => {
                return Err(e);
            },
        };
        let v5 = match self.0.5.build_template(context) {
            Ok(v) => v,
            Err(e) => {
                return Err(e);
            },
        };
        let v6 = match self.0.6.build_template(context) {
            Ok(v) => v,
            Err(e) => {
                return Err(e);
            },
        };
        let v7 = match self.0.7.build_template(context) {
            Ok(v) => v,
            Err(e) => {
                return Err(e);
            },
        };
        let v8 = match self.0.8.build_template(context) {
            Ok(v) => v,
            Err(e) => {
                return Err(e);
            },
        };
        Ok((v0, v1, v2, v3, v4, v5, v6, v7, v8))
    }

    fn clone_template(&self) -> (r: Self) {
        TemplateTuple((
            self.0.0.clone_template(),
            self.0.1.clone_template(),
            self.0.2.clone_template(),
            self.0.3.clone_template(),
            self.0.4.clone_template(),
            self.0.5.clone_template(),
            self.0.6.clone_template(),
            self.0.7.clone_template(),
            self.0.8.clone_template(),
        ))
    }
}

impl<
    A: Template,
    B: Template,
    C: Template,
    D: Template,
    E: Template,
    F: Template,
    G: Template,
    H: Template,
    I: Template,
    J: Template,
> Template for TemplateTuple<(A, B, C, D, E, F, G, H, I, J)> {
    type Output = (
        A::Output,
        B::Output,
        C::Output,
        D::Output,
        E::Output,
        F::Output,
        G::Output,
        H::Output,
        I::Output,
        J::Output,
    );

    open spec fn can_build(&self) -> bool {
        &&& self.0.0.can_build()
        &&& self.0.1.can_build()
        &&& self.0.2.can_build()
        &&& self.0.3.can_build()
        &&& self.0.4.can_build()
        &&& self.0.5.can_build()
        &&& self.0.6.can_build()
        &&& self.0.7.can_build()
        &&& self.0.8.can_build()
        &&& self.0.9.can_build()
    }

    open spec fn builds(
        &self,
        context: TemplateContext,
        r: Result<Self::Output, TemplateError>,
    ) -> bool {
        match r {
            Ok(out) => {
                &&& self.0.0.builds(context, Ok(out.0))
                &&& self.0.1.builds(context, Ok(out.1))
                &&& self.0.2.builds(context, Ok(out.2))
                &&& self.0.3.builds(context, Ok(out.3))
                &&& self.0.4.builds(context, Ok(out.4))
                &&& self.0.5.builds(context, Ok(out.5))
                &&& self.0.6.builds(context, Ok(out.6))
                &&& self.0.7.builds(context, Ok(out.7))
                &&& self.0.8.builds(context, Ok(out.8))
                &&& self.0.9.builds(context, Ok(out.9))
            },
            Err(e) => {
                ||| self.0.0.builds(context, Err(e))
                ||| can_succeed(&self.0.0, context) && self.0.1.builds(context, Err(e))
                ||| can_succeed(&self.0.0, context) && can_succeed(&self.0.1, context)
                    && self.0.2.builds(context, Err(e))
                ||| can_succeed(&self.0.0, context) && can_succeed(&self.0.1, context)
                    && can_succeed(&self.0.2, context) && self.0.3.builds(context, Err(e))
                ||| can_succeed(&self.0.0, context) && can_succeed(&self.0.1, context)
                    && can_succeed(&self.0.2, context) && can_succeed(&self.0.3, context)
                    && self.0.4.builds(context, Err(e))
                ||| can_succeed(&self.0.0, context) && can_succeed(&self.0.1, context)
                    && can_succeed(&self.0.2, context) && can_succeed(&self.0.3, context)
                    && can_succeed(&self.0.4, context) && self.0.5.builds(context, Err(e))
                ||| can_succeed(&self.0.0, context) && can_succeed(&self.0.1, context)
                    && can_succeed(&self.0.2, context) && can_succeed(&self.0.3, context)
                    && can_succeed(&self.0.4, context) && can_succeed(&self.0.5, context)
                    && self.0.6.builds(context, Err(e))
                ||| can_succeed(&self.0.0, context) && can_succeed(&self.0.1, context)
                    && can_succeed(&self.0.2, context) && can_succeed(&self.0.3, context)
                    && can_succeed(&self.0.4, context) && can_succeed(&self.0.5, context)
                    && can_succeed(&self.0.6, context) && self.0.7.builds(context, Err(e))
                ||| can_succeed(&self.0.0, context) && can_succeed(&self.0.1, context)
                    && can_succeed(&self.0.2, context) && can_succeed(&self.0.3, context)
                    && can_succeed(&self.0.4, context) && can_succeed(&self.0.5, context)
                    && can_succeed(&self.0.6, context) && can_succeed(&self.0.7, context)
                    && self.0.8.builds(context, Err(e))
                ||| can_succeed(&self.0.0, context) && can_succeed(&self.0.1, context)
                    && can_succeed(&self.0.2, context) && can_succeed(&self.0.3, context)
                    && can_succeed(&self.0.4, context) && can_succeed(&self.0.5, context)
                    && can_succeed(&self.0.6, context) && can_succeed(&self.0.7, context)
                    && can_succeed(&self.0.8, context) && self.0.9.builds(context, Err(e))
            },
        }
    }

    open spec fn is_clone(&self, other: &Self) -> bool {
        &&& self.0.0.is_clone(&other.0.0)
        &&& self.0.1.is_clone(&other.0.1)
        &&& self.0.2.is_clone(&other.0.2)
        &&& self.0.3.is_clone(&other.0.3)
        &&& self.0.4.is_clone(&other.0.4)
        &&& self.0.5.is_clone(&other.0.5)
        &&& self.0.6.is_clone(&other.0.6)
        &&& self.0.7.is_clone(&other.0.7)
        &&& self.0.8.is_clone(&other.0.8)
        &&& self.0.9.is_clone(&other.0.9)
    }

    fn build_template(&self, context: &TemplateContext) -> (r: Result<Self::Output, TemplateError>) {
        let v0 = match self.0.0.build_template(context) {
            Ok(v) => v,
            Err(e) => {
                return Err(e);
            },
        };
        let v1 = match self.0.1.build_template(context) {
            Ok(v) => v,
            Err(e) => {
                return Err(e);
            },
        };
        let v2 = match self.0.2.build_template(context) {
            Ok(v) => v,
            Err(e) => {
                return Err(e);
            },
        };
        let v3 = match self.0.3.build_template(context) {
            Ok(v) => v,
            Err(e) => {
                return Err(e);
            },
        };
        let v4 = match self.0.4.build_template(context) {
            Ok(v) => v,
            Err(e) => {
                return Err(e);
            },
        };
        let v5 = match self.0.5.build_template(context) {
            Ok(v) => v,
            Err(e) => {
                return Err(e);
            },
        };
        let v6 = match self.0.6.build_template(context) {
            Ok(v) => v,
            Err(e) => {
                return Err(e);
            },
        };
        let v7 = match self.0.7.build_template(context) {
            Ok(v) => v,
            Err(e) => {
                return Err(e);
            },
        };
        let v8 = match self.0.8.build_template(context) {
            Ok(v) => v,
            Err(e) => {
                return Err(e);
            },
        };
        let v9 = match self.0.9.build_template(context) {
            Ok(v) => v,
            Err(e) => {
                return Err(e);
            },
        };
        Ok((v0, v1, v2, v3, v4, v5, v6, v7, v8, v9))
    }

    fn clone_template(&self) -> (r: Self) {
        TemplateTuple((
            self.0.0.clone_template(),
            self.0.1.clone_template(),
            self.0.2.clone_template(),
            self.0.3.clone_template(),
            self.0.4.clone_template(),
            self.0.5.clone_template(),
            self.0.6.clone_template(),
            self.0.7.clone_template(),
            self.0.8.clone_template(),
            self.0.9.clone_template(),
        ))
    }
}

impl<
    A: Template,
    B: Template,
    C: Template,
    D: Template,
    E: Template,
    F: Template,
    G: Template,
    H: Template,
    I: Template,
    J: Template,
    K: Template,
> Template for TemplateTuple<(A, B, C, D, E, F, G, H, I, J, K)> {
    type Output = (
        A::Output,
        B::Output,
        C::Output,
        D::Output,
        E::Output,
        F::Output,
        G::Output,
        H::Output,
        I::Output,
        J::Output,
        K::Output,
    );

    open spec fn can_build(&self) -> bool {
        &&& self.0.0.can_build()
        &&& self.0.1.can_build()
        &&& self.0.2.can_build()
        &&& self.0.3.can_build()
        &&& self.0.4.can_build()
        &&& self.0.5.can_build()
        &&& self.0.6.can_build()
        &&& self.0.7.can_build()
        &&& self.0.8.can_build()
        &&& self.0.9.can_build()
        &&& self.0.10.can_build()
    }

    open spec fn builds(
        &self,
        context: TemplateContext,
        r: Result<Self::Output, TemplateError>,
    ) -> bool {
        match r {
            Ok(out) => {
                &&& self.0.0.builds(context, Ok(out.0))
                &&& self.0.1.builds(context, Ok(out.1))
                &&& self.0.2.builds(context, Ok(out.2))
                &&& self.0.3.builds(context, Ok(out.3))
                &&& self.0.4.builds(context, Ok(out.4))
                &&& self.0.5.builds(context, Ok(out.5))
                &&& self.0.6.builds(context, Ok(out.6))
                &&& self.0.7.builds(context, Ok(out.7))
                &&& self.0.8.builds(context, Ok(out.8))
                &&& self.0.9.builds(context, Ok(out.9))
                &&& self.0.10.builds(context, Ok(out.10))
            },
            Err(e) => {
                ||| self.0.0.builds(context, Err(e))
                ||| can_succeed(&self.0.0, context) && self.0.1.builds(context, Err(e))
                ||| can_succeed(&self.0.0, context) && can_succeed(&self.0.1, context)
                    && self.0.2.builds(context, Err(e))
                ||| can_succeed(&self.0.0, context) && can_succeed(&self.0.1, context)
                    && can_succeed(&self.0.2, context) && self.0.3.builds(context, Err(e))
                ||| can_succeed(&self.0.0, context) && can_succeed(&self.0.1, context)
                    && can_succeed(&self.0.2, context) && can_succeed(&self.0.3, context)
                    && self.0.4.builds(context, Err(e))
                ||| can_succeed(&self.0.0, context) && can_succeed(&self.0.1, context)
                    && can_succeed(&self.0.2, context) && can_succeed(&self.0.3, context)
                    && can_succeed(&self.0.4, context) && self.0.5.builds(context, Err(e))
                ||| can_succeed(&self.0.0, context) && can_succeed(&self.0.1, context)
                    && can_succeed(&self.0.2, context) && can_succeed(&self.0.3, context)
                    && can_succeed(&self.0.4, context) && can_succeed(&self.0.5, context)
                    && self.0.6.builds(context, Err(e))
                ||| can_succeed(&self.0.0, context) && can_succeed(&self.0.1, context)
                    && can_succeed(&self.0.2, context) && can_succeed(&self.0.3, context)
                    && can_succeed(&self.0.4, context) && can_succeed(&self.0.5, context)
                    && can_succeed(&self.0.6, context) && self.0.7.builds(context, Err(e))
                ||| can_succeed(&self.0.0, context) && can_succeed(&self.0.1, context)
                    && can_succeed(&self.0.2, context) && can_succeed(&self.0.3, context)
                    && can_succeed(&self.0.4, context) && can_succeed(&self.0.5, context)
                    && can_succeed(&self.0.6, context) && can_succeed(&self.0.7, context)
                    && self.0.8.builds(context, Err(e))
                ||| can_succeed(&self.0.0, context) && can_succeed(&self.0.1, context)
                    && can_succeed(&self.0.2, context) && can_succeed(&self.0.3, context)
                    && can_succeed(&self.0.4, context) && can_succeed(&self.0.5, context)
                    && can_succeed(&self.0.6, context) && can_succeed(&self.0.7, context)
                    && can_succeed(&self.0.8, context) && self.0.9.builds(context, Err(e))
                ||| can_succeed(&self.0.0, context) && can_succeed(&self.0.1, context)
                    && can_succeed(&self.0.2, context) && can_succeed(&self.0.3, context)
                    && can_succeed(&self.0.4, context) && can_succeed(&self.0.5, context)
                    && can_succeed(&self.0.6, context) && can_succeed(&self.0.7, context)
                    && can_succeed(&self.0.8, context) && can_succeed(&self.0.9, context)
                    && self.0.10.builds(context, Err(e))
            },
        }
    }

    open spec fn is_clone(&self, other: &Self) -> bool {
        &&& self.0.0.is_clone(&other.0.0)
        &&& self.0.1.is_clone(&other.0.1)
        &&& self.0.2.is_clone(&other.0.2)
        &&& self.0.3.is_clone(&other.0.3)
        &&& self.0.4.is_clone(&other.0.4)
        &&& self.0.5.is_clone(&other.0.5)
        &&& self.0.6.is_clone(&other.0.6)
        &&& self.0.7.is_clone(&other.0.7)
        &&& self.0.8.is_clone(&other.0.8)
        &&& self.0.9.is_clone(&other.0.9)
        &&& self.0.10.is_clone(&other.0.10)
    }

    fn build_template(&self, context: &TemplateContext) -> (r: Result<Self::Output, TemplateError>) {
        let v0 = match self.0.0.build_template(context) {
            Ok(v) => v,
            Err(e) => {
                return Err(e);
            },
        };
        let v1 = match self.0.1.build_template(context) {
            Ok(v) => v,
            Err(e) => {
                return Err(e);
            },
        };
        let v2 = match self.0.2.build_template(context) {
            Ok(v) => v,
            Err(e) => {
                return Err(e);
            },
        };
        let v3 = match self.0.3.build_template(context) {
            Ok(v) => v,
            Err(e) => {
                return Err(e);
            },
        };
        let v4 = match self.0.4.build_template(context) {
            Ok(v) => v,
            Err(e) => {
                return Err(e);
            },
        };
        let v5 = match self.0.5.build_template(context) {
            Ok(v) => v,
            Err(e) => {
                return Err(e);
            },
        };
        let v6 = match self.0.6.build_template(context) {
            Ok(v) => v,
            Err(e) => {
                return Err(e);
            },
        };
        let v7 = match self.0.7.build_template(context) {
            Ok(v) => v,
            Err(e) => {
                return Err(e);
            },
        };
        let v8 = match self.0.8.build_template(context) {
            Ok(v) => v,
            Err(e) => {
                return Err(e);
            },
        };
        let v9 = match self.0.9.build_template(context) {
            Ok(v) => v,
            Err(e) => {
                return Err(e);
            },
        };
        let v10 = match self.0.10.build_template(context) {
            Ok(v) => v,
            Err(e) => {
                return Err(e);
            },
        };
        Ok((v0, v1, v2, v3, v4, v5, v6, v7, v8, v9, v10))
    }

    fn clone_template(&self) -> (r: Self) {
        TemplateTuple((
            self.0.0.clone_template(),
            self.0.1.clone_template(),
            self.0.2.clone_template(),
            self.0.3.clone_template(),
            self.0.4.clone_template(),
            self.0.5.clone_template(),
            self.0.6.clone_template(),
            self.0.7.clone_template(),
            self.0.8.clone_template(),
            self.0.9.clone_template(),
            self.0.10.clone_template(),
        ))
    }
}

impl<
    A: Template,
    B: Template,
    C: Template,
    D: Template,
    E: Template,
    F: Template,
    G: Template,
    H: Template,
    I: Template,
    J: Template,
    K: Template,
    L: Template,
> Template for TemplateTuple<(A, B, C, D, E, F, G, H, I, J, K, L)> {
    type Output = (
        A::Output,
        B::Output,
        C::Output,
        D::Output,
        E::Output,
        F::Output,
        G::Output,
        H::Output,
        I::Output,
        J::Output,
        K::Output,
        L::Output,
    );

    open spec fn can_build(&self) -> bool {
        &&& self.0.0.can_build()
        &&& self.0.1.can_build()
        &&& self.0.2.can_build()
        &&& self.0.3.can_build()
        &&& self.0.4.can_build()
        &&& self.0.5.can_build()
        &&& self.0.6.can_build()
        &&& self.0.7.can_build()
        &&& self.0.8.can_build()
        &&& self.0.9.can_build()
        &&& self.0.10.can_build()
        &&& self.0.11.can_build()
    }

    open spec fn builds(
        &self,
        context: TemplateContext,
        r: Result<Self::Output, TemplateError>,
    ) -> bool {
        match r {
            Ok(out) => {
                &&& self.0.0.builds(context, Ok(out.0))
                &&& self.0.1.builds(context, Ok(out.1))
                &&& self.0.2.builds(context, Ok(out.2))
                &&& self.0.3.builds(context, Ok(out.3))
                &&& self.0.4.builds(context, Ok(out.4))
                &&& self.0.5.builds(context, Ok(out.5))
                &&& self.0.6.builds(context, Ok(out.6))
                &&& self.0.7.builds(context, Ok(out.7))
                &&& self.0.8.builds(context, Ok(out.8))
                &&& self.0.9.builds(context, Ok(out.9))
                &&& self.0.10.builds(context, Ok(out.10))
                &&& self.0.11.builds(context, Ok(out.11))
            },
            Err(e) => {
                ||| self.0.0.builds(context, Err(e))
                ||| can_succeed(&self.0.0, context) && self.0.1.builds(context, Err(e))
                ||| can_succeed(&self.0.0, context) && can_succeed(&self.0.1, context)
                    && self.0.2.builds(context, Err(e))
                ||| can_succeed(&self.0.0, context) && can_succeed(&self.0.1, context)
                    && can_succeed(&self.0.2, context) && self.0.3.builds(context, Err(e))
                ||| can_succeed(&self.0.0, context) && can_succeed(&self.0.1, context)
                    && can_succeed(&self.0.2, context) && can_succeed(&self.0.3, context)
                    && self.0.4.builds(context, Err(e))
                ||| can_succeed(&self.0.0, context) && can_succeed(&self.0.1, context)
                    && can_succeed(&self.0.2, context) && can_succeed(&self.0.3, context)
                    && can_succeed(&self.0.4, context) && self.0.5.builds(context, Err(e))
                ||| can_succeed(&self.0.0, context) && can_succeed(&self.0.1, context)
                    && can_succeed(&self.0.2, context) && can_succeed(&self.0.3, context)
                    && can_succeed(&self.0.4, context) && can_succeed(&self.0.5, context)
                    && self.0.6.builds(context, Err(e))
                ||| can_succeed(&self.0.0, context) && can_succeed(&self.0.1, context)
                    && can_succeed(&self.0.2, context) && can_succeed(&self.0.3, context)
                    && can_succeed(&self.0.4, context) && can_succeed(&self.0.5, context)
                    && can_succeed(&self.0.6, context) && self.0.7.builds(context, Err(e))
                ||| can_succeed(&self.0.0, context) && can_succeed(&self.0.1, context)
                    && can_succeed(&self.0.2, context) && can_succeed(&self.0.3, context)
                    && can_succeed(&self.0.4, context) && can_succeed(&self.0.5, context)
                    && can_succeed(&self.0.6, context) && can_succeed(&self.0.7, context)
                    && self.0.8.builds(context, Err(e))
                ||| can_succeed(&self.0.0, context) && can_succeed(&self.0.1, context)
                    && can_succeed(&self.0.2, context) && can_succeed(&self.0.3, context)
                    && can_succeed(&self.0.4, context) && can_succeed(&self.0.5, context)
                    && can_succeed(&self.0.6, context) && can_succeed(&self.0.7, context)
                    && can_succeed(&self.0.8, context) && self.0.9.builds(context, Err(e))
                ||| can_succeed(&self.0.0, context) && can_succeed(&self.0.1, context)
                    && can_succeed(&self.0.2, context) && can_succeed(&self.0.3, context)
                    && can_succeed(&self.0.4, context) && can_succeed(&self.0.5, context)
                    && can_succeed(&self.0.6, context) && can_succeed(&self.0.7, context)
                    && can_succeed(&self.0.8, context) && can_succeed(&self.0.9, context)
                    && self.0.10.builds(context, Err(e))
                ||| can_succeed(&self.0.0, context) && can_succeed(&self.0.1, context)
                    && can_succeed(&self.0.2, context) && can_succeed(&self.0.3, context)
                    && can_succeed(&self.0.4, context) && can_succeed(&self.0.5, context)
                    && can_succeed(&self.0.6, context) && can_succeed(&self.0.7, context)
                    && can_succeed(&self.0.8, context) && can_succeed(&self.0.9, context)
                    && can_succeed(&self.0.10, context) && self.0.11.builds(context, Err(e))
            },
        }
    }

    open spec fn is_clone(&self, other: &Self) -> bool {
        &&& self.0.0.is_clone(&other.0.0)
        &&& self.0.1.is_clone(&other.0.1)
        &&& self.0.2.is_clone(&other.0.2)
        &&& self.0.3.is_clone(&other.0.3)
        &&& self.0.4.is_clone(&other.0.4)
        &&& self.0.5.is_clone(&other.0.5)
        &&& self.0.6.is_clone(&other.0.6)
        &&& self.0.7.is_clone(&other.0.7)
        &&& self.0.8.is_clone(&other.0.8)
        &&& self.0.9.is_clone(&other.0.9)
        &&& self.0.10.is_clone(&other.0.10)
        &&& self.0.11.is_clone(&other.0.11)
    }

    fn build_template(&self, context: &TemplateContext) -> (r: Result<Self::Output, TemplateError>) {
        let v0 = match self.0.0.build_template(context) {
            Ok(v) => v,
            Err(e) => {
                return Err(e);
            },
        };
        let v1 = match self.0.1.build_template(context) {
            Ok(v) => v,
            Err(e) => {
                return Err(e);
            },
        };
        let v2 = match self.0.2.build_template(context) {
            Ok(v) => v,
            Err(e) => {
                return Err(e);
            },
        };
        let v3 = match self.0.3.build_template(context) {
            Ok(v) => v,
            Err(e) => {
                return Err(e);
            },
        };
        let v4 = match self.0.4.build_template(context) {
            Ok(v) => v,
            Err(e) => {
                return Err(e);
            },
        };
        let v5 = match self.0.5.build_template(context) {
            Ok(v) => v,
            Err(e) => {
                return Err(e);
            },
        };
        let v6 = match self.0.6.build_template(context) {
            Ok(v) => v,
            Err(e) => {
                return Err(e);
            },
        };
        let v7 = match self.0.7.build_template(context) {
            Ok(v) => v,
            Err(e) => {
                return Err(e);
            },
        };
        let v8 = match self.0.8.build_template(context) {
            Ok(v) => v,
            Err(e) => {
                return Err(e);
            },
        };
        let v9 = match self.0.9.build_template(context) {
            Ok(v) => v,
            Err(e) => {
                return Err(e);
            },
        };
        let v10 = match self.0.10.build_template(context) {
            Ok(v) => v,
            Err(e) => {
                return Err(e);
            },
        };
        let v11 = match self.0.11.build_template(context) {
            Ok(v) => v,
            Err(e) => {
                return Err(e);
            },
        };
        Ok((v0, v1, v2, v3, v4, v5, v6, v7, v8, v9, v10, v11))
    }

    fn clone_template(&self) -> (r: Self) {
        TemplateTuple((
            self.0.0.clone_template(),
            self.0.1.clone_template(),
            self.0.2.clone_template(),
            self.0.3.clone_template(),
            self.0.4.clone_template(),
            self.0.5.clone_template(),
            self.0.6.clone_template(),
            self.0.7.clone_template(),
            self.0.8.clone_template(),
            self.0.9.clone_template(),
            self.0.10.clone_template(),
            self.0.11.clone_template(),
        ))
    }
}

/// An entity template builds its entity, or the entity that its reference stands for; without an
/// entity it fails, and without one for its reference it asks for one. It never builds anything
/// else.
pub proof fn law_entity_templates(
    t: EntityTemplate,
    context: TemplateContext,
    r: Result<Entity, TemplateError>,
)
    requires
        t.builds(context, r),
    ensures
        t matches EntityTemplate::Entity(entity) ==> r == Ok::<Entity, TemplateError>(entity),
        t is Unset ==> (r matches Err(e) && e is Unspecified),
        t matches EntityTemplate::SceneEntityReference(reference) ==> match r {
            Ok(entity) => context@.contains_key(reference@) && context@[reference@] == entity,
            Err(e) => !context@.contains_key(reference@) && e == TemplateError::Unresolved(
                reference,
            ),
        },
{
}

} // verus!
