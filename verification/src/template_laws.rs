//! Duplicates of values, functions and tuples of templates build what the templates build.

use vstd::prelude::*;

use crate::template::{
    can_succeed, duplicates_build_alike, FnTemplate, Template, TemplateContext, TemplateError,
    TemplateTuple, ValueTemplate,
};

verus! {

/// Duplicates of function templates build alike when clones of the functions return alike.
pub proof fn law_function_duplicates<
    F: Fn(&TemplateContext) -> Result<O, TemplateError> + Clone,
    O,
>()
    requires
        forall|f: F, g: F, context: TemplateContext, r: Result<O, TemplateError>|
            cloned(f, g) ==> (#[trigger] call_ensures(f, (&context,), r) <==> #[trigger] call_ensures(
                g,
                (&context,),
                r,
            )),
    ensures
        duplicates_build_alike::<FnTemplate<F, O>>(),
{
}

/// Duplicates of value templates build alike when a clone of a value has the clones that the
/// value has.
pub proof fn law_value_duplicates<T: Clone>()
    requires
        forall|a: T, b: T, c: T|
            cloned(a, b) ==> (#[trigger] cloned(a, c) <==> #[trigger] cloned(b, c)),
    ensures
        duplicates_build_alike::<ValueTemplate<T>>(),
{
}

/// What a template builds, its duplicate builds.
proof fn lemma_alike<T: Template>(a: T, b: T, context: TemplateContext)
    requires
        duplicates_build_alike::<T>(),
        a.is_clone(&b),
    ensures
        forall|r: Result<T::Output, TemplateError>| #[trigger]
            a.builds(context, r) <==> b.builds(context, r),
        forall|r: Result<T::Output, TemplateError>| #[trigger]
            b.builds(context, r) <==> a.builds(context, r),
        can_succeed(&a, context) <==> can_succeed(&b, context),
{
    if can_succeed(&a, context) {
        let out = choose|out: T::Output| a.builds(context, Ok(out));
        assert(b.builds(context, Ok(out)));
    }
    if can_succeed(&b, context) {
        let out = choose|out: T::Output| b.builds(context, Ok(out));
        assert(a.builds(context, Ok(out)));
    }
}

/// Duplicates of the empty tuple of templates build alike.
pub proof fn law_empty_tuple_duplicates()
    ensures
        duplicates_build_alike::<TemplateTuple<()>>(),
{
}

/// Duplicates of tuples of one template build alike when the duplicates of the template do.
pub proof fn law_tuple_of_one_duplicates<A: Template>()
    requires
        duplicates_build_alike::<A>(),
    ensures
        duplicates_build_alike::<TemplateTuple<(A,)>>(),
{
    assert forall|
        a: TemplateTuple<(A,)>,
        b: TemplateTuple<(A,)>,
        context: TemplateContext,
        r: Result<(A::Output,), TemplateError>,
    |
        a.is_clone(&b) implies (#[trigger] a.builds(context, r) <==> #[trigger] b.builds(
        context,
        r,
    )) by {
        lemma_alike(a.0.0, b.0.0, context);
    }
}

/// Duplicates of tuples of two templates build alike when the duplicates of their templates do.
pub proof fn law_tuple_of_two_duplicates<A: Template, B: Template>()
    requires
        duplicates_build_alike::<A>(),
        duplicates_build_alike::<B>(),
    ensures
        duplicates_build_alike::<TemplateTuple<(A, B)>>(),
{
    assert forall|
        a: TemplateTuple<(A, B)>,
        b: TemplateTuple<(A, B)>,
        context: TemplateContext,
        r: Result<(A::Output, B::Output), TemplateError>,
    |
        a.is_clone(&b) implies (#[trigger] a.builds(context, r) <==> #[trigger] b.builds(
        context,
        r,
    )) by {
        lemma_alike(a.0.0, b.0.0, context);
        lemma_alike(a.0.1, b.0.1, context);
    }
}

/// Duplicates of tuples of three templates build alike when the duplicates of their templates do.
pub proof fn law_tuple_of_three_duplicates<A: Template, B: Template, C: Template>()
    requires
        duplicates_build_alike::<A>(),
        duplicates_build_alike::<B>(),
        duplicates_build_alike::<C>(),
    ensures
        duplicates_build_alike::<TemplateTuple<(A, B, C)>>(),
{
    assert forall|
        a: TemplateTuple<(A, B, C)>,
        b: TemplateTuple<(A, B, C)>,
        context: TemplateContext,
        r: Result<(A::Output, B::Output, C::Output), TemplateError>,
    |
        a.is_clone(&b) implies (#[trigger] a.builds(context, r) <==> #[trigger] b.builds(
        context,
        r,
    )) by {
        lemma_alike(a.0.0, b.0.0, context);
        lemma_alike(a.0.1, b.0.1, context);
        lemma_alike(a.0.2, b.0.2, context);
    }
}

/// Duplicates of tuples of four templates build alike when the duplicates of their templates do.
pub proof fn law_tuple_of_four_duplicates<A: Template, B: Template, C: Template, D: Template>()
    requires
        duplicates_build_alike::<A>(),
        duplicates_build_alike::<B>(),
        duplicates_build_alike::<C>(),
        duplicates_build_alike::<D>(),
    ensures
        duplicates_build_alike::<TemplateTuple<(A, B, C, D)>>(),
{
    assert forall|
        a: TemplateTuple<(A, B, C, D)>,
        b: TemplateTuple<(A, B, C, D)>,
        context: TemplateContext,
        r: Result<(A::Output, B::Output, C::Output, D::Output), TemplateError>,
    |
        a.is_clone(&b) implies (#[trigger] a.builds(context, r) <==> #[trigger] b.builds(
        context,
        r,
    )) by {
        lemma_alike(a.0.0, b.0.0, context);
        lemma_alike(a.0.1, b.0.1, context);
        lemma_alike(a.0.2, b.0.2, context);
        lemma_alike(a.0.3, b.0.3, context);
    }
}

/// Duplicates of tuples of five templates build alike when the duplicates of their templates do.
pub proof fn law_tuple_of_five_duplicates<
    A: Template,
    B: Template,
    C: Template,
    D: Template,
    E: Template,
>()
    requires
        duplicates_build_alike::<A>(),
        duplicates_build_alike::<B>(),
        duplicates_build_alike::<C>(),
        duplicates_build_alike::<D>(),
        duplicates_build_alike::<E>(),
    ensures
        duplicates_build_alike::<TemplateTuple<(A, B, C, D, E)>>(),
{
    assert forall|
        a: TemplateTuple<(A, B, C, D, E)>,
        b: TemplateTuple<(A, B, C, D, E)>,
        context: TemplateContext,
        r: Result<(A::Output, B::Output, C::Output, D::Output, E::Output), TemplateError>,
    |
        a.is_clone(&b) implies (#[trigger] a.builds(context, r) <==> #[trigger] b.builds(
        context,
        r,
    )) by {
        lemma_alike(a.0.0, b.0.0, context);
        lemma_alike(a.0.1, b.0.1, context);
        lemma_alike(a.0.2, b.0.2, context);
        lemma_alike(a.0.3, b.0.3, context);
        lemma_alike(a.0.4, b.0.4, context);
    }
}

/// Duplicates of tuples of six templates build alike when the duplicates of their templates do.
pub proof fn law_tuple_of_six_duplicates<
    A: Template,
    B: Template,
    C: Template,
    D: Template,
    E: Template,
    F: Template,
>()
    requires
        duplicates_build_alike::<A>(),
        duplicates_build_alike::<B>(),
        duplicates_build_alike::<C>(),
        duplicates_build_alike::<D>(),
        duplicates_build_alike::<E>(),
        duplicates_build_alike::<F>(),
    ensures
        duplicates_build_alike::<TemplateTuple<(A, B, C, D, E, F)>>(),
{
    assert forall|
        a: TemplateTuple<(A, B, C, D, E, F)>,
        b: TemplateTuple<(A, B, C, D, E, F)>,
        context: TemplateContext,
        r: Result<
            (
                A::Output,
                B::Output,
                C::Output,
                D::Output,
                E::Output,
                F::Output,
            ),
            TemplateError,
        >,
    |
        a.is_clone(&b) implies (#[trigger] a.builds(context, r) <==> #[trigger] b.builds(
        context,
        r,
    )) by {
        lemma_alike(a.0.0, b.0.0, context);
        lemma_alike(a.0.1, b.0.1, context);
        lemma_alike(a.0.2, b.0.2, context);
        lemma_alike(a.0.3, b.0.3, context);
        lemma_alike(a.0.4, b.0.4, context);
        lemma_alike(a.0.5, b.0.5, context);
    }
}

/// Duplicates of tuples of seven templates build alike when the duplicates of their templates do.
pub proof fn law_tuple_of_seven_duplicates<
    A: Template,
    B: Template,
    C: Template,
    D: Template,
    E: Template,
    F: Template,
    G: Template,
>()
    requires
        duplicates_build_alike::<A>(),
        duplicates_build_alike::<B>(),
        duplicates_build_alike::<C>(),
        duplicates_build_alike::<D>(),
        duplicates_build_alike::<E>(),
        duplicates_build_alike::<F>(),
        duplicates_build_alike::<G>(),
    ensures
        duplicates_build_alike::<TemplateTuple<(A, B, C, D, E, F, G)>>(),
{
    assert forall|
        a: TemplateTuple<(A, B, C, D, E, F, G)>,
        b: TemplateTuple<(A, B, C, D, E, F, G)>,
        context: TemplateContext,
        r: Result<
            (
                A::Output,
                B::Output,
                C::Output,
                D::Output,
                E::Output,
                F::Output,
                G::Output,
            ),
            TemplateError,
        >,
    |
        a.is_clone(&b) implies (#[trigger] a.builds(context, r) <==> #[trigger] b.builds(
        context,
        r,
    )) by {
        lemma_alike(a.0.0, b.0.0, context);
        lemma_alike(a.0.1, b.0.1, context);
        lemma_alike(a.0.2, b.0.2, context);
        lemma_alike(a.0.3, b.0.3, context);
        lemma_alike(a.0.4, b.0.4, context);
        lemma_alike(a.0.5, b.0.5, context);
        lemma_alike(a.0.6, b.0.6, context);
    }
}

/// Duplicates of tuples of eight templates build alike when the duplicates of their templates do.
pub proof fn law_tuple_of_eight_duplicates<
    A: Template,
    B: Template,
    C: Template,
    D: Template,
    E: Template,
    F: Template,
    G: Template,
    H: Template,
>()
    requires
        duplicates_build_alike::<A>(),
        duplicates_build_alike::<B>(),
        duplicates_build_alike::<C>(),
        duplicates_build_alike::<D>(),
        duplicates_build_alike::<E>(),
        duplicates_build_alike::<F>(),
        duplicates_build_alike::<G>(),
        duplicates_build_alike::<H>(),
    ensures
        duplicates_build_alike::<TemplateTuple<(A, B, C, D, E, F, G, H)>>(),
{
    assert forall|
        a: TemplateTuple<(A, B, C, D, E, F, G, H)>,
        b: TemplateTuple<(A, B, C, D, E, F, G, H)>,
        context: TemplateContext,
        r: Result<
            (
                A::Output,
                B::Output,
                C::Output,
                D::Output,
                E::Output,
                F::Output,
                G::Output,
                H::Output,
            ),
            TemplateError,
        >,
    |
        a.is_clone(&b) implies (#[trigger] a.builds(context, r) <==> #[trigger] b.builds(
        context,
        r,
    )) by {
        lemma_alike(a.0.0, b.0.0, context);
        lemma_alike(a.0.1, b.0.1, context);
        lemma_alike(a.0.2, b.0.2, context);
        lemma_alike(a.0.3, b.0.3, context);
        lemma_alike(a.0.4, b.0.4, context);
        lemma_alike(a.0.5, b.0.5, context);
        lemma_alike(a.0.6, b.0.6, context);
        lemma_alike(a.0.7, b.0.7, context);
    }
}

/// Duplicates of tuples of nine templates build alike when the duplicates of their templates do.
pub proof fn law_tuple_of_nine_duplicates<
    A: Template,
    B: Template,
    C: Template,
    D: Template,
    E: Template,
    F: Template,
    G: Template,
    H: Template,
    I: Template,
>()
    requires
        duplicates_build_alike::<A>(),
        duplicates_build_alike::<B>(),
        duplicates_build_alike::<C>(),
        duplicates_build_alike::<D>(),
        duplicates_build_alike::<E>(),
        duplicates_build_alike::<F>(),
        duplicates_build_alike::<G>(),
        duplicates_build_alike::<H>(),
        duplicates_build_alike::<I>(),
    ensures
        duplicates_build_alike::<TemplateTuple<(A, B, C, D, E, F, G, H, I)>>(),
{
    assert forall|
        a: TemplateTuple<(A, B, C, D, E, F, G, H, I)>,
        b: TemplateTuple<(A, B, C, D, E, F, G, H, I)>,
        context: TemplateContext,
        r: Result<
            (
                A::Output,
                B::Output,
                C::Output,
                D::Output,
                E::Output,
                F::Output,
                G::Output,
                H::Output,
                I::Output,
            ),
            TemplateError,
        >,
    |
        a.is_clone(&b) implies (#[trigger] a.builds(context, r) <==> #[trigger] b.builds(
        context,
        r,
    )) by {
        lemma_alike(a.0.0, b.0.0, context);
        lemma_alike(a.0.1, b.0.1, context);
        lemma_alike(a.0.2, b.0.2, context);
        lemma_alike(a.0.3, b.0.3, context);
        lemma_alike(a.0.4, b.0.4, context);
        lemma_alike(a.0.5, b.0.5, context);
        lemma_alike(a.0.6, b.0.6, context);
        lemma_alike(a.0.7, b.0.7, context);
        lemma_alike(a.0.8, b.0.8, context);
    }
}

/// Duplicates of tuples of ten templates build alike when the duplicates of their templates do.
pub proof fn law_tuple_of_ten_duplicates<
    A: Template,
    B: Template,
    C: Template,
    D: Template,
    E: Template,
    F: Template,
    G: Template,
    H: Template,
    I: Template,
    J: Template,
>()
    requires
        duplicates_build_alike::<A>(),
        duplicates_build_alike::<B>(),
        duplicates_build_alike::<C>(),
        duplicates_build_alike::<D>(),
        duplicates_build_alike::<E>(),
        duplicates_build_alike::<F>(),
        duplicates_build_alike::<G>(),
        duplicates_build_alike::<H>(),
        duplicates_build_alike::<I>(),
        duplicates_build_alike::<J>(),
    ensures
        duplicates_build_alike::<TemplateTuple<(A, B, C, D, E, F, G, H, I, J)>>(),
{
    assert forall|
        a: TemplateTuple<(A, B, C, D, E, F, G, H, I, J)>,
        b: TemplateTuple<(A, B, C, D, E, F, G, H, I, J)>,
        context: TemplateContext,
        r: Result<
            (
                A::Output,
                B::Output,
                C::Output,
                D::Output,
                E::Output,
                F::Output,
                G::Output,
                H::Output,
                I::Output,
                J::Output,
            ),
            TemplateError,
        >,
    |
        a.is_clone(&b) implies (#[trigger] a.builds(context, r) <==> #[trigger] b.builds(
        context,
        r,
    )) by {
        lemma_alike(a.0.0, b.0.0, context);
        lemma_alike(a.0.1, b.0.1, context);
        lemma_alike(a.0.2, b.0.2, context);
        lemma_alike(a.0.3, b.0.3, context);
        lemma_alike(a.0.4, b.0.4, context);
        lemma_alike(a.0.5, b.0.5, context);
        lemma_alike(a.0.6, b.0.6, context);
        lemma_alike(a.0.7, b.0.7, context);
        lemma_alike(a.0.8, b.0.8, context);
        lemma_alike(a.0.9, b.0.9, context);
    }
}

/// Duplicates of tuples of eleven templates build alike when the duplicates of their templates do.
pub proof fn law_tuple_of_eleven_duplicates<
    A: Template,
    B: Template,
    C: Template,
    D: Template,
    E: Template,
    F: Template,
    G: Template,
    H: Template,
    I: Template,
    J: Template,
    K: Template,
>()
    requires
        duplicates_build_alike::<A>(),
        duplicates_build_alike::<B>(),
        duplicates_build_alike::<C>(),
        duplicates_build_alike::<D>(),
        duplicates_build_alike::<E>(),
        duplicates_build_alike::<F>(),
        duplicates_build_alike::<G>(),
        duplicates_build_alike::<H>(),
        duplicates_build_alike::<I>(),
        duplicates_build_alike::<J>(),
        duplicates_build_alike::<K>(),
    ensures
        duplicates_build_alike::<TemplateTuple<(A, B, C, D, E, F, G, H, I, J, K)>>(),
{
    assert forall|
        a: TemplateTuple<(A, B, C, D, E, F, G, H, I, J, K)>,
        b: TemplateTuple<(A, B, C, D, E, F, G, H, I, J, K)>,
        context: TemplateContext,
        r: Result<
            (
                A::Output,
                B::Output,
                C::Output,
                D::Output,
                E::Output,
                F::Output,
                G::Output,
                H::Output,
                I::Output,
                J::Output,
                K::Output,
            ),
            TemplateError,
        >,
    |
        a.is_clone(&b) implies (#[trigger] a.builds(context, r) <==> #[trigger] b.builds(
        context,
        r,
    )) by {
        lemma_alike(a.0.0, b.0.0, context);
        lemma_alike(a.0.1, b.0.1, context);
        lemma_alike(a.0.2, b.0.2, context);
        lemma_alike(a.0.3, b.0.3, context);
        lemma_alike(a.0.4, b.0.4, context);
        lemma_alike(a.0.5, b.0.5, context);
        lemma_alike(a.0.6, b.0.6, context);
        lemma_alike(a.0.7, b.0.7, context);
        lemma_alike(a.0.8, b.0.8, context);
        lemma_alike(a.0.9, b.0.9, context);
        lemma_alike(a.0.10, b.0.10, context);
    }
}

/// Duplicates of tuples of twelve templates build alike when the duplicates of their templates do.
pub proof fn law_tuple_of_twelve_duplicates<
    A: Template,
    B: Template,
    C: Template,
    D: Template,
    E: Template,
    F: Template,
    G: Template,
    H: Template,
    I: Template,
    J: Template,
    K: Template,
    L: Template,
>()
    requires
        duplicates_build_alike::<A>(),
        duplicates_build_alike::<B>(),
        duplicates_build_alike::<C>(),
        duplicates_build_alike::<D>(),
        duplicates_build_alike::<E>(),
        duplicates_build_alike::<F>(),
        duplicates_build_alike::<G>(),
        duplicates_build_alike::<H>(),
        duplicates_build_alike::<I>(),
        duplicates_build_alike::<J>(),
        duplicates_build_alike::<K>(),
        duplicates_build_alike::<L>(),
    ensures
        duplicates_build_alike::<TemplateTuple<(A, B, C, D, E, F, G, H, I, J, K, L)>>(),
{
    assert forall|
        a: TemplateTuple<(A, B, C, D, E, F, G, H, I, J, K, L)>,
        b: TemplateTuple<(A, B, C, D, E, F, G, H, I, J, K, L)>,
        context: TemplateContext,
        r: Result<
            (
                A::Output,
                B::Output,
                C::Output,
                D::Output,
                E::Output,
                F::Output,
                G::Output,
                H::Output,
                I::Output,
                J::Output,
                K::Output,
                L::Output,
            ),
            TemplateError,
        >,
    |
        a.is_clone(&b) implies (#[trigger] a.builds(context, r) <==> #[trigger] b.builds(
        context,
        r,
    )) by {
        lemma_alike(a.0.0, b.0.0, context);
        lemma_alike(a.0.1, b.0.1, context);
        lemma_alike(a.0.2, b.0.2, context);
        lemma_alike(a.0.3, b.0.3, context);
        lemma_alike(a.0.4, b.0.4, context);
        lemma_alike(a.0.5, b.0.5, context);
        lemma_alike(a.0.6, b.0.6, context);
        lemma_alike(a.0.7, b.0.7, context);
        lemma_alike(a.0.8, b.0.8, context);
        lemma_alike(a.0.9, b.0.9, context);
        lemma_alike(a.0.10, b.0.10, context);
        lemma_alike(a.0.11, b.0.11, context);
    }
}

} // verus!
