//! What templates build: values, options, lists and tuples, part by part.

use vstd::prelude::*;

use crate::template::{
    can_succeed, OptionTemplate, Template, TemplateContext, TemplateError, TemplateTuple,
    ValueTemplate, VecTemplate,
};

verus! {

/// A value template always builds a clone of its value.
pub proof fn law_values_are_cloned<T: Clone>(
    t: ValueTemplate<T>,
    context: TemplateContext,
    r: Result<T, TemplateError>,
)
    ensures
        t.builds(context, r) <==> r is Ok && cloned(t.0, r->Ok_0),
{
}

/// An absent template builds `None`, and a present one what it builds by itself: `Some` of it, or
/// its error.
pub proof fn law_options_are_built<T: Template>(
    template: T,
    context: TemplateContext,
    value: T::Output,
    e: TemplateError,
)
    ensures
        ({
            let absent = OptionTemplate::<T>::Absent;
            let present = OptionTemplate::Present(template);
            &&& absent.builds(context, Ok(None))
            &&& !absent.builds(context, Ok(Some(value)))
            &&& !absent.builds(context, Err(e))
            &&& !present.builds(context, Ok(None))
            &&& present.builds(context, Ok(Some(value))) <==> template.builds(context, Ok(value))
            &&& present.builds(context, Err(e)) <==> template.builds(context, Err(e))
        }),
{
}

/// A list of templates builds the list of what they build, in order; or the error of the first of
/// them that fails.
pub proof fn law_lists_are_built<T: Template>(
    t: VecTemplate<T>,
    context: TemplateContext,
    r: Result<Vec<T::Output>, TemplateError>,
)
    requires
        t.builds(context, r),
    ensures
        match r {
            Ok(out) => {
                &&& out@.len() == t.0@.len()
                &&& forall|i: int|
                    0 <= i < out@.len() ==> (#[trigger] t.0@[i]).builds(context, Ok(out@[i]))
            },
            Err(e) => exists|k: int|
                0 <= k < t.0@.len() && (#[trigger] t.0@[k]).builds(context, Err(e)) && (forall|
                    i: int,
                |
                    0 <= i < k ==> can_succeed(&#[trigger] t.0@[i], context)),
        },
{
}

/// A tuple of one template builds the tuple of what it builds, or fails with its error.
pub proof fn law_tuples_of_one_are_built<A: Template>(
    t: TemplateTuple<(A,)>,
    context: TemplateContext,
    out: (A::Output,),
    e: TemplateError,
)
    ensures
        t.builds(context, Ok(out)) <==> {
            &&& t.0.0.builds(context, Ok(out.0))
        },
        t.builds(context, Err(e)) ==> {
            ||| t.0.0.builds(context, Err(e))
        },
        t.0.0.builds(context, Err(e)) ==> t.builds(context, Err(e)),
{
}

/// A tuple of two templates builds the tuple of what they build, each at its place; it fails with
/// the error of one of them.
pub proof fn law_tuples_of_two_are_built<A: Template, B: Template>(
    t: TemplateTuple<(A, B)>,
    context: TemplateContext,
    out: (A::Output, B::Output),
    e: TemplateError,
)
    ensures
        t.builds(context, Ok(out)) <==> {
            &&& t.0.0.builds(context, Ok(out.0))
            &&& t.0.1.builds(context, Ok(out.1))
        },
        t.builds(context, Err(e)) ==> {
            ||| t.0.0.builds(context, Err(e))
            ||| t.0.1.builds(context, Err(e))
        },
        t.0.0.builds(context, Err(e)) ==> t.builds(context, Err(e)),
{
}

/// A tuple of three templates builds the tuple of what they build, each at its place; it fails with
/// the error of one of them.
pub proof fn law_tuples_of_three_are_built<A: Template, B: Template, C: Template>(
    t: TemplateTuple<(A, B, C)>,
    context: TemplateContext,
    out: (A::Output, B::Output, C::Output),
    e: TemplateError,
)
    ensures
        t.builds(context, Ok(out)) <==> {
            &&& t.0.0.builds(context, Ok(out.0))
            &&& t.0.1.builds(context, Ok(out.1))
            &&& t.0.2.builds(context, Ok(out.2))
        },
        t.builds(context, Err(e)) ==> {
            ||| t.0.0.builds(context, Err(e))
            ||| t.0.1.builds(context, Err(e))
            ||| t.0.2.builds(context, Err(e))
        },
        t.0.0.builds(context, Err(e)) ==> t.builds(context, Err(e)),
{
}

/// A tuple of four templates builds the tuple of what they build, each at its place; it fails with
/// the error of one of them.
pub proof fn law_tuples_of_four_are_built<A: Template, B: Template, C: Template, D: Template>(
    t: TemplateTuple<(A, B, C, D)>,
    context: TemplateContext,
    out: (A::Output, B::Output, C::Output, D::Output),
    e: TemplateError,
)
    ensures
        t.builds(context, Ok(out)) <==> {
            &&& t.0.0.builds(context, Ok(out.0))
            &&& t.0.1.builds(context, Ok(out.1))
            &&& t.0.2.builds(context, Ok(out.2))
            &&& t.0.3.builds(context, Ok(out.3))
        },
        t.builds(context, Err(e)) ==> {
            ||| t.0.0.builds(context, Err(e))
            ||| t.0.1.builds(context, Err(e))
            ||| t.0.2.builds(context, Err(e))
            ||| t.0.3.builds(context, Err(e))
        },
        t.0.0.builds(context, Err(e)) ==> t.builds(context, Err(e)),
{
}

/// A tuple of five templates builds the tuple of what they build, each at its place; it fails with
/// the error of one of them.
pub proof fn law_tuples_of_five_are_built<
    A: Template,
    B: Template,
    C: Template,
    D: Template,
    E: Template,
>(
    t: TemplateTuple<(A, B, C, D, E)>,
    context: TemplateContext,
    out: (A::Output, B::Output, C::Output, D::Output, E::Output),
    e: TemplateError,
)
    ensures
        t.builds(context, Ok(out)) <==> {
            &&& t.0.0.builds(context, Ok(out.0))
            &&& t.0.1.builds(context, Ok(out.1))
            &&& t.0.2.builds(context, Ok(out.2))
            &&& t.0.3.builds(context, Ok(out.3))
            &&& t.0.4.builds(context, Ok(out.4))
        },
        t.builds(context, Err(e)) ==> {
            ||| t.0.0.builds(context, Err(e))
            ||| t.0.1.builds(context, Err(e))
            ||| t.0.2.builds(context, Err(e))
            ||| t.0.3.builds(context, Err(e))
            ||| t.0.4.builds(context, Err(e))
        },
        t.0.0.builds(context, Err(e)) ==> t.builds(context, Err(e)),
{
}

/// A tuple of six templates builds the tuple of what they build, each at its place; it fails with
/// the error of one of them.
pub proof fn law_tuples_of_six_are_built<
    A: Template,
    B: Template,
    C: Template,
    D: Template,
    E: Template,
    F: Template,
>(
    t: TemplateTuple<(A, B, C, D, E, F)>,
    context: TemplateContext,
    out: (A::Output, B::Output, C::Output, D::Output, E::Output, F::Output),
    e: TemplateError,
)
    ensures
        t.builds(context, Ok(out)) <==> {
            &&& t.0.0.builds(context, Ok(out.0))
            &&& t.0.1.builds(context, Ok(out.1))
            &&& t.0.2.builds(context, Ok(out.2))
            &&& t.0.3.builds(context, Ok(out.3))
            &&& t.0.4.builds(context, Ok(out.4))
            &&& t.0.5.builds(context, Ok(out.5))
        },
        t.builds(context, Err(e)) ==> {
            ||| t.0.0.builds(context, Err(e))
            ||| t.0.1.builds(context, Err(e))
            ||| t.0.2.builds(context, Err(e))
            ||| t.0.3.builds(context, Err(e))
            ||| t.0.4.builds(context, Err(e))
            ||| t.0.5.builds(context, Err(e))
        },
        t.0.0.builds(context, Err(e)) ==> t.builds(context, Err(e)),
{
}

/// A tuple of seven templates builds the tuple of what they build, each at its place; it fails with
/// the error of one of them.
pub proof fn law_tuples_of_seven_are_built<
    A: Template,
    B: Template,
    C: Template,
    D: Template,
    E: Template,
    F: Template,
    G: Template,
>(
    t: TemplateTuple<(A, B, C, D, E, F, G)>,
    context: TemplateContext,
    out: (A::Output, B::Output, C::Output, D::Output, E::Output, F::Output, G::Output),
    e: TemplateError,
)
    ensures
        t.builds(context, Ok(out)) <==> {
            &&& t.0.0.builds(context, Ok(out.0))
            &&& t.0.1.builds(context, Ok(out.1))
            &&& t.0.2.builds(context, Ok(out.2))
            &&& t.0.3.builds(context, Ok(out.3))
            &&& t.0.4.builds(context, Ok(out.4))
            &&& t.0.5.builds(context, Ok(out.5))
            &&& t.0.6.builds(context, Ok(out.6))
        },
        t.builds(context, Err(e)) ==> {
            ||| t.0.0.builds(context, Err(e))
            ||| t.0.1.builds(context, Err(e))
            ||| t.0.2.builds(context, Err(e))
            ||| t.0.3.builds(context, Err(e))
            ||| t.0.4.builds(context, Err(e))
            ||| t.0.5.builds(context, Err(e))
            ||| t.0.6.builds(context, Err(e))
        },
        t.0.0.builds(context, Err(e)) ==> t.builds(context, Err(e)),
{
}

/// A tuple of eight templates builds the tuple of what they build, each at its place; it fails with
/// the error of one of them.
pub proof fn law_tuples_of_eight_are_built<
    A: Template,
    B: Template,
    C: Template,
    D: Template,
    E: Template,
    F: Template,
    G: Template,
    H: Template,
>(
    t: TemplateTuple<(A, B, C, D, E, F, G, H)>,
    context: TemplateContext,
    out: (A::Output, B::Output, C::Output, D::Output, E::Output, F::Output, G::Output, H::Output),
    e: TemplateError,
)
    ensures
        t.builds(context, Ok(out)) <==> {
            &&& t.0.0.builds(context, Ok(out.0))
            &&& t.0.1.builds(context, Ok(out.1))
            &&& t.0.2.builds(context, Ok(out.2))
            &&& t.0.3.builds(context, Ok(out.3))
            &&& t.0.4.builds(context, Ok(out.4))
            &&& t.0.5.builds(context, Ok(out.5))
            &&& t.0.6.builds(context, Ok(out.6))
            &&& t.0.7.builds(context, Ok(out.7))
        },
        t.builds(context, Err(e)) ==> {
            ||| t.0.0.builds(context, Err(e))
            ||| t.0.1.builds(context, Err(e))
            ||| t.0.2.builds(context, Err(e))
            ||| t.0.3.builds(context, Err(e))
            ||| t.0.4.builds(context, Err(e))
            ||| t.0.5.builds(context, Err(e))
            ||| t.0.6.builds(context, Err(e))
            ||| t.0.7.builds(context, Err(e))
        },
        t.0.0.builds(context, Err(e)) ==> t.builds(context, Err(e)),
{
}

/// A tuple of nine templates builds the tuple of what they build, each at its place; it fails with
/// the error of one of them.
pub proof fn law_tuples_of_nine_are_built<
    A: Template,
    B: Template,
    C: Template,
    D: Template,
    E: Template,
    F: Template,
    G: Template,
    H: Template,
    I: Template,
>(
    t: TemplateTuple<(A, B, C, D, E, F, G, H, I)>,
    context: TemplateContext,
    out: (
        A::Output,
        B::Output,
        C::Output,
        D::Output,
        E::Output,
        F::Output,
        G::Output,
        H::Output,
        I::Output,
    ),
    e: TemplateError,
)
    ensures
        t.builds(context, Ok(out)) <==> {
            &&& t.0.0.builds(context, Ok(out.0))
            &&& t.0.1.builds(context, Ok(out.1))
            &&& t.0.2.builds(context, Ok(out.2))
            &&& t.0.3.builds(context, Ok(out.3))
            &&& t.0.4.builds(context, Ok(out.4))
            &&& t.0.5.builds(context, Ok(out.5))
            &&& t.0.6.builds(context, Ok(out.6))
            &&& t.0.7.builds(context, Ok(out.7))
            &&& t.0.8.builds(context, Ok(out.8))
        },
        t.builds(context, Err(e)) ==> {
            ||| t.0.0.builds(context, Err(e))
            ||| t.0.1.builds(context, Err(e))
            ||| t.0.2.builds(context, Err(e))
            ||| t.0.3.builds(context, Err(e))
            ||| t.0.4.builds(context, Err(e))
            ||| t.0.5.builds(context, Err(e))
            ||| t.0.6.builds(context, Err(e))
            ||| t.0.7.builds(context, Err(e))
            ||| t.0.8.builds(context, Err(e))
        },
        t.0.0.builds(context, Err(e)) ==> t.builds(context, Err(e)),
{
}

/// A tuple of ten templates builds the tuple of what they build, each at its place; it fails with
/// the error of one of them.
pub proof fn law_tuples_of_ten_are_built<
    A: Template,
    B: Template,
    C: Template,
    D: Template,
    E: Template,
    F: Template,
    G: Template,
    H: Template,
    I: Template,
    J: Template,
>(
    t: TemplateTuple<(A, B, C, D, E, F, G, H, I, J)>,
    context: TemplateContext,
    out: (
        A::Output,
        B::Output,
        C::Output,
        D::Output,
        E::Output,
        F::Output,
        G::Output,
        H::Output,
        I::Output,
        J::Output,
    ),
    e: TemplateError,
)
    ensures
        t.builds(context, Ok(out)) <==> {
            &&& t.0.0.builds(context, Ok(out.0))
            &&& t.0.1.builds(context, Ok(out.1))
            &&& t.0.2.builds(context, Ok(out.2))
            &&& t.0.3.builds(context, Ok(out.3))
            &&& t.0.4.builds(context, Ok(out.4))
            &&& t.0.5.builds(context, Ok(out.5))
            &&& t.0.6.builds(context, Ok(out.6))
            &&& t.0.7.builds(context, Ok(out.7))
            &&& t.0.8.builds(context, Ok(out.8))
            &&& t.0.9.builds(context, Ok(out.9))
        },
        t.builds(context, Err(e)) ==> {
            ||| t.0.0.builds(context, Err(e))
            ||| t.0.1.builds(context, Err(e))
            ||| t.0.2.builds(context, Err(e))
            ||| t.0.3.builds(context, Err(e))
            ||| t.0.4.builds(context, Err(e))
            ||| t.0.5.builds(context, Err(e))
            ||| t.0.6.builds(context, Err(e))
            ||| t.0.7.builds(context, Err(e))
            ||| t.0.8.builds(context, Err(e))
            ||| t.0.9.builds(context, Err(e))
        },
        t.0.0.builds(context, Err(e)) ==> t.builds(context, Err(e)),
{
}

/// A tuple of eleven templates builds the tuple of what they build, each at its place; it fails with
/// the error of one of them.
pub proof fn law_tuples_of_eleven_are_built<
    A: Template,
    B: Template,
    C: Template,
    D: Template,
    E: Template,
    F: Template,
    G: Template,
    H: Template,
    I: Template,
    J: Template,
    K: Template,
>(
    t: TemplateTuple<(A, B, C, D, E, F, G, H, I, J, K)>,
    context: TemplateContext,
    out: (
        A::Output,
        B::Output,
        C::Output,
        D::Output,
        E::Output,
        F::Output,
        G::Output,
        H::Output,
        I::Output,
        J::Output,
        K::Output,
    ),
    e: TemplateError,
)
    ensures
        t.builds(context, Ok(out)) <==> {
            &&& t.0.0.builds(context, Ok(out.0))
            &&& t.0.1.builds(context, Ok(out.1))
            &&& t.0.2.builds(context, Ok(out.2))
            &&& t.0.3.builds(context, Ok(out.3))
            &&& t.0.4.builds(context, Ok(out.4))
            &&& t.0.5.builds(context, Ok(out.5))
            &&& t.0.6.builds(context, Ok(out.6))
            &&& t.0.7.builds(context, Ok(out.7))
            &&& t.0.8.builds(context, Ok(out.8))
            &&& t.0.9.builds(context, Ok(out.9))
            &&& t.0.10.builds(context, Ok(out.10))
        },
        t.builds(context, Err(e)) ==> {
            ||| t.0.0.builds(context, Err(e))
            ||| t.0.1.builds(context, Err(e))
            ||| t.0.2.builds(context, Err(e))
            ||| t.0.3.builds(context, Err(e))
            ||| t.0.4.builds(context, Err(e))
            ||| t.0.5.builds(context, Err(e))
            ||| t.0.6.builds(context, Err(e))
            ||| t.0.7.builds(context, Err(e))
            ||| t.0.8.builds(context, Err(e))
            ||| t.0.9.builds(context, Err(e))
            ||| t.0.10.builds(context, Err(e))
        },
        t.0.0.builds(context, Err(e)) ==> t.builds(context, Err(e)),
{
}

/// A tuple of twelve templates builds the tuple of what they build, each at its place; it fails with
/// the error of one of them.
pub proof fn law_tuples_of_twelve_are_built<
    A: Template,
    B: Template,
    C: Template,
    D: Template,
    E: Template,
    F: Template,
    G: Template,
    H: Template,
    I: Template,
    J: Template,
    K: Template,
    L: Template,
>(
    t: TemplateTuple<(A, B, C, D, E, F, G, H, I, J, K, L)>,
    context: TemplateContext,
    out: (
        A::Output,
        B::Output,
        C::Output,
        D::Output,
        E::Output,
        F::Output,
        G::Output,
        H::Output,
        I::Output,
        J::Output,
        K::Output,
        L::Output,
    ),
    e: TemplateError,
)
    ensures
        t.builds(context, Ok(out)) <==> {
            &&& t.0.0.builds(context, Ok(out.0))
            &&& t.0.1.builds(context, Ok(out.1))
            &&& t.0.2.builds(context, Ok(out.2))
            &&& t.0.3.builds(context, Ok(out.3))
            &&& t.0.4.builds(context, Ok(out.4))
            &&& t.0.5.builds(context, Ok(out.5))
            &&& t.0.6.builds(context, Ok(out.6))
            &&& t.0.7.builds(context, Ok(out.7))
            &&& t.0.8.builds(context, Ok(out.8))
            &&& t.0.9.builds(context, Ok(out.9))
            &&& t.0.10.builds(context, Ok(out.10))
            &&& t.0.11.builds(context, Ok(out.11))
        },
        t.builds(context, Err(e)) ==> {
            ||| t.0.0.builds(context, Err(e))
            ||| t.0.1.builds(context, Err(e))
            ||| t.0.2.builds(context, Err(e))
            ||| t.0.3.builds(context, Err(e))
            ||| t.0.4.builds(context, Err(e))
            ||| t.0.5.builds(context, Err(e))
            ||| t.0.6.builds(context, Err(e))
            ||| t.0.7.builds(context, Err(e))
            ||| t.0.8.builds(context, Err(e))
            ||| t.0.9.builds(context, Err(e))
            ||| t.0.10.builds(context, Err(e))
            ||| t.0.11.builds(context, Err(e))
        },
        t.0.0.builds(context, Err(e)) ==> t.builds(context, Err(e)),
{
}

} // verus!
