//! Scenes that were built from documents, and the order in which their parts are resolved.

use vstd::prelude::*;

use crate::builder::AssetDependency;
use crate::plan::{Plan, VariantPlan};
use crate::scene_reference::SceneEntityReference;
use crate::text::{copy_str, same_text};

verus! {

/// What a [`DynamicPatch`] does to its template slot.
#[derive(Debug)]
pub enum DynamicPatchValue {
    /// `Foo` with no fields: ensure the slot exists, change nothing.
    Ensure,
    /// `Foo { a: 1 }` / `Foo(1)`: apply this partial value on top of the current one.
    Partial(Plan),
    /// `Foo::Bar { x: 1 }` / `Foo::Qux`: where the current value has the variant, the supplied
    /// fields are applied to it; where it has not, it is reset to the full form.
    EnumVariant(VariantPlan),
}

/// A single `Type { … }` / `Type(…)` / `Type::Variant { … }` / `~Type { … }` entry.
#[derive(Debug)]
pub struct DynamicPatch {
    /// The path of the template type, which is the key of the slot.
    pub template_type_path: String,
    /// What to do to the template value.
    pub value: DynamicPatchValue,
}

/// A `#Name` declaration and the reference identity it establishes.
#[derive(Debug)]
pub struct DynamicName {
    pub name: String,
    pub reference: SceneEntityReference,
}

/// A `Children [ … ]`-style relation block.
#[derive(Debug)]
pub struct DynamicRelation {
    /// The path of the relationship target.
    pub target: String,
    /// The related entity scenes, in document order.
    pub children: Vec<DynamicSceneEntity>,
}

/// One entity's worth of instructions, in document order.
#[derive(Debug)]
pub struct DynamicSceneEntity {
    /// `:"base.bsn"`. Resolved *first*, because everything after it depends on the cached scene
    /// being in place.
    pub base: Option<String>,
    /// `#Name`.
    pub name: Option<DynamicName>,
    /// Component and template patches, in document order.
    pub patches: Vec<DynamicPatch>,
    /// Relations (`Children [ … ]`), in document order.
    pub relations: Vec<DynamicRelation>,
}

/// A scene built from a parsed document. It describes exactly one root entity.
#[derive(Debug)]
pub struct DynamicScene {
    /// The document's single root entity.
    pub root: DynamicSceneEntity,
    /// The assets that the values of the document depend on, and one entry per nested base.
    pub assets: Vec<AssetDependency>,
    /// The asset path this document was parsed from.
    pub source: String,
}

// -- dependencies -------------------------------------------------------------------------------

/// A dependency of a scene.
#[derive(Debug)]
pub enum SceneDependency<'a> {
    /// Another scene, by its path.
    Scene(&'a String),
    /// An asset, by the number of its type and by its path.
    Asset(u64, &'a String),
}

/// The assets among the dependencies.
pub open spec fn asset_dependencies<'a>(assets: Seq<AssetDependency>) -> Seq<SceneDependency<'a>> {
    assets.map_values(|asset: AssetDependency| SceneDependency::Asset(asset.asset, &asset.path))
}

/// The dependencies of a scene: the base of the root, and then the assets.
pub open spec fn scene_dependencies<'a>(scene: DynamicScene) -> Seq<SceneDependency<'a>> {
    match scene.root.base {
        Some(base) => seq![SceneDependency::Scene(&base)] + asset_dependencies(scene.assets@),
        None => asset_dependencies(scene.assets@),
    }
}

impl DynamicScene {
    /// Every asset dependency discovered while building this scene: the numbers of the asset
    /// types and the paths. The root entity's own base is *not* in this list.
    pub fn dependencies(&self) -> (r: Vec<SceneDependency<'_>>)
        ensures
            r@ == asset_dependencies(self.assets@),
    {
        let mut r: Vec<SceneDependency<'_>> = Vec::new();
        let mut i: usize = 0;
        while i < self.assets.len()
            invariant
                i <= self.assets.len(),
                r@ == asset_dependencies(self.assets@).take(i as int),
            decreases self.assets.len() - i,
        {
            let ghost before = r@;
            r.push(SceneDependency::Asset(self.assets[i].asset, &self.assets[i].path));
            assert(r@ =~= before.push(asset_dependencies(self.assets@)[i as int]));
            i = i + 1;
            assert(r@ =~= asset_dependencies(self.assets@).take(i as int));
        }
        assert(asset_dependencies(self.assets@).take(i as int) =~= asset_dependencies(
            self.assets@,
        ));
        r
    }

    /// What has to be loaded before the scene can be resolved: the base of the root, and then
    /// the assets.
    pub fn register_dependencies(&self) -> (r: Vec<SceneDependency<'_>>)
        ensures
            r@ == scene_dependencies(*self),
    {
        let mut r: Vec<SceneDependency<'_>> = Vec::new();
        if let Some(base) = &self.root.base {
            r.push(SceneDependency::Scene(base));
        }
        let mut assets = self.dependencies();
        let ghost first = r@;
        r.append(&mut assets);
        assert(r@ =~= scene_dependencies(*self));
        r
    }

    /// The steps that resolve the scene.
    pub fn resolve(&self) -> (r: Vec<ResolveStep<'_>>)
        ensures
            r@ == entity_steps(self.root),
    {
        let mut r: Vec<ResolveStep<'_>> = Vec::new();
        resolve_entity(&self.root, &mut r);
        assert(r@ =~= entity_steps(self.root));
        r
    }
}

// -- entities -----------------------------------------------------------------------------------

/// A step of resolving a scene. The steps work on the scene of one entity at a time, and on the
/// cached scene that its templates start from.
#[derive(Debug)]
pub enum ResolveStep<'a> {
    /// Include another scene, which becomes the cached scene.
    Include(&'a String),
    /// Give the entity its name.
    Name(&'a DynamicName),
    /// Apply a patch.
    Patch(&'a DynamicPatch),
    /// Open a block of related entities, and put the cached scene away.
    OpenRelation(&'a String),
    /// Go on with the fresh scene of a related entity, without a cached scene.
    OpenChild,
    /// Add the scene of the related entity to the block, and go back to the scene before.
    CloseChild,
    /// Close the block, and take the cached scene up again.
    CloseRelation,
}

pub open spec fn patch_steps<'a>(patches: Seq<DynamicPatch>) -> Seq<ResolveStep<'a>> {
    patches.map_values(|patch: DynamicPatch| ResolveStep::Patch(&patch))
}

pub open spec fn base_steps<'a>(base: Option<String>) -> Seq<ResolveStep<'a>> {
    match base {
        Some(base) => seq![ResolveStep::Include(&base)],
        None => Seq::empty(),
    }
}

pub open spec fn name_steps<'a>(name: Option<DynamicName>) -> Seq<ResolveStep<'a>> {
    match name {
        Some(name) => seq![ResolveStep::Name(&name)],
        None => Seq::empty(),
    }
}

/// The steps of an entity: its base, its name, its patches and its relations.
pub open spec fn entity_steps<'a>(entity: DynamicSceneEntity) -> Seq<ResolveStep<'a>>
    decreases entity,
{
    base_steps(entity.base) + name_steps(entity.name) + patch_steps(entity.patches@)
        + relations_steps(entity.relations@)
}

pub open spec fn relations_steps<'a>(relations: Seq<DynamicRelation>) -> Seq<ResolveStep<'a>>
    decreases relations,
{
    if relations.len() == 0 {
        Seq::empty()
    } else {
        relations_steps(relations.drop_last()) + relation_steps(relations.last())
    }
}

/// The steps of a relation block.
pub open spec fn relation_steps<'a>(relation: DynamicRelation) -> Seq<ResolveStep<'a>>
    decreases relation,
{
    seq![ResolveStep::OpenRelation(&relation.target)] + children_steps(relation.children@)
        + seq![ResolveStep::CloseRelation]
}

/// The steps of related entities, each for itself.
pub open spec fn children_steps<'a>(children: Seq<DynamicSceneEntity>) -> Seq<ResolveStep<'a>>
    decreases children,
{
    if children.len() == 0 {
        Seq::empty()
    } else {
        children_steps(children.drop_last()) + seq![ResolveStep::OpenChild] + entity_steps(
            children.last(),
        ) + seq![ResolveStep::CloseChild]
    }
}

/// Appends the steps that resolve one entity of the document, and its relations.
pub fn resolve_entity<'a>(entity: &'a DynamicSceneEntity, out: &mut Vec<ResolveStep<'a>>)
    ensures
        final(out)@ == old(out)@ + entity_steps(*entity),
    decreases entity,
{
    let ghost start = out@;
    if let Some(base) = &entity.base {
        out.push(ResolveStep::Include(base));
    }
    assert(out@ =~= start + base_steps(entity.base));
    if let Some(name) = &entity.name {
        out.push(ResolveStep::Name(name));
    }
    assert(out@ =~= start + base_steps(entity.base) + name_steps(entity.name));
    let ghost head = out@;
    let mut i: usize = 0;
    while i < entity.patches.len()
        invariant
            i <= entity.patches.len(),
            out@ =~= head + patch_steps(entity.patches@).take(i as int),
        decreases entity.patches.len() - i,
    {
        out.push(ResolveStep::Patch(&entity.patches[i]));
        i = i + 1;
    }
    let ghost patched = out@;
    assert(patched =~= head + patch_steps(entity.patches@));
    resolve_relations(&entity.relations, entity.relations.len(), out);
    assert(entity.relations@.take(entity.relations.len() as int) =~= entity.relations@);
    assert(out@ =~= start + entity_steps(*entity));
}

/// Appends the steps of the first `n` relation blocks.
fn resolve_relations<'a>(
    relations: &'a Vec<DynamicRelation>,
    n: usize,
    out: &mut Vec<ResolveStep<'a>>,
)
    requires
        n <= relations.len(),
    ensures
        final(out)@ == old(out)@ + relations_steps(relations@.take(n as int)),
    decreases relations, n,
{
    if n == 0 {
        assert(out@ =~= out@ + relations_steps(relations@.take(0)));
        return;
    }
    let ghost start = out@;
    resolve_relations(relations, n - 1, out);
    let ghost earlier = out@;
    let relation = &relations[n - 1];
    out.push(ResolveStep::OpenRelation(&relation.target));
    resolve_children(&relation.children, relation.children.len(), out);
    out.push(ResolveStep::CloseRelation);
    proof {
        assert(relation.children@.take(relation.children.len() as int) =~= relation.children@);
        assert(relations@.take(n as int).drop_last() =~= relations@.take(n - 1));
        assert(relations@.take(n as int).last() == *relation);
        assert(out@ =~= earlier + relation_steps(*relation));
        assert(out@ =~= start + relations_steps(relations@.take(n as int)));
    }
}

/// Appends the steps of the first `n` related entities.
fn resolve_children<'a>(
    children: &'a Vec<DynamicSceneEntity>,
    n: usize,
    out: &mut Vec<ResolveStep<'a>>,
)
    requires
        n <= children.len(),
    ensures
        final(out)@ == old(out)@ + children_steps(children@.take(n as int)),
    decreases children, n,
{
    if n == 0 {
        assert(out@ =~= out@ + children_steps(children@.take(0)));
        return;
    }
    let ghost start = out@;
    resolve_children(children, n - 1, out);
    let ghost earlier = out@;
    let child = &children[n - 1];
    out.push(ResolveStep::OpenChild);
    resolve_entity(child, out);
    out.push(ResolveStep::CloseChild);
    proof {
        assert(children@.take(n as int).drop_last() =~= children@.take(n - 1));
        assert(children@.take(n as int).last() == *child);
        assert(out@ =~= earlier + (seq![ResolveStep::OpenChild] + entity_steps(*child)
            + seq![ResolveStep::CloseChild]));
        assert(out@ =~= start + children_steps(children@.take(n as int)));
    }
}

// -- the cached scene ---------------------------------------------------------------------------

/// The cached scene, and those that were put away for open relation blocks.
pub ghost struct Cached {
    pub current: Option<Seq<char>>,
    pub saved: Seq<Option<Seq<char>>>,
}

/// What a step does to the cached scene.
pub open spec fn after_step(state: Cached, step: ResolveStep) -> Cached {
    match step {
        ResolveStep::Include(base) => Cached { current: Some(base@), ..state },
        ResolveStep::OpenRelation(_) => Cached {
            current: None,
            saved: state.saved.push(state.current),
        },
        ResolveStep::OpenChild => Cached { current: None, ..state },
        ResolveStep::CloseRelation => if state.saved.len() > 0 {
            Cached { current: state.saved.last(), saved: state.saved.drop_last() }
        } else {
            state
        },
        _ => state,
    }
}

/// What steps do to the cached scene.
pub open spec fn after_steps(state: Cached, steps: Seq<ResolveStep>) -> Cached
    decreases steps.len(),
{
    if steps.len() == 0 {
        state
    } else {
        after_step(after_steps(state, steps.drop_last()), steps.last())
    }
}

/// The cached scene of an entity: its own base, or the one it started with.
pub open spec fn own_cached(entity: DynamicSceneEntity, state: Cached) -> Cached {
    match entity.base {
        Some(base) => Cached { current: Some(base@), ..state },
        None => state,
    }
}

proof fn lemma_after_append(state: Cached, a: Seq<ResolveStep>, b: Seq<ResolveStep>)
    ensures
        after_steps(state, a + b) == after_steps(after_steps(state, a), b),
    decreases b.len(),
{
    if b.len() == 0 {
        assert(a + b =~= a);
    } else {
        lemma_after_append(state, a, b.drop_last());
        assert((a + b).drop_last() =~= a + b.drop_last());
        assert((a + b).last() == b.last());
    }
}

proof fn lemma_after_one(state: Cached, step: ResolveStep)
    ensures
        after_steps(state, seq![step]) == after_step(state, step),
{
    assert(seq![step].drop_last() =~= Seq::empty());
    assert(after_steps(state, seq![step].drop_last()) == state);
}

proof fn lemma_after_patches(state: Cached, patches: Seq<DynamicPatch>)
    ensures
        after_steps(state, patch_steps(patches)) == state,
    decreases patches.len(),
{
    if patches.len() > 0 {
        lemma_after_patches(state, patches.drop_last());
        assert(patch_steps(patches).drop_last() =~= patch_steps(patches.drop_last()));
    }
}

proof fn lemma_after_head(entity: DynamicSceneEntity, state: Cached)
    ensures
        after_steps(state, base_steps(entity.base) + name_steps(entity.name)) == own_cached(
            entity,
            state,
        ),
{
    lemma_after_append(state, base_steps(entity.base), name_steps(entity.name));
    if let Some(base) = entity.base {
        lemma_after_one(state, ResolveStep::Include(&base));
    }
    if let Some(name) = entity.name {
        lemma_after_one(own_cached(entity, state), ResolveStep::Name(&name));
    }
}

proof fn lemma_after_entity(entity: DynamicSceneEntity, state: Cached)
    ensures
        after_steps(state, entity_steps(entity)) == own_cached(entity, state),
    decreases entity,
{
    let head = base_steps(entity.base) + name_steps(entity.name);
    let patches = patch_steps(entity.patches@);
    lemma_after_head(entity, state);
    lemma_after_append(state, head, patches);
    lemma_after_append(state, head + patches, relations_steps(entity.relations@));
    lemma_after_patches(own_cached(entity, state), entity.patches@);
    lemma_after_relations(entity.relations@, own_cached(entity, state));
}

proof fn lemma_after_relations(relations: Seq<DynamicRelation>, state: Cached)
    ensures
        after_steps(state, relations_steps(relations)) == state,
    decreases relations,
{
    if relations.len() > 0 {
        let earlier = relations.drop_last();
        let relation = relations.last();
        lemma_after_relations(earlier, state);
        lemma_after_append(state, relations_steps(earlier), relation_steps(relation));
        lemma_after_relation(relation, state);
    }
}

proof fn lemma_after_relation(relation: DynamicRelation, state: Cached)
    ensures
        after_steps(state, relation_steps(relation)) == state,
    decreases relation,
{
    let open: Seq<ResolveStep> = seq![ResolveStep::OpenRelation(&relation.target)];
    let children = children_steps(relation.children@);
    let close: Seq<ResolveStep> = seq![ResolveStep::CloseRelation];
    let opened = after_step(state, ResolveStep::OpenRelation(&relation.target));
    lemma_after_one(state, ResolveStep::OpenRelation(&relation.target));
    lemma_after_append(state, open, children);
    lemma_after_append(state, open + children, close);
    lemma_after_children(relation.children@, opened);
    lemma_after_one(after_steps(opened, children), ResolveStep::CloseRelation);
    assert(opened.saved.drop_last() =~= state.saved);
}

proof fn lemma_after_children(children: Seq<DynamicSceneEntity>, state: Cached)
    ensures
        after_steps(state, children_steps(children)).saved == state.saved,
    decreases children,
{
    if children.len() > 0 {
        let earlier = children_steps(children.drop_last());
        let open: Seq<ResolveStep> = seq![ResolveStep::OpenChild];
        let steps = entity_steps(children.last());
        let close: Seq<ResolveStep> = seq![ResolveStep::CloseChild];
        let before = after_steps(state, earlier);
        let opened = after_step(before, ResolveStep::OpenChild);
        lemma_after_children(children.drop_last(), state);
        lemma_after_append(state, earlier, open);
        lemma_after_append(state, earlier + open, steps);
        lemma_after_append(state, earlier + open + steps, close);
        lemma_after_one(before, ResolveStep::OpenChild);
        lemma_after_entity(children.last(), opened);
        lemma_after_one(own_cached(children.last(), opened), ResolveStep::CloseChild);
    }
}

/// Cached scenes do not leak: after an entity was resolved, with all its relations, the cached
/// scene is the entity's own base, or else what it was before; and each of its patches sees
/// just that. A related entity starts without a cached scene, so that it sees its own base and
/// nothing of its parent or of its siblings.
pub proof fn law_cached_scenes_do_not_leak(entity: DynamicSceneEntity, state: Cached, patch: int)
    requires
        0 <= patch <= entity.patches@.len(),
    ensures
        after_steps(state, entity_steps(entity)) == own_cached(entity, state),
        after_steps(
            state,
            base_steps(entity.base) + name_steps(entity.name) + patch_steps(
                entity.patches@.take(patch),
            ),
        ) == own_cached(entity, state),
        after_step(state, ResolveStep::OpenChild).current is None,
{
    lemma_after_entity(entity, state);
    lemma_after_head(entity, state);
    lemma_after_append(
        state,
        base_steps(entity.base) + name_steps(entity.name),
        patch_steps(entity.patches@.take(patch)),
    );
    lemma_after_patches(own_cached(entity, state), entity.patches@.take(patch));
}

/// The number of relation blocks that are open after the first `n` steps: where a step fails,
/// that many have to be closed.
pub fn open_relations(steps: &Vec<ResolveStep>, n: usize) -> (r: usize)
    requires
        n <= steps.len(),
    ensures
        forall|state: Cached|
            state.saved.len() == 0 ==> #[trigger] after_steps(state, steps@.take(n as int)).saved.len()
                == r,
{
    let mut open: usize = 0;
    let mut i: usize = 0;
    assert(steps@.take(0) =~= Seq::empty());
    while i < n
        invariant
            i <= n <= steps.len(),
            open <= i,
            forall|state: Cached|
                state.saved.len() == 0 ==> #[trigger] after_steps(
                    state,
                    steps@.take(i as int),
                ).saved.len() == open,
        decreases n - i,
    {
        let ghost before = open;
        match &steps[i] {
            ResolveStep::OpenRelation(_) => {
                open = open + 1;
            },
            ResolveStep::CloseRelation => {
                if open > 0 {
                    open = open - 1;
                }
            },
            _ => {},
        }
        proof {
            assert(steps@.take(i + 1).drop_last() =~= steps@.take(i as int));
            assert forall|state: Cached| state.saved.len() == 0 implies #[trigger] after_steps(
                state,
                steps@.take(i + 1),
            ).saved.len() == open by {
                assert(after_steps(state, steps@.take(i as int)).saved.len() == before);
            }
        }
        i = i + 1;
    }
    open
}

// -- patches ------------------------------------------------------------------------------------

/// What the template slot of a patch holds.
#[derive(Clone, Copy, Debug)]
pub enum TemplateSlot<'a> {
    /// A template that cannot be patched.
    Hidden,
    /// A value that is no enum.
    Value,
    /// An enum, with the name of its current variant.
    Variant(&'a str),
}

/// What is done to the slot.
#[derive(Clone, Copy, PartialEq, Eq, Structural, Debug)]
pub enum PatchAction {
    /// Nothing.
    Keep,
    /// The supplied fields are applied.
    ApplyPartial,
    /// The full form of the variant is applied.
    ApplyFull,
}

/// Why a scene cannot be resolved.
#[derive(Debug)]
pub enum ResolveSceneError {
    /// The slot of a patch cannot be patched.
    UnpatchableTemplate { type_path: String },
    /// A value cannot be applied to the slot.
    ApplyFailed { type_path: String, error: String },
}

/// Whether the slot holds the variant.
pub open spec fn has_variant(slot: TemplateSlot, variant: Seq<char>) -> bool {
    match slot {
        TemplateSlot::Variant(current) => current@ == variant,
        _ => false,
    }
}

/// What a patch does to a slot that can be patched.
pub open spec fn patch_action(value: DynamicPatchValue, slot: TemplateSlot) -> PatchAction {
    match value {
        DynamicPatchValue::Ensure => PatchAction::Keep,
        DynamicPatchValue::Partial(_) => PatchAction::ApplyPartial,
        DynamicPatchValue::EnumVariant(forms) => if has_variant(slot, forms.variant@) {
            PatchAction::ApplyPartial
        } else {
            PatchAction::ApplyFull
        },
    }
}

/// Decides what a patch does to its template slot.
pub fn resolve_patch(patch: &DynamicPatch, slot: TemplateSlot) -> (r: Result<
    PatchAction,
    ResolveSceneError,
>)
    ensures
        match r {
            Ok(action) => slot !is Hidden && action == patch_action(patch.value, slot),
            Err(ResolveSceneError::UnpatchableTemplate { type_path }) => slot is Hidden
                && type_path@ == patch.template_type_path@,
            Err(_) => false,
        },
{
    let current: Option<&str> = match slot {
        TemplateSlot::Hidden => {
            return Err(
                ResolveSceneError::UnpatchableTemplate {
                    type_path: copy_str(patch.template_type_path.as_str()),
                },
            );
        },
        TemplateSlot::Value => None,
        TemplateSlot::Variant(current) => Some(current),
    };
    match &patch.value {
        DynamicPatchValue::Ensure => Ok(PatchAction::Keep),
        DynamicPatchValue::Partial(_) => Ok(PatchAction::ApplyPartial),
        DynamicPatchValue::EnumVariant(forms) => {
            let matches_variant = match current {
                Some(current) => same_text(current, forms.variant.as_str()),
                None => false,
            };
            if matches_variant {
                Ok(PatchAction::ApplyPartial)
            } else {
                Ok(PatchAction::ApplyFull)
            }
        },
    }
}

/// The result of a patch whose value was applied to the slot, or was not for the given reason.
pub fn patch_result(patch: &DynamicPatch, error: Option<&str>) -> (r: Result<(), ResolveSceneError>)
    ensures
        match error {
            None => r is Ok,
            Some(reason) => r matches Err(ResolveSceneError::ApplyFailed { type_path, error })
                && type_path@ == patch.template_type_path@ && error@ == reason@,
        },
{
    match error {
        None => Ok(()),
        Some(reason) => Err(
            ResolveSceneError::ApplyFailed {
                type_path: copy_str(patch.template_type_path.as_str()),
                error: copy_str(reason),
            },
        ),
    }
}

/// Untouched fields survive: a patch of a variant replaces the value of a slot only where the
/// slot holds another variant, and never does so twice in a row.
pub proof fn law_reset_only_on_another_variant(
    forms: VariantPlan,
    slot: TemplateSlot,
    reset: TemplateSlot,
)
    requires
        has_variant(reset, forms.variant@),
    ensures
        patch_action(DynamicPatchValue::EnumVariant(forms), slot) == PatchAction::ApplyFull
            <==> !has_variant(slot, forms.variant@),
        patch_action(DynamicPatchValue::EnumVariant(forms), reset) == PatchAction::ApplyPartial,
{
}

} // verus!
