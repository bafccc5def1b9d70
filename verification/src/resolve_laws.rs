//! What resolving a scene is for: whoever performs the steps ends up with the scene, and whoever
//! loads the dependencies has loaded the base and every asset.

use vstd::prelude::*;

use crate::resolve::{
    asset_dependencies, base_steps, children_steps, entity_steps, name_steps, patch_action,
    patch_steps, relation_steps, relations_steps, scene_dependencies, DynamicName, DynamicPatch,
    DynamicPatchValue, DynamicRelation, DynamicScene, DynamicSceneEntity, PatchAction,
    ResolveStep, SceneDependency, TemplateSlot,
};

verus! {

// -- the scene of an entity ---------------------------------------------------------------------

/// An entity as it stands once it is resolved.
pub ghost struct Resolved {
    pub base: Option<String>,
    pub name: Option<DynamicName>,
    pub patches: Seq<DynamicPatch>,
    pub relations: Seq<ResolvedRelation>,
}

/// A block of related entities.
pub ghost struct ResolvedRelation {
    pub target: String,
    pub children: Seq<Resolved>,
}

/// What an entity is resolved to.
pub open spec fn resolved(entity: DynamicSceneEntity) -> Resolved
    decreases entity,
{
    Resolved {
        base: entity.base,
        name: entity.name,
        patches: entity.patches@,
        relations: resolved_relations(entity.relations@),
    }
}

pub open spec fn resolved_relations(relations: Seq<DynamicRelation>) -> Seq<ResolvedRelation>
    decreases relations,
{
    if relations.len() == 0 {
        Seq::empty()
    } else {
        resolved_relations(relations.drop_last()).push(resolved_relation(relations.last()))
    }
}

pub open spec fn resolved_relation(relation: DynamicRelation) -> ResolvedRelation
    decreases relation,
{
    ResolvedRelation {
        target: relation.target,
        children: resolved_children(relation.children@),
    }
}

pub open spec fn resolved_children(children: Seq<DynamicSceneEntity>) -> Seq<Resolved>
    decreases children,
{
    if children.len() == 0 {
        Seq::empty()
    } else {
        resolved_children(children.drop_last()).push(resolved(children.last()))
    }
}

// -- performing steps ---------------------------------------------------------------------------

/// An entity that is being resolved, with the block of related entities that is open.
pub ghost struct Frame {
    pub scene: Resolved,
    pub block: Option<ResolvedRelation>,
}

/// An entity of which nothing is known yet.
pub open spec fn fresh() -> Frame {
    Frame {
        scene: Resolved {
            base: None,
            name: None,
            patches: Seq::empty(),
            relations: Seq::empty(),
        },
        block: None,
    }
}

/// What a step does: the last frame is the entity that is being resolved, and the ones before it
/// are the entities around it.
pub open spec fn performed(frames: Seq<Frame>, step: ResolveStep) -> Seq<Frame> {
    let outer = frames.drop_last();
    let last = frames.last();
    match step {
        ResolveStep::Include(base) => outer.push(
            Frame { scene: Resolved { base: Some(*base), ..last.scene }, ..last },
        ),
        ResolveStep::Name(name) => outer.push(
            Frame { scene: Resolved { name: Some(*name), ..last.scene }, ..last },
        ),
        ResolveStep::Patch(patch) => outer.push(
            Frame {
                scene: Resolved { patches: last.scene.patches.push(*patch), ..last.scene },
                ..last
            },
        ),
        ResolveStep::OpenRelation(target) => outer.push(
            Frame {
                block: Some(ResolvedRelation { target: *target, children: Seq::empty() }),
                ..last
            },
        ),
        ResolveStep::OpenChild => frames.push(fresh()),
        ResolveStep::CloseChild => {
            let around = outer.last();
            match around.block {
                Some(block) => outer.drop_last().push(
                    Frame {
                        block: Some(
                            ResolvedRelation { children: block.children.push(last.scene), ..block },
                        ),
                        ..around
                    },
                ),
                None => outer,
            }
        },
        ResolveStep::CloseRelation => match last.block {
            Some(block) => outer.push(
                Frame {
                    scene: Resolved {
                        relations: last.scene.relations.push(block),
                        ..last.scene
                    },
                    block: None,
                },
            ),
            None => frames,
        },
    }
}

/// What steps do, one after the other.
pub open spec fn all_performed(frames: Seq<Frame>, steps: Seq<ResolveStep>) -> Seq<Frame>
    decreases steps.len(),
{
    if steps.len() == 0 {
        frames
    } else {
        performed(all_performed(frames, steps.drop_last()), steps.last())
    }
}

proof fn lemma_append(frames: Seq<Frame>, a: Seq<ResolveStep>, b: Seq<ResolveStep>)
    ensures
        all_performed(frames, a + b) == all_performed(all_performed(frames, a), b),
    decreases b.len(),
{
    if b.len() == 0 {
        assert(a + b =~= a);
    } else {
        lemma_append(frames, a, b.drop_last());
        assert((a + b).drop_last() =~= a + b.drop_last());
        assert((a + b).last() == b.last());
    }
}

proof fn lemma_one(frames: Seq<Frame>, step: ResolveStep)
    ensures
        all_performed(frames, seq![step]) == performed(frames, step),
{
    assert(seq![step].drop_last() =~= Seq::empty());
    assert(all_performed(frames, seq![step].drop_last()) == frames);
}

proof fn lemma_patches(outer: Seq<Frame>, frame: Frame, patches: Seq<DynamicPatch>)
    ensures
        all_performed(outer.push(frame), patch_steps(patches)) == outer.push(
            Frame {
                scene: Resolved { patches: frame.scene.patches + patches, ..frame.scene },
                ..frame
            },
        ),
    decreases patches.len(),
{
    if patches.len() == 0 {
        assert(frame.scene.patches + patches =~= frame.scene.patches);
    } else {
        let before = patches.drop_last();
        lemma_patches(outer, frame, before);
        assert(patch_steps(patches).drop_last() =~= patch_steps(before));
        assert(patch_steps(patches).last() == ResolveStep::Patch(&patches.last()));
        let middle = outer.push(
            Frame {
                scene: Resolved { patches: frame.scene.patches + before, ..frame.scene },
                ..frame
            },
        );
        assert(middle.drop_last() =~= outer);
        assert((frame.scene.patches + before).push(patches.last()) =~= frame.scene.patches
            + patches);
    }
}

proof fn lemma_entity(outer: Seq<Frame>, entity: DynamicSceneEntity)
    ensures
        all_performed(outer.push(fresh()), entity_steps(entity)) == outer.push(
            Frame { scene: resolved(entity), block: None },
        ),
    decreases entity,
{
    let start = outer.push(fresh());
    let base = base_steps(entity.base);
    let name = name_steps(entity.name);
    let patches = patch_steps(entity.patches@);
    let relations = relations_steps(entity.relations@);
    lemma_append(start, base, name);
    lemma_append(start, base + name, patches);
    lemma_append(start, base + name + patches, relations);
    assert(start.drop_last() =~= outer);
    if let Some(text) = entity.base {
        lemma_one(start, ResolveStep::Include(&text));
    }
    let based = Frame { scene: Resolved { base: entity.base, ..fresh().scene }, block: None };
    assert(all_performed(start, base) == outer.push(based));
    assert(outer.push(based).drop_last() =~= outer);
    if let Some(given) = entity.name {
        lemma_one(outer.push(based), ResolveStep::Name(&given));
    }
    let named = Frame { scene: Resolved { name: entity.name, ..based.scene }, block: None };
    assert(all_performed(start, base + name) == outer.push(named));
    lemma_patches(outer, named, entity.patches@);
    assert(Seq::<DynamicPatch>::empty() + entity.patches@ =~= entity.patches@);
    let patched = Frame {
        scene: Resolved { patches: entity.patches@, ..named.scene },
        block: None,
    };
    lemma_relations(outer, patched, entity.relations@);
    assert(Seq::<ResolvedRelation>::empty() + resolved_relations(entity.relations@)
        =~= resolved_relations(entity.relations@));
}

proof fn lemma_relations(outer: Seq<Frame>, frame: Frame, relations: Seq<DynamicRelation>)
    requires
        frame.block is None,
    ensures
        all_performed(outer.push(frame), relations_steps(relations)) == outer.push(
            Frame {
                scene: Resolved {
                    relations: frame.scene.relations + resolved_relations(relations),
                    ..frame.scene
                },
                block: None,
            },
        ),
    decreases relations,
{
    if relations.len() == 0 {
        assert(frame.scene.relations + resolved_relations(relations) =~= frame.scene.relations);
    } else {
        let before = relations.drop_last();
        let relation = relations.last();
        lemma_relations(outer, frame, before);
        lemma_append(outer.push(frame), relations_steps(before), relation_steps(relation));
        let middle = Frame {
            scene: Resolved {
                relations: frame.scene.relations + resolved_relations(before),
                ..frame.scene
            },
            block: None,
        };
        lemma_relation(outer, middle, relation);
        assert(middle.scene.relations.push(resolved_relation(relation))
            =~= frame.scene.relations + resolved_relations(relations));
    }
}

proof fn lemma_relation(outer: Seq<Frame>, frame: Frame, relation: DynamicRelation)
    requires
        frame.block is None,
    ensures
        all_performed(outer.push(frame), relation_steps(relation)) == outer.push(
            Frame {
                scene: Resolved {
                    relations: frame.scene.relations.push(resolved_relation(relation)),
                    ..frame.scene
                },
                block: None,
            },
        ),
    decreases relation,
{
    let start = outer.push(frame);
    let open: Seq<ResolveStep> = seq![ResolveStep::OpenRelation(&relation.target)];
    let children = children_steps(relation.children@);
    let close: Seq<ResolveStep> = seq![ResolveStep::CloseRelation];
    lemma_append(start, open, children);
    lemma_append(start, open + children, close);
    lemma_one(start, ResolveStep::OpenRelation(&relation.target));
    assert(start.drop_last() =~= outer);
    let opened = Frame {
        block: Some(ResolvedRelation { target: relation.target, children: Seq::empty() }),
        ..frame
    };
    lemma_children(outer, opened, relation.target, relation.children@);
    let filled = Frame {
        block: Some(
            ResolvedRelation {
                target: relation.target,
                children: resolved_children(relation.children@),
            },
        ),
        ..frame
    };
    lemma_one(outer.push(filled), ResolveStep::CloseRelation);
    assert(outer.push(filled).drop_last() =~= outer);
}

proof fn lemma_children(
    outer: Seq<Frame>,
    frame: Frame,
    target: String,
    children: Seq<DynamicSceneEntity>,
)
    requires
        frame.block == Some(ResolvedRelation { target, children: Seq::empty() }),
    ensures
        all_performed(outer.push(frame), children_steps(children)) == outer.push(
            Frame {
                block: Some(ResolvedRelation { target, children: resolved_children(children) }),
                ..frame
            },
        ),
    decreases children,
{
    if children.len() > 0 {
        let before = children.drop_last();
        let child = children.last();
        let start = outer.push(frame);
        let earlier = children_steps(before);
        let open: Seq<ResolveStep> = seq![ResolveStep::OpenChild];
        let steps = entity_steps(child);
        let close: Seq<ResolveStep> = seq![ResolveStep::CloseChild];
        lemma_children(outer, frame, target, before);
        lemma_append(start, earlier, open);
        lemma_append(start, earlier + open, steps);
        lemma_append(start, earlier + open + steps, close);
        let filled = Frame {
            block: Some(ResolvedRelation { target, children: resolved_children(before) }),
            ..frame
        };
        let around = outer.push(filled);
        lemma_one(around, ResolveStep::OpenChild);
        lemma_entity(around, child);
        let done = around.push(Frame { scene: resolved(child), block: None });
        lemma_one(done, ResolveStep::CloseChild);
        assert(done.drop_last() =~= around);
        assert(around.drop_last() =~= outer);
    }
}

/// Whoever performs the steps of an entity on a fresh scene ends up with the scene of the entity:
/// its base, its name, its patches in order, and its blocks of related entities, each with its
/// target and the scenes of its entities. Nothing around the entity changes.
pub proof fn law_steps_make_the_scene(outer: Seq<Frame>, entity: DynamicSceneEntity)
    ensures
        ({
            let frames = all_performed(outer.push(fresh()), entity_steps(entity));
            let scene = frames.last().scene;
            &&& frames.len() == outer.len() + 1
            &&& frames.drop_last() == outer
            &&& frames.last().block is None
            &&& scene.base == entity.base
            &&& scene.name == entity.name
            &&& scene.patches == entity.patches@
            &&& scene == resolved(entity)
            &&& scene.relations.len() == entity.relations@.len()
            &&& forall|i: int|
                0 <= i < entity.relations@.len() ==> {
                    let relation = #[trigger] entity.relations@[i];
                    &&& scene.relations[i].target == relation.target
                    &&& scene.relations[i].children.len() == relation.children@.len()
                    &&& forall|j: int|
                        0 <= j < relation.children@.len() ==> {
                            let child = #[trigger] relation.children@[j];
                            let made = scene.relations[i].children[j];
                            &&& made == resolved(child)
                            &&& made.base == child.base
                            &&& made.name == child.name
                            &&& made.patches == child.patches@
                        }
                }
        }),
{
    lemma_entity(outer, entity);
    let frames = all_performed(outer.push(fresh()), entity_steps(entity));
    assert(frames.drop_last() =~= outer);
    lemma_relations_apart(entity.relations@);
    assert forall|i: int| 0 <= i < entity.relations@.len() implies {
        let relation = #[trigger] entity.relations@[i];
        let scene = frames.last().scene;
        &&& scene.relations[i].target == relation.target
        &&& scene.relations[i].children.len() == relation.children@.len()
        &&& forall|j: int|
            0 <= j < relation.children@.len() ==> {
                let child = #[trigger] relation.children@[j];
                let made = scene.relations[i].children[j];
                &&& made == resolved(child)
                &&& made.base == child.base
                &&& made.name == child.name
                &&& made.patches == child.patches@
            }
    } by {
        lemma_children_apart(entity.relations@[i].children@);
    }
}

proof fn lemma_relations_apart(relations: Seq<DynamicRelation>)
    ensures
        resolved_relations(relations).len() == relations.len(),
        forall|i: int|
            0 <= i < relations.len() ==> resolved_relations(relations)[i] == resolved_relation(
                #[trigger] relations[i],
            ),
    decreases relations.len(),
{
    if relations.len() > 0 {
        let before = relations.drop_last();
        lemma_relations_apart(before);
        assert forall|i: int| 0 <= i < relations.len() implies resolved_relations(relations)[i]
            == resolved_relation(#[trigger] relations[i]) by {
            if i < before.len() {
                assert(before[i] == relations[i]);
            }
        }
    }
}

proof fn lemma_children_apart(children: Seq<DynamicSceneEntity>)
    ensures
        resolved_children(children).len() == children.len(),
        forall|i: int|
            0 <= i < children.len() ==> resolved_children(children)[i] == resolved(
                #[trigger] children[i],
            ),
    decreases children.len(),
{
    if children.len() > 0 {
        let before = children.drop_last();
        lemma_children_apart(before);
        assert forall|i: int| 0 <= i < children.len() implies resolved_children(children)[i]
            == resolved(#[trigger] children[i]) by {
            if i < before.len() {
                assert(before[i] == children[i]);
            }
        }
    }
}

/// The steps of an entity start with its base, where it has one; then comes its name, where it
/// has one, whatever its base is; then come its patches in order. After them, there is nothing
/// but its blocks of related entities, the first of which is opened at once.
pub proof fn law_base_name_and_patches_come_first(entity: DynamicSceneEntity)
    ensures
        ({
            let steps = entity_steps(entity);
            let b: int = if entity.base is Some {
                1
            } else {
                0
            };
            let n: int = if entity.name is Some {
                1
            } else {
                0
            };
            let p = entity.patches@.len();
            &&& steps.len() >= b + n + p
            &&& entity.base matches Some(base) ==> steps[0] == ResolveStep::Include(&base)
            &&& entity.name matches Some(name) ==> steps[b] == ResolveStep::Name(&name)
            &&& forall|k: int|
                0 <= k < p ==> steps[b + n + k] == ResolveStep::Patch(&#[trigger] entity.patches@[k])
            &&& entity.relations@.len() == 0 <==> steps.len() == b + n + p
            &&& entity.relations@.len() > 0 ==> steps[b + n + p] == ResolveStep::OpenRelation(
                &entity.relations@[0].target,
            ) && steps.last() is CloseRelation
        }),
{
    lemma_first_relation(entity.relations@);
}

proof fn lemma_first_relation(relations: Seq<DynamicRelation>)
    ensures
        relations.len() == 0 ==> relations_steps(relations).len() == 0,
        relations.len() > 0 ==> relations_steps(relations).len() >= 2 && relations_steps(relations)[0]
            == ResolveStep::OpenRelation(&relations[0].target) && relations_steps(
            relations,
        ).last() is CloseRelation,
    decreases relations.len(),
{
    if relations.len() > 0 {
        let before = relations.drop_last();
        lemma_first_relation(before);
        let last: Seq<ResolveStep> = relation_steps(relations.last());
        let steps: Seq<ResolveStep> = relations_steps(relations);
        assert(last.len() >= 2 && last.last() is CloseRelation);
        assert(last[0] == ResolveStep::OpenRelation(&relations.last().target));
        assert(steps == relations_steps(before) + last);
        assert(steps.last() == last.last());
        if before.len() > 0 {
            assert(before[0] == relations[0]);
        }
    }
}

// -- dependencies -------------------------------------------------------------------------------

/// Whether a dependency is an asset.
pub open spec fn is_asset(dependency: SceneDependency) -> bool {
    dependency is Asset
}

/// Every asset of a scene is registered once, in order, whether or not the root has a base; and
/// beside them nothing is registered but the base of the root, which comes first.
pub proof fn law_every_dependency_is_registered(scene: DynamicScene)
    ensures
        ({
            let all = scene_dependencies(scene);
            let assets = all.filter(|d: SceneDependency| is_asset(d));
            let b: int = if scene.root.base is Some {
                1
            } else {
                0
            };
            &&& assets == asset_dependencies(scene.assets@)
            &&& assets.len() == scene.assets@.len()
            &&& forall|i: int|
                0 <= i < scene.assets@.len() ==> assets[i] == SceneDependency::Asset(
                    (#[trigger] scene.assets@[i]).asset,
                    &scene.assets@[i].path,
                )
            &&& all.len() == scene.assets@.len() + b
            &&& forall|i: int|
                0 <= i < scene.assets@.len() ==> all[b + i] == SceneDependency::Asset(
                    (#[trigger] scene.assets@[i]).asset,
                    &scene.assets@[i].path,
                )
            &&& scene.root.base matches Some(base) ==> all[0] == SceneDependency::Scene(&base)
        }),
{
    let all = scene_dependencies(scene);
    let keep = |d: SceneDependency| is_asset(d);
    let assets = asset_dependencies(scene.assets@);
    lemma_filter_all(assets, keep);
    if let Some(base) = scene.root.base {
        let first: Seq<SceneDependency> = seq![SceneDependency::Scene(&base)];
        reveal(Seq::filter);
        assert(first.drop_last() =~= Seq::empty());
        assert(!keep(first.last()));
        assert(first.drop_last().filter(keep) =~= Seq::empty());
        assert(first.filter(keep) =~= Seq::empty());
        Seq::filter_distributes_over_add(first, assets, keep);
        assert(all.filter(keep) =~= assets);
    }
}

proof fn lemma_filter_all(s: Seq<SceneDependency>, keep: spec_fn(SceneDependency) -> bool)
    requires
        forall|i: int| 0 <= i < s.len() ==> keep(#[trigger] s[i]),
    ensures
        s.filter(keep) == s,
    decreases s.len(),
{
    reveal(Seq::filter);
    if s.len() > 0 {
        lemma_filter_all(s.drop_last(), keep);
        assert(keep(s[s.len() - 1]));
        assert(s.drop_last().push(s.last()) =~= s);
    }
}

/// A patch without fields changes nothing. A partial value is applied whatever the slot holds. A
/// variant is applied in full where the slot holds another variant, or no variant, and in part
/// where it holds the same one.
pub proof fn law_patches_act_by_what_they_supply(value: DynamicPatchValue, slot: TemplateSlot)
    ensures
        ({
            let action = patch_action(value, slot);
            &&& action == PatchAction::Keep <==> value is Ensure
            &&& value is Partial ==> action == PatchAction::ApplyPartial
            &&& value matches DynamicPatchValue::EnumVariant(forms) ==> match slot {
                TemplateSlot::Variant(current) => if current@ == forms.variant@ {
                    action == PatchAction::ApplyPartial
                } else {
                    action == PatchAction::ApplyFull
                },
                _ => action == PatchAction::ApplyFull,
            }
        }),
{
}

} // verus!
