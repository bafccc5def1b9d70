//! Resolving scenes: the order of the steps, the cached scene, and the patches of templates.

use bevy_bsn::{
    choose_constructor, clone_template_source, finish_construction, needs_apply, open_relations,
    output_source, patch_result, resolve_patch, AssetDependency, CloneSource, Constructors,
    DynamicName, DynamicPatch, DynamicPatchValue, DynamicRelation, DynamicScene,
    DynamicSceneEntity, Form, FromReflectError, OutputSource, PatchAction, Plan,
    ResolveSceneError, ResolveStep, SceneDependency, SceneEntityReference, SourceTrait,
    TemplateSlot, TypeKey, VariantKind, VariantPlan,
};

fn patch(path: &str, value: DynamicPatchValue) -> DynamicPatch {
    DynamicPatch {
        template_type_path: path.to_string(),
        value,
    }
}

fn entity(base: Option<&str>, patches: &[&str], children: Vec<DynamicSceneEntity>) -> DynamicSceneEntity {
    DynamicSceneEntity {
        base: base.map(|base| base.to_string()),
        name: None,
        patches: patches.iter().map(|path| patch(path, DynamicPatchValue::Ensure)).collect(),
        relations: if children.is_empty() {
            Vec::new()
        } else {
            vec![DynamicRelation {
                target: "Children".to_string(),
                children,
            }]
        },
    }
}

fn scene(root: DynamicSceneEntity) -> DynamicScene {
    DynamicScene {
        root,
        assets: vec![AssetDependency {
            asset: 5,
            path: "a.png".to_string(),
        }],
        source: "s.bsn".to_string(),
    }
}

/// The patches of a scene, each with the cached scene that it sees.
fn seen(scene: &DynamicScene) -> Vec<(String, Option<String>)> {
    let mut cached = None;
    let mut saved = Vec::new();
    let mut seen = Vec::new();
    for step in scene.resolve() {
        match step {
            ResolveStep::Include(base) => cached = Some(base.clone()),
            ResolveStep::Name(name) => seen.push((format!("#{}", name.name), cached.clone())),
            ResolveStep::Patch(patch) => {
                seen.push((patch.template_type_path.clone(), cached.clone()));
            }
            ResolveStep::OpenRelation(_) => saved.push(cached.take()),
            ResolveStep::OpenChild => cached = None,
            ResolveStep::CloseChild => {}
            ResolveStep::CloseRelation => cached = saved.pop().expect("an open relation"),
        }
    }
    assert!(saved.is_empty());
    seen
}

/// What the patch with the given path sees.
fn cached_at(children: Vec<DynamicSceneEntity>, path: &str) -> Option<String> {
    let scene = scene(entity(None, &[], children));
    let found = seen(&scene).into_iter().find(|(patch, _)| patch == path);
    found.expect("the patch is there").1
}

#[test]
fn a1_sibling_base_does_not_leak_cached_context() {
    let children = vec![
        entity(Some("c.bsn"), &["Marker"], Vec::new()),
        entity(None, &["Position"], Vec::new()),
    ];
    assert_eq!(
        cached_at(children, "Position"),
        None,
        "the second child has no base, so it must not inherit from c.bsn"
    );
}

#[test]
fn a1_control_no_sibling_base() {
    let children = vec![
        entity(None, &["Marker"], Vec::new()),
        entity(None, &["Position"], Vec::new()),
    ];
    assert_eq!(cached_at(children, "Position"), None);
}

#[test]
fn a1_control_base_on_the_last_child() {
    let children = vec![
        entity(None, &["Position"], Vec::new()),
        entity(Some("c.bsn"), &["Marker"], Vec::new()),
    ];
    assert_eq!(cached_at(children, "Position"), None);
}

#[test]
fn siblings_do_not_see_each_other_s_cached_scene() {
    let scene = scene(entity(
        Some("root.bsn"),
        &["A"],
        vec![
            entity(Some("c.bsn"), &["Marker"], vec![entity(None, &["Deep"], Vec::new())]),
            entity(None, &["Position"], Vec::new()),
        ],
    ));
    let expected = [
        ("A", Some("root.bsn")),
        ("Marker", Some("c.bsn")),
        ("Deep", None),
        ("Position", None),
    ];
    let expected: Vec<(String, Option<String>)> = expected
        .iter()
        .map(|(path, base)| (path.to_string(), base.map(|base| base.to_string())))
        .collect();
    assert_eq!(seen(&scene), expected);
}

#[test]
fn an_entity_is_resolved_base_first_and_relations_last() {
    let mut root = entity(Some("root.bsn"), &["A", "B"], vec![entity(None, &["C"], Vec::new())]);
    root.name = Some(DynamicName {
        name: "Root".to_string(),
        reference: SceneEntityReference::from_asset("s.bsn", 0),
    });
    root.relations.push(DynamicRelation {
        target: "Empty".to_string(),
        children: Vec::new(),
    });
    let scene = scene(root);
    let kinds: Vec<String> = scene
        .resolve()
        .iter()
        .map(|step| match step {
            ResolveStep::Include(base) => format!("include {base}"),
            ResolveStep::Name(name) => format!("name {}", name.name),
            ResolveStep::Patch(patch) => format!("patch {}", patch.template_type_path),
            ResolveStep::OpenRelation(target) => format!("open {target}"),
            ResolveStep::OpenChild => "child".to_string(),
            ResolveStep::CloseChild => "end".to_string(),
            ResolveStep::CloseRelation => "close".to_string(),
        })
        .collect();
    assert_eq!(
        kinds,
        [
            "include root.bsn",
            "name Root",
            "patch A",
            "patch B",
            "open Children",
            "child",
            "patch C",
            "end",
            "close",
            "open Empty",
            "close",
        ]
    );
    let steps = scene.resolve();
    assert_eq!(open_relations(&steps, 4), 0);
    assert_eq!(open_relations(&steps, 6), 1);
    assert_eq!(open_relations(&steps, steps.len()), 0);
}

#[test]
fn the_base_is_a_dependency_besides_the_assets() {
    let scene = scene(entity(Some("root.bsn"), &[], Vec::new()));
    let dependencies = scene.register_dependencies();
    assert_eq!(dependencies.len(), 2);
    assert!(matches!(dependencies[0], SceneDependency::Scene(path) if path == "root.bsn"));
    assert!(matches!(dependencies[1], SceneDependency::Asset(5, path) if path == "a.png"));
    assert_eq!(scene.dependencies().len(), 1);
}

#[test]
fn a_variant_patch_matches_or_resets() {
    let forms = VariantPlan {
        ty: TypeKey(0),
        variant: "Bar".to_string(),
        kind: VariantKind::Unit,
        defaults: Vec::new(),
        supplied: Vec::new(),
    };
    let bar = patch("Choice", DynamicPatchValue::EnumVariant(forms));
    let action = |slot| resolve_patch(&bar, slot).unwrap();
    assert_eq!(action(TemplateSlot::Variant("Bar")), PatchAction::ApplyPartial);
    assert_eq!(action(TemplateSlot::Variant("Baz")), PatchAction::ApplyFull);
    assert_eq!(action(TemplateSlot::Value), PatchAction::ApplyFull);
    let partial = patch(
        "Foo",
        DynamicPatchValue::Partial(Plan::Group(Form::Struct, TypeKey(0), Vec::new())),
    );
    assert_eq!(
        resolve_patch(&partial, TemplateSlot::Value).unwrap(),
        PatchAction::ApplyPartial
    );
    let ensure = patch("Foo", DynamicPatchValue::Ensure);
    assert_eq!(resolve_patch(&ensure, TemplateSlot::Value).unwrap(), PatchAction::Keep);
}

#[test]
fn unpatchable_slot_errors() {
    let ensure = patch("my_game::Foo", DynamicPatchValue::Ensure);
    match resolve_patch(&ensure, TemplateSlot::Hidden) {
        Err(ResolveSceneError::UnpatchableTemplate { type_path }) => {
            assert_eq!(type_path, "my_game::Foo");
        }
        other => panic!("{other:?}"),
    }
    assert!(patch_result(&ensure, None).is_ok());
    match patch_result(&ensure, Some("no field")) {
        Err(ResolveSceneError::ApplyFailed { type_path, error }) => {
            assert_eq!(type_path, "my_game::Foo");
            assert_eq!(error, "no field");
        }
        other => panic!("{other:?}"),
    }
}

fn constructors(from_reflect: bool, default: bool, from_world: bool) -> Constructors {
    Constructors {
        registered: true,
        from_reflect,
        default,
        from_world,
        world: false,
    }
}

#[test]
fn try_from_reflect_unregistered_type_errors() {
    let unregistered = Constructors {
        registered: false,
        ..constructors(true, true, true)
    };
    let error = choose_constructor("Unregistered", unregistered).unwrap_err();
    assert!(matches!(error, FromReflectError::NotRegistered { .. }));
    assert_eq!(
        error.message(),
        "The type `Unregistered` is not registered in the `TypeRegistry`"
    );
}

#[test]
fn try_from_reflect_missing_constructor_errors() {
    let error = choose_constructor("NoConstructor", constructors(false, false, false)).unwrap_err();
    assert!(matches!(error, FromReflectError::MissingConstructor { .. }));
    let message = error.message();
    assert!(
        message.contains("`FromReflect` or `Default` traits"),
        "unexpected message: {message}"
    );
    let world = Constructors {
        world: true,
        ..constructors(false, false, false)
    };
    let message = choose_constructor("NoConstructor", world).unwrap_err().message();
    assert!(message.contains("`FromReflect`, `Default` or `FromWorld` traits"));
}

#[test]
fn try_from_reflect_uses_from_reflect() {
    let source = choose_constructor("FromReflectable", constructors(true, true, true)).unwrap();
    assert_eq!(source, SourceTrait::FromReflect);
    assert!(!needs_apply(source));
    assert!(finish_construction("FromReflectable", source, None, true).is_ok());
}

#[test]
fn try_from_reflect_uses_default_and_applies() {
    let source = choose_constructor("DefaultOnly", constructors(false, true, true)).unwrap();
    assert_eq!(source, SourceTrait::Default);
    assert!(needs_apply(source));
    assert!(finish_construction("DefaultOnly", source, None, true).is_ok());
    let error = finish_construction("DefaultOnly", source, Some("no field"), true).unwrap_err();
    assert_eq!(
        error.message(),
        "Failed to apply a reflected value onto a default instance of `DefaultOnly`: no field"
    );
    let error = finish_construction("DefaultOnly", source, None, false).unwrap_err();
    assert_eq!(
        error.message(),
        "The registration for the reflected `Default` trait for the type `DefaultOnly` \
         produced a value of a different type"
    );
}

#[test]
fn from_reflect_with_fallback_still_uses_from_world() {
    let only_world = constructors(false, false, true);
    assert!(choose_constructor("FromWorldOnly", only_world).is_err());
    let with_world = Constructors {
        world: true,
        ..only_world
    };
    let source = choose_constructor("FromWorldOnly", with_world).unwrap();
    assert_eq!(source, SourceTrait::FromWorld);
    assert!(needs_apply(source));
}

#[test]
fn clone_template_falls_back_to_from_reflect() {
    assert_eq!(clone_template_source(true, true), CloneSource::Clone);
    assert_eq!(clone_template_source(false, true), CloneSource::FromReflect);
    assert_eq!(clone_template_source(false, false), CloneSource::Default);
    assert_eq!(output_source(true, false, false), Some(OutputSource::Built));
    assert_eq!(output_source(false, true, true), Some(OutputSource::Clone));
    assert_eq!(output_source(false, false, true), Some(OutputSource::FromReflect));
    assert_eq!(output_source(false, false, false), None);
}
