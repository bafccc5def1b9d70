//! Templates, and references to the named entities of scenes.

use bevy_bsn::{
    template, BuiltInTemplate, Entity, EntityTemplate, FnTemplate, FromTemplate, OptionTemplate,
    SceneEntityReference, SceneEntityReferenceSource, SceneEntityReferences, Template,
    TemplateContext, TemplateError, TemplateTuple, VecTemplate,
};
use bevy_platform::hash::Hashed;

/// Hands out entities.
#[derive(Default)]
struct World {
    spawned: u64,
}

impl World {
    fn spawn(&mut self) -> Entity {
        self.spawned += 1;
        Entity(self.spawned)
    }

    fn contains(&self, entity: Entity) -> bool {
        entity.0 >= 1 && entity.0 <= self.spawned
    }
}

fn hash_of(reference: &SceneEntityReference) -> u64 {
    Hashed::<SceneEntityReference>::new(*reference).hash()
}

/// Builds a template, spawning the entities that it asks for.
fn build<T: Template>(template: &T, world: &mut World) -> Result<T::Output, TemplateError> {
    let mut context = TemplateContext::new(world.spawn(), SceneEntityReferences::default());
    loop {
        match template.build_template(&context) {
            Err(TemplateError::Unresolved(reference)) => {
                let entity = world.spawn();
                context.entity_references.set(reference, entity);
            }
            result => return result,
        }
    }
}

#[test]
fn asset_scene_entity_reference_is_stable() {
    let a = SceneEntityReference::from_asset("a.bsn", 3);
    let b = SceneEntityReference::from_asset("a.bsn", 3);
    assert_eq!(a, b);
    assert_eq!(hash_of(&a), hash_of(&b));
    assert_eq!(
        a.source(),
        SceneEntityReferenceSource::Asset {
            path_hash: SceneEntityReference::asset_path_hash("a.bsn")
        }
    );
}

#[test]
fn asset_scene_entity_references_differ_by_path_and_node() {
    assert_ne!(
        SceneEntityReference::from_asset("a.bsn", 3),
        SceneEntityReference::from_asset("b.bsn", 3)
    );
    assert_ne!(
        SceneEntityReference::from_asset("a.bsn", 3),
        SceneEntityReference::from_asset("a.bsn", 4)
    );
}

#[test]
fn asset_and_call_site_references_never_collide() {
    assert_ne!(
        SceneEntityReference::from_asset("x", 0),
        SceneEntityReference::new(("x", 0, 0), 0, 0)
    );
}

#[test]
fn scene_entity_references_map_resolves_asset_references() {
    let mut world = World::default();
    let mut references = SceneEntityReferences::default();

    let first = references.get(SceneEntityReference::from_asset("a.bsn", 1), world.spawn());
    let first_again =
        references.get(SceneEntityReference::from_asset("a.bsn", 1), world.spawn());
    let second = references.get(SceneEntityReference::from_asset("a.bsn", 2), world.spawn());

    assert_eq!(first, first_again);
    assert_ne!(first, second);
    assert!(world.contains(first));
    assert!(world.contains(second));
}

#[test]
fn fresh_reference_map_yields_fresh_entities() {
    let mut world = World::default();
    let reference = SceneEntityReference::from_asset("a.bsn", 1);

    let first = SceneEntityReferences::default().get(reference, world.spawn());
    let second = SceneEntityReferences::default().get(reference, world.spawn());

    assert_ne!(first, second);
}

#[test]
fn entity_template_from_asset_reference() {
    let template = EntityTemplate::from_asset_reference("a.bsn", 1);
    let expected = SceneEntityReference::from_asset("a.bsn", 1);

    let EntityTemplate::SceneEntityReference(reference) = template else {
        panic!("expected a SceneEntityReference variant, got {template:?}");
    };
    assert_eq!(reference, expected);

    let EntityTemplate::SceneEntityReference(cloned) =
        Template::clone_template(&EntityTemplate::from_asset_reference("a.bsn", 1))
    else {
        panic!("expected clone_template to preserve the variant");
    };
    assert_eq!(cloned, expected);
}

#[test]
fn call_site_scene_entity_reference_unchanged() {
    let reference = SceneEntityReference::new(("f.rs", 1, 2), 3, 4);
    assert_eq!(reference, SceneEntityReference::new(("f.rs", 1, 2), 3, 4));
    assert_ne!(reference, SceneEntityReference::new(("f.rs", 1, 2), 3, 5));
    assert_eq!(
        reference.source(),
        SceneEntityReferenceSource::CallSite {
            file: "f.rs",
            line: 1,
            column: 2
        }
    );
    assert!(reference.text().starts_with("global=f.rs:1:2"));
    assert!(
        SceneEntityReference::from_asset("a.bsn", 1).text().starts_with("asset=#")
    );
}

#[test]
fn option_template() {
    let mut world = World::default();
    let handle = template(|_context: &TemplateContext| Ok("handle_path".to_string()));
    let foo_template: OptionTemplate<FnTemplate<_, String>> = Some(handle).into();
    let foo = build(&foo_template, &mut world).unwrap();
    assert_eq!(foo.unwrap(), "handle_path".to_string());

    let absent = build(&OptionTemplate::<EntityTemplate>::default(), &mut world).unwrap();
    assert!(absent.is_none());
}

#[test]
fn entity_template_builds_the_entity_it_names() {
    let mut world = World::default();
    assert_eq!(build(&EntityTemplate::from(Entity(40)), &mut world).unwrap(), Entity(40));

    let reference = SceneEntityReference::new(("f.rs", 1, 2), 3, 4);
    let mut references = SceneEntityReferences::default();
    references.set(reference, Entity(41));
    references.set(reference, Entity(42));
    let context = TemplateContext::new(Entity(1), references);
    let known = EntityTemplate::from_reference(("f.rs", 1, 2), 3, 4);
    assert_eq!(known.build_template(&context).unwrap(), Entity(41));
    assert_eq!(context.get_entity(reference).unwrap(), Entity(41));

    let error = EntityTemplate::default().build_template(&context).unwrap_err();
    assert!(matches!(error, TemplateError::Unspecified));
    assert_eq!(error.message(), "Failed to specify an entity for this EntityTemplate");
}

#[test]
fn an_unknown_entity_is_asked_for_once() {
    let mut world = World::default();
    let reference = EntityTemplate::from_asset_reference("a.bsn", 1);
    let other = EntityTemplate::from_asset_reference("a.bsn", 2);
    let built = build(&VecTemplate(vec![reference, other, reference]), &mut world).unwrap();
    assert_eq!(built.len(), 3);
    assert_eq!(built[0], built[2]);
    assert_ne!(built[0], built[1]);
}

#[test]
fn list_template_reports_the_first_failure() {
    let context = TemplateContext::new(Entity(1), SceneEntityReferences::default());
    let list = VecTemplate(vec![
        EntityTemplate::from(Entity(5)),
        EntityTemplate::from_asset_reference("a.bsn", 1),
        EntityTemplate::default(),
    ]);
    let expected = SceneEntityReference::from_asset("a.bsn", 1);
    match list.build_template(&context) {
        Err(TemplateError::Unresolved(reference)) => assert_eq!(reference, expected),
        _ => panic!("the second item is not known"),
    }
    let copy = list.clone_template();
    assert_eq!(copy.0.len(), 3);
    assert!(matches!(copy.0[0], EntityTemplate::Entity(Entity(5))));
    assert!(matches!(copy.0[2], EntityTemplate::Unset));
}

#[test]
fn tuple_template_builds_every_part() {
    let mut world = World::default();
    let pair = TemplateTuple((
        EntityTemplate::from(Entity(8)),
        template(|context: &TemplateContext| Ok(context.entity)),
    ));
    let (first, second) = build(&pair, &mut world).unwrap();
    assert_eq!(first, Entity(8));
    assert_eq!(second, Entity(1));
    let failing = template(|_context: &TemplateContext| -> Result<Entity, TemplateError> {
        Err(TemplateError::Failed("no such asset".to_string()))
    });
    let error = build(&TemplateTuple((pair.clone_template(), failing)), &mut world)
        .err()
        .expect("the second part fails");
    assert_eq!(error.message(), "no such asset");
}

#[test]
fn entities_have_a_canonical_template() {
    fn canonical<T: FromTemplate<Template = EntityTemplate>>() -> bool {
        true
    }
    fn built_in<T: BuiltInTemplate<Template = VecTemplate<EntityTemplate>>>() -> bool {
        true
    }
    assert!(canonical::<Entity>());
    assert!(built_in::<Vec<Entity>>());
}

#[test]
fn reference_texts_are_exact() {
    let reference = SceneEntityReference::new(("f.rs", 10, 2), 3, 4);
    assert_eq!(reference.text(), "global=f.rs:10:2 name_id=3 runtime=4");
    let asset = SceneEntityReference::from_asset_hashed(0x2a, 7);
    assert_eq!(asset.text(), "asset=#000000000000002a node_id=7");
    assert_eq!(asset.source(), SceneEntityReferenceSource::Asset { path_hash: 42 });
}
