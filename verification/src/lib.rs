//! A verified reader and writer for `.bsn` scene documents.
//!
//! [`parse`] turns a text into a [`BsnDocument`] and [`print_document`] turns a document into a
//! text. [`build_value`] builds the values of a document for the types of a registry, and
//! [`DynamicScene`] says how a scene that was built is resolved. [`Template`]s,
//! [`SceneEntityReference`]s and [`AccessibilitySubtreeSnapshot`]s stand on their own.

pub mod text;
pub mod chars;
pub mod digits;
pub mod span;
pub mod unsupported;
pub mod error;
pub mod token;
pub mod lexical;
pub mod lexer;
pub mod float;
pub mod literal;
pub mod token_laws;
pub mod report_law;
pub mod model;
pub mod ast;
pub mod grammar;
pub mod layout;
pub mod progress;
pub mod parser;
pub mod entities;
pub mod order;
pub mod render;
pub mod printer;
pub mod bounds;
pub mod forest;
pub mod compare;
pub mod dump;
pub mod reading;
pub mod shape;
pub mod reparse_paths;
pub mod reparse_values;
pub mod reparse_entities;
pub mod tree_text;
pub mod reread_values;
pub mod reread_entities;
pub mod reread_document;
pub mod unfolding;
pub mod twin;
pub mod parsed_trees;
pub mod parsed_spans;
pub mod laid_out;
pub mod roundtrip;
pub mod path_laws;
pub mod patch_laws;
pub mod grouping;
pub mod grammar_laws;
pub mod comment_laws;
pub mod words;
pub mod tuples;
pub mod decoding_laws;
pub mod inline_law;
pub mod arena;
pub mod error_spans;
pub mod preorder;
pub mod printed_lines;
pub mod walk;
pub mod equality;
pub mod sameness;
pub mod difference;
pub mod entity;
pub mod subtree_graph;
pub mod subtree_laws;
pub mod subtree;
pub mod accessibility;
pub mod scene_reference;
pub mod template;
pub mod template_laws;
pub mod template_outputs;
pub mod registry;
pub mod plan;
pub mod asset_path;
pub mod name_set;
pub mod building;
pub mod builder;
pub mod building_laws;
pub mod plan_laws;
pub mod refusal_laws;
pub mod message_laws;
pub mod literal_laws;
pub mod resolve;
pub mod resolve_laws;
pub mod constructing;

pub use crate::accessibility::{
    AccessibilityActivationGeneration, AccessibilityAdapterGeneration,
    AccessibilityAttachmentGeneration, AccessibilityPlugin, AccessibilityRequested,
    AccessibilitySubtreeLifecycle, AccessibilitySubtreeLifecycleToken, AccessibilitySubtreeOrder,
    AccessibilitySubtreeParentFocus, AccessibilitySubtreeProvider,
    AccessibilitySubtreeProviderError, AccessibilitySystems, ManageAccessibilityUpdates,
    WindowAccessibilityState,
};
pub use crate::ast::{
    BsnDocument, BsnNode, BsnNodeId, BsnNodeKind, BsnPatchPrefix, BsnPath, BsnPathSegment, BsnValue,
    BsnValueId, BsnValueNode, PatchBody,
};
pub use crate::builder::{
    asset_path, build_bool, build_entity_ref, build_enum_forms, build_float, build_int, build_list,
    build_partial_struct, build_partial_tuple_struct, build_string, build_tuple, build_unit,
    build_value, AssetDependency, BuildCx, BuildState, EnumInput, NamedEntity,
};
pub use crate::constructing::{
    choose_constructor, clone_template_source, finish_construction, needs_apply, output_source,
    CloneSource, Constructors, FromReflectError, OutputSource, SourceTrait,
};
pub use crate::entities::parse;
pub use crate::entity::{Entity, NodeId, TreeId};
pub use crate::error::{BsnParseError, BsnParseErrorKind, MAX_NESTING_DEPTH};
pub use crate::float::{BsnFloat, FloatTable};
pub use crate::lexer::Lexer;
pub use crate::literal::{decode_float, decode_int, decode_string, float_literal, float_literals};
pub use crate::plan::{
    Answer, DynamicSceneBuildError, Form, Halt, Part, Plan, Question, Slot, VariantPlan,
};
pub use crate::printer::{print_document, write_document, write_document_with};
pub use crate::registry::{
    Builtin, Field, FloatType, IntType, Shape, TypeEntry, TypeKey, TypeTable, Variant, VariantKind,
};
pub use crate::render::{PrintOptions, MAX_WALK_DEPTH};
pub use crate::resolve::{
    open_relations, patch_result, resolve_entity, resolve_patch, DynamicName, DynamicPatch,
    DynamicPatchValue, DynamicRelation, DynamicScene, DynamicSceneEntity, PatchAction,
    ResolveSceneError, ResolveStep, SceneDependency, TemplateSlot,
};
pub use crate::scene_reference::{
    SceneEntityReference, SceneEntityReferenceSource, SceneEntityReferences,
};
pub use crate::span::Span;
pub use crate::subtree::{
    AccessibilitySubtreeSnapshot, SubtreeInfo, SubtreeNode, SubtreeUpdate,
};
pub use crate::subtree_graph::AccessibilitySubtreeSnapshotError;
pub use crate::template::{
    template, BuiltInTemplate, EntityTemplate, FnTemplate, FromTemplate, OptionTemplate,
    SpecializeFromTemplate, Template, TemplateContext, TemplateError, TemplateTuple, ValueTemplate,
    VecTemplate,
};
pub use crate::token::{LexError, Token, TokenKind};
