//! References to named entities of scenes, and the entities that they stand for.

use bevy_platform::collections::HashMap;
use bevy_platform::hash::{fixed_hash_one, FixedHasher, Hashed, PassHash};

use vstd::prelude::*;

use crate::digits::{
    decimal, lemma_radix_round_trip, push_decimal, push_radix, radix_text, radix_value,
};
use crate::entity::Entity;
use crate::error::{push_repeated, repeated};
use crate::text::{push_chars, push_text, string_of};

verus! {

// -- the table of known entities ----------------------------------------------------------------

/// `bevy_platform::hash::Hashed`: a value together with its hash.
#[verifier::external_type_specification]
#[verifier::external_body]
#[verifier::reject_recursive_types(V)]
#[verifier::reject_recursive_types(S)]
pub struct ExHashed<V, S>(Hashed<V, S>);

/// `bevy_platform::hash::FixedHasher`: the hasher that `Hashed` uses.
#[verifier::external_type_specification]
#[verifier::external_body]
pub struct ExFixedHasher(FixedHasher);

/// `bevy_platform::hash::PassHash`: the hasher that passes the hash of a `Hashed` on.
#[verifier::external_type_specification]
#[verifier::external_body]
pub struct ExPassHash(PassHash);

/// `bevy_platform::collections::HashMap`.
#[verifier::external_type_specification]
#[verifier::external_body]
#[verifier::reject_recursive_types(K)]
#[verifier::reject_recursive_types(V)]
#[verifier::reject_recursive_types(S)]
pub struct ExHashMap<K, V, S>(HashMap<K, V, S>);

/// A reference as plain values: whether it comes from an asset, the file, line and column of
/// its call site, the digest of its asset path, the number of its name, and its run.
pub type ReferenceKey = (bool, &'static str, usize, usize, u64, usize, u64);

/// A [`ReferenceKey`] by the characters of its file.
pub type ReferenceNumbers = (bool, Seq<char>, usize, usize, u64, usize, u64);

/// A hash map from references to entities.
pub type ReferenceMap = HashMap<Hashed<ReferenceKey>, u64, PassHash>;

pub open spec fn key_numbers(key: ReferenceKey) -> ReferenceNumbers {
    (key.0, key.1@, key.2, key.3, key.4, key.5, key.6)
}

/// The entries of a hash map from references to entities.
pub uninterp spec fn map_entries(map: HashMap<Hashed<ReferenceKey>, u64, PassHash>) -> Map<(bool, Seq<char>, usize, usize, u64, usize, u64), u64>;

pub open spec fn no_entries() -> Map<ReferenceNumbers, u64> {
    Map::empty()
}

/// `HashMap::with_hasher`, of `bevy_platform`: a map without entries.
#[verifier::external_body]
fn new_map() -> (r: ReferenceMap)
    ensures
        map_entries(r) == no_entries(),
{
    HashMap::with_hasher(PassHash)
}

/// `HashMap::get`, of `bevy_platform`: the value of a key, if the map has one. Keys are equal
/// when their components are.
#[verifier::external_body]
fn map_get(map: &ReferenceMap, key: ReferenceKey) -> (r: Option<u64>)
    ensures
        r == (if map_entries(*map).contains_key(key_numbers(key)) {
            Some(map_entries(*map)[key_numbers(key)])
        } else {
            None
        }),
{
    map.get(&Hashed::new(key)).copied()
}

/// `HashMap::insert`, of `bevy_platform`: gives a key a value, and leaves the others as they
/// are.
#[verifier::external_body]
fn map_insert(map: &mut ReferenceMap, key: ReferenceKey, value: u64)
    ensures
        map_entries(*final(map)) == map_entries(*old(map)).insert(key_numbers(key), value),
{
    map.insert(Hashed::new(key), value);
}

/// The digest that `bevy_platform::hash::fixed_hash_one` gives a text, on a machine of the given
/// byte order. Machines without wide arithmetic fold the two halves of a product, and rotate the
/// two halves of a word, in a way of their own.
pub uninterp spec fn text_digest(text: Seq<char>, little_endian: bool, wide_multiply: bool, wide_rotate: bool) -> u64;

/// `bevy_platform::hash::fixed_hash_one`, of a text: its digest, by a hasher with a fixed seed.
///
/// The digest depends on nothing but the text, the byte order of the machine, and how the library
/// was built to multiply and to rotate. Which of the ways of multiplying and rotating a build
/// takes is left unsaid: it is chosen by the processor that the library is built for.
#[verifier::external_body]
fn hash_text(text: &str) -> (r: u64)
    ensures
        exists|wide_multiply: bool, wide_rotate: bool|
            r == #[trigger] text_digest(
                text@,
                vstd::endian::endianness() is Little,
                wide_multiply,
                wide_rotate,
            ),
{
    fixed_hash_one(text)
}

// -- references ---------------------------------------------------------------------------------

/// Identifies the "definition scope" that a [`SceneEntityReference`] belongs to. Two references
/// with different sources are never equal.
#[derive(Copy, Clone, PartialEq, Eq, Hash, Debug)]
pub enum SceneEntityReferenceSource {
    /// The reference was produced by a macro expanded at a source location.
    CallSite {
        /// The source file of the macro invocation.
        file: &'static str,
        /// The line of the macro invocation.
        line: usize,
        /// The column of the macro invocation.
        column: usize,
    },
    /// The reference was produced by a scene *asset* (such as a `.bsn` file).
    ///
    /// `path_hash` is a digest of the asset path ([`SceneEntityReference::asset_path_hash`]).
    /// The path itself is intentionally not stored, so that [`SceneEntityReference`] stays
    /// small. Two distinct asset paths whose digests collide would alias their `#Name`
    /// references.
    Asset {
        /// A digest of the asset path this reference came from.
        path_hash: u64,
    },
}

/// A unique reference for a named entity in a scene.
///
/// The uniqueness of this is ensured by the following factors:
/// - the [`SceneEntityReferenceSource`]: either a macro invocation location (filename, line and
///   column) or a digest of the asset path the scene was loaded from
/// - the `name_id` should uniquely identify a name in the individual macro's scope (for asset
///   sources it is the stable node id of the named entity inside the document)
/// - a per-scope counter for each run. Asset sources always use `0`: an asset document is parsed
///   and resolved once and its resolved scene is shared.
///
/// A [`SceneEntityReferences`] map must never be shared across two applications of a scene:
/// references produced from a scene asset are identical for every spawn of that asset, so a
/// shared map would alias entities across spawns.
#[derive(Copy, Clone, PartialEq, Eq, Hash, Debug)]
pub struct SceneEntityReference(InnerSceneEntityReference);

/// The inner struct actually storing the unique index
#[derive(Copy, Clone, PartialEq, Eq, Hash, Debug)]
pub struct InnerSceneEntityReference {
    source: SceneEntityReferenceSource,
    name_id: usize,
    runtime: u64,
}

/// The call site or the asset of a reference.
pub ghost enum Source {
    CallSite { file: Seq<char>, line: usize, column: usize },
    Asset { path_hash: u64 },
}

/// What makes a reference: two references are the same when these are equal.
pub ghost struct Reference {
    pub source: Source,
    pub name_id: usize,
    pub runtime: u64,
}

impl SceneEntityReferenceSource {
    pub open spec fn view(&self) -> Source {
        match *self {
            SceneEntityReferenceSource::CallSite { file, line, column } => Source::CallSite {
                file: file@,
                line,
                column,
            },
            SceneEntityReferenceSource::Asset { path_hash } => Source::Asset { path_hash },
        }
    }
}

/// The key of a reference.
pub open spec fn reference_numbers(r: Reference) -> ReferenceNumbers {
    match r.source {
        Source::CallSite { file, line, column } => (
            false,
            file,
            line,
            column,
            0,
            r.name_id,
            r.runtime,
        ),
        Source::Asset { path_hash } => (
            true,
            Seq::empty(),
            0,
            0,
            path_hash,
            r.name_id,
            r.runtime,
        ),
    }
}

/// The reference to a named entity of a scene asset, on a build that multiplies and rotates in
/// the given ways.
pub open spec fn asset_reference(
    asset_path: Seq<char>,
    node_id: u32,
    wide_multiply: bool,
    wide_rotate: bool,
) -> Reference {
    Reference {
        source: Source::Asset {
            path_hash: text_digest(
                asset_path,
                vstd::endian::endianness() is Little,
                wide_multiply,
                wide_rotate,
            ),
        },
        name_id: node_id as usize,
        runtime: 0,
    }
}

/// Sixteen lowercase hexadecimal digits.
pub open spec fn hex_text(n: u64) -> Seq<char> {
    let digits = radix_text(n as nat, 16);
    repeated('0', 16 - digits.len()) + digits
}

/// The text of a reference.
pub open spec fn reference_text(r: Reference) -> Seq<char> {
    match r.source {
        Source::CallSite { file, line, column } => "global="@ + file + ":"@ + decimal(line as nat)
            + ":"@ + decimal(column as nat) + " name_id="@ + decimal(r.name_id as nat)
            + " runtime="@ + decimal(r.runtime as nat),
        Source::Asset { path_hash } => "asset=#"@ + hex_text(path_hash) + " node_id="@ + decimal(
            r.name_id as nat,
        ),
    }
}

/// The first number with more than `k` hexadecimal digits.
spec fn hex_bound(k: nat) -> nat
    decreases k,
{
    if k == 0 {
        1
    } else {
        16 * hex_bound((k - 1) as nat)
    }
}

proof fn lemma_hex_len(n: nat, k: nat)
    requires
        n < hex_bound(k),
        k > 0,
    ensures
        radix_text(n, 16).len() <= k,
    decreases k,
{
    if n >= 16 {
        assert(k > 1) by {
            reveal_with_fuel(hex_bound, 2);
        }
        lemma_hex_len(n / 16, (k - 1) as nat);
    }
}

fn push_hex(out: &mut Vec<char>, n: u64)
    ensures
        final(out)@ == old(out)@ + hex_text(n),
{
    let mut digits: Vec<char> = Vec::new();
    push_radix(&mut digits, n as u128, 16);
    proof {
        assert(digits@ =~= radix_text(n as nat, 16));
        assert(hex_bound(16) == 0x1_0000_0000_0000_0000) by {
            reveal_with_fuel(hex_bound, 17);
        }
        lemma_hex_len(n as nat, 16);
    }
    push_repeated(out, '0', 16 - digits.len());
    push_chars(out, &digits);
    assert(out@ =~= old(out)@ + hex_text(n));
}

impl SceneEntityReference {
    pub closed spec fn view(&self) -> Reference {
        Reference {
            source: self.0.source@,
            name_id: self.0.name_id,
            runtime: self.0.runtime,
        }
    }

    /// Create a new [`SceneEntityReference`] from the invocation location, runtime time, and a
    /// local (per-macro) counter for names
    pub fn new(invocation: (&'static str, usize, usize), name_id: usize, runtime: u64) -> (r: Self)
        ensures
            r@ == (Reference {
                source: Source::CallSite {
                    file: invocation.0@,
                    line: invocation.1,
                    column: invocation.2,
                },
                name_id,
                runtime,
            }),
    {
        Self::from_source(
            SceneEntityReferenceSource::CallSite {
                file: invocation.0,
                line: invocation.1,
                column: invocation.2,
            },
            name_id,
            runtime,
        )
    }

    /// Create a [`SceneEntityReference`] for a named entity defined in a scene *asset*.
    ///
    /// * `asset_path` — the full path of the asset the scene was loaded from. Callers **must**
    ///   pass the fully-qualified asset path string (including asset source and label, e.g.
    ///   `"embedded://ui/menu.bsn#footer"`), so that identically-named files in different asset
    ///   sources stay distinct.
    /// * `node_id` — an identifier for the node inside that document that is **stable across
    ///   re-parses of an unchanged file** (e.g. a node index assigned in document order).
    ///
    /// The resulting reference is stable for a given `(asset_path, node_id)` pair, and distinct
    /// from every macro-produced reference.
    pub fn from_asset(asset_path: &str, node_id: u32) -> (r: Self)
        ensures
            exists|wide_multiply: bool, wide_rotate: bool|
                r@ == #[trigger] asset_reference(asset_path@, node_id, wide_multiply, wide_rotate),
    {
        let path_hash: u64 = Self::asset_path_hash(asset_path);
        let r = Self::from_asset_hashed(path_hash, node_id);
        proof {
            let (wide_multiply, wide_rotate) = choose|wide_multiply: bool, wide_rotate: bool|
                path_hash == #[trigger] text_digest(
                    asset_path@,
                    vstd::endian::endianness() is Little,
                    wide_multiply,
                    wide_rotate,
                );
            assert(r@ == asset_reference(asset_path@, node_id, wide_multiply, wide_rotate));
        }
        r
    }

    /// [`SceneEntityReference::from_asset`] for callers that already computed the digest once
    /// (e.g. once per loaded document rather than once per named entity).
    pub fn from_asset_hashed(path_hash: u64, node_id: u32) -> (r: Self)
        ensures
            r@ == (Reference {
                source: Source::Asset { path_hash },
                name_id: node_id as usize,
                runtime: 0,
            }),
    {
        Self::from_source(SceneEntityReferenceSource::Asset { path_hash }, node_id as usize, 0)
    }

    /// The digest used by [`SceneEntityReference::from_asset`].
    ///
    /// Deterministic within and across processes for a given build, but an implementation
    /// detail: never persist it, never compare it across versions.
    pub fn asset_path_hash(asset_path: &str) -> (r: u64)
        ensures
            exists|wide_multiply: bool, wide_rotate: bool|
                r == #[trigger] text_digest(
                    asset_path@,
                    vstd::endian::endianness() is Little,
                    wide_multiply,
                    wide_rotate,
                ),
    {
        hash_text(asset_path)
    }

    /// The definition scope this reference belongs to.
    pub fn source(&self) -> (r: SceneEntityReferenceSource)
        ensures
            r@ == self@.source,
    {
        self.0.source
    }

    fn from_source(source: SceneEntityReferenceSource, name_id: usize, runtime: u64) -> (r: Self)
        ensures
            r@ == (Reference { source: source@, name_id, runtime }),
    {
        SceneEntityReference(InnerSceneEntityReference { source, name_id, runtime })
    }

    /// The key of the reference in a map.
    fn key(&self) -> (r: ReferenceKey)
        ensures
            key_numbers(r) == reference_numbers(self@),
    {
        proof {
            reveal_strlit("");
            assert(""@ =~= Seq::<char>::empty());
        }
        match self.0.source {
            SceneEntityReferenceSource::CallSite { file, line, column } => (
                false,
                file,
                line,
                column,
                0,
                self.0.name_id,
                self.0.runtime,
            ),
            SceneEntityReferenceSource::Asset { path_hash } => (
                true,
                "",
                0,
                0,
                path_hash,
                self.0.name_id,
                self.0.runtime,
            ),
        }
    }

    /// The text of the reference, for diagnostics.
    pub fn text(&self) -> (r: String)
        ensures
            r@ == reference_text(self@),
    {
        let mut out: Vec<char> = Vec::new();
        match self.0.source {
            SceneEntityReferenceSource::CallSite { file, line, column } => {
                push_text(&mut out, "global=");
                push_text(&mut out, file);
                push_text(&mut out, ":");
                push_decimal(&mut out, line as u128);
                push_text(&mut out, ":");
                push_decimal(&mut out, column as u128);
                push_text(&mut out, " name_id=");
                push_decimal(&mut out, self.0.name_id as u128);
                push_text(&mut out, " runtime=");
                push_decimal(&mut out, self.0.runtime as u128);
            },
            SceneEntityReferenceSource::Asset { path_hash } => {
                push_text(&mut out, "asset=#");
                push_hex(&mut out, path_hash);
                push_text(&mut out, " node_id=");
                push_decimal(&mut out, self.0.name_id as u128);
            },
        }
        assert(out@ =~= reference_text(self@));
        string_of(&out)
    }
}

/// References are the same exactly when their keys are.
proof fn lemma_numbers(a: Reference, b: Reference)
    ensures
        reference_numbers(a) == reference_numbers(b) <==> a == b,
{
}

/// References of one asset are the same exactly when their nodes are; references of assets with
/// different digests differ; and no reference of an asset is one of a macro.
pub proof fn law_asset_references_are_distinct(
    path_hash: u64,
    node_id: u32,
    other_hash: u64,
    other_id: u32,
    file: Seq<char>,
    line: usize,
    column: usize,
    name_id: usize,
    runtime: u64,
)
    ensures
        ({
            let a = Reference {
                source: Source::Asset { path_hash },
                name_id: node_id as usize,
                runtime: 0,
            };
            let b = Reference {
                source: Source::Asset { path_hash: other_hash },
                name_id: other_id as usize,
                runtime: 0,
            };
            let c = Reference { source: Source::CallSite { file, line, column }, name_id, runtime };
            &&& a == b <==> path_hash == other_hash && node_id == other_id
            &&& a != c
        }),
{
}

/// The known entities when `entity` is given to a reference that may have one already.
pub open spec fn with_first(
    known: Map<Reference, Entity>,
    reference: Reference,
    entity: Entity,
) -> Map<Reference, Entity> {
    if known.contains_key(reference) {
        known
    } else {
        known.insert(reference, entity)
    }
}

/// Struct to store a mapping from [`SceneEntityReference`] to [`Entity`] which are used for
/// resolving `#Name` entity references
pub struct SceneEntityReferences {
    map: ReferenceMap,
}

impl Default for SceneEntityReferences {
    fn default() -> (r: Self)
        ensures
            r@ == Map::<Reference, Entity>::empty(),
    {
        let r = SceneEntityReferences { map: new_map() };
        assert(r@ =~= Map::<Reference, Entity>::empty());
        r
    }
}

impl SceneEntityReferences {
    /// The entities of the references that are known.
    pub closed spec fn view(&self) -> Map<Reference, Entity> {
        Map::new(
            |r: Reference| map_entries(self.map).contains_key(reference_numbers(r)),
            |r: Reference| Entity(map_entries(self.map)[reference_numbers(r)]),
        )
    }

    /// The [`Entity`] associated with this [`SceneEntityReference`], if it is known.
    pub fn find(&self, reference: SceneEntityReference) -> (r: Option<Entity>)
        ensures
            r == (if self@.contains_key(reference@) {
                Some(self@[reference@])
            } else {
                None
            }),
    {
        match map_get(&self.map, reference.key()) {
            Some(bits) => Some(Entity(bits)),
            None => None,
        }
    }

    /// Get the [`Entity`] associated with this [`SceneEntityReference`].
    /// If the reference is unknown, store the newly `spawned` entity for it.
    pub fn get(&mut self, reference: SceneEntityReference, spawned: Entity) -> (r: Entity)
        ensures
            final(self)@ == with_first(old(self)@, reference@, spawned),
            r == with_first(old(self)@, reference@, spawned)[reference@],
    {
        match self.find(reference) {
            Some(entity) => entity,
            None => {
                self.insert(reference, spawned);
                spawned
            },
        }
    }

    /// Set the [`Entity`] associated with a [`SceneEntityReference`]. The first entity that is
    /// set for a reference stays.
    pub fn set(&mut self, reference: SceneEntityReference, entity: Entity)
        ensures
            final(self)@ == with_first(old(self)@, reference@, entity),
    {
        if self.find(reference).is_none() {
            self.insert(reference, entity);
        }
    }

    fn insert(&mut self, reference: SceneEntityReference, entity: Entity)
        ensures
            final(self)@ == old(self)@.insert(reference@, entity),
    {
        let ghost before = self@;
        map_insert(&mut self.map, reference.key(), entity.0);
        proof {
            assert forall|r: Reference| #[trigger] self@.contains_key(r) <==> before.insert(
                reference@,
                entity,
            ).contains_key(r) by {
                lemma_numbers(r, reference@);
            }
            assert forall|r: Reference| #[trigger] self@.contains_key(r) implies self@[r]
                == before.insert(reference@, entity)[r] by {
                lemma_numbers(r, reference@);
            }
            assert(self@ =~= before.insert(reference@, entity));
        }
    }
}

/// The first entity of a reference stays: setting or getting it again, with whatever entity,
/// changes nothing. Other references are not affected, so the order in which different
/// references become known does not matter.
pub proof fn law_first_entity_stays(
    known: Map<Reference, Entity>,
    a: Reference,
    b: Reference,
    first: Entity,
    second: Entity,
)
    ensures
        with_first(with_first(known, a, first), a, second) == with_first(known, a, first),
        with_first(known, a, first).contains_key(a),
        !known.contains_key(a) ==> with_first(known, a, first)[a] == first,
        a != b ==> with_first(known, a, first).contains_key(b) == known.contains_key(b),
        a != b && known.contains_key(b) ==> with_first(known, a, first)[b] == known[b],
        a != b ==> with_first(with_first(known, a, first), b, second) == with_first(
            with_first(known, b, second),
            a,
            first,
        ),
{
    assert(with_first(with_first(known, a, first), b, second) =~= with_first(
        with_first(known, b, second),
        a,
        first,
    ) || a == b);
}

/// A reference of an asset is told by the digest, as sixteen hexadecimal digits of that value, and
/// by the node, as its decimal digits: so different references have different texts.
pub proof fn law_asset_references_are_told_apart(a: Reference, b: Reference)
    requires
        a.source is Asset,
        b.source is Asset,
        a.runtime == b.runtime,
    ensures
        hex_text(a.source->path_hash).len() == 16,
        radix_value(hex_text(a.source->path_hash), 16) == a.source->path_hash,
        reference_text(a) == reference_text(b) <==> a == b,
{
    lemma_hex_text(a.source->path_hash);
    lemma_hex_text(b.source->path_hash);
    lemma_radix_round_trip(a.name_id as nat, 10);
    lemma_radix_round_trip(b.name_id as nat, 10);
    if reference_text(a) == reference_text(b) {
        let start = "asset=#"@;
        let middle = " node_id="@;
        let (x, y) = (hex_text(a.source->path_hash), hex_text(b.source->path_hash));
        let (m, n) = (decimal(a.name_id as nat), decimal(b.name_id as nat));
        let text = reference_text(a);
        assert(text == start + x + middle + m);
        assert(text == start + y + middle + n);
        let i = start.len() as int;
        assert(text.subrange(i, i + 16) =~= x);
        assert(text.subrange(i, i + 16) =~= y);
        let j = i + 16 + middle.len();
        assert(text.skip(j) =~= m);
        assert(text.skip(j) =~= n);
    }
}

proof fn lemma_hex_text(n: u64)
    ensures
        hex_text(n).len() == 16,
        radix_value(hex_text(n), 16) == n,
{
    assert(hex_bound(16) == 0x1_0000_0000_0000_0000) by {
        reveal_with_fuel(hex_bound, 17);
    }
    lemma_hex_len(n as nat, 16);
    lemma_radix_round_trip(n as nat, 16);
    let digits = radix_text(n as nat, 16);
    lemma_leading_zeros((16 - digits.len()) as nat, digits);
}

proof fn lemma_leading_zeros(k: nat, digits: Seq<char>)
    ensures
        radix_value(repeated('0', k as int) + digits, 16) == radix_value(digits, 16),
    decreases k + digits.len(),
{
    let whole = repeated('0', k as int) + digits;
    if digits.len() > 0 {
        lemma_leading_zeros(k, digits.drop_last());
        assert(whole.drop_last() =~= repeated('0', k as int) + digits.drop_last());
        assert(whole.last() == digits.last());
    } else if k > 0 {
        lemma_leading_zeros((k - 1) as nat, digits);
        assert(whole.drop_last() =~= repeated('0', k - 1) + digits);
        assert(whole.last() == '0');
        assert(radix_value(digits, 16) == 0);
    } else {
        assert(whole =~= digits);
    }
}

} // verus!
