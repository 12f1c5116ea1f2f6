use crate::codec::encode::{Encode, Encoder};
use crate::codec::{uvarint, NodeKind};
use crate::side::Faces;
use crate::util::ConcreteEq;
use crate::vecmap::StrMap;
use vstd::prelude::*;
use vstd::std_specs::cmp::PartialEqSpecImpl;

verus! {

/// The identifier of a kind of block, an index into the block registry.
#[derive(Copy, Clone, Debug, Eq, Hash, Default)]
pub struct BlockId(pub usize);

impl PartialEq for BlockId {
    fn eq(&self, other: &Self) -> (r: bool) {
        self.0 == other.0
    }
}

impl PartialEqSpecImpl for BlockId {
    open spec fn obeys_eq_spec() -> bool {
        true
    }

    open spec fn eq_spec(&self, other: &Self) -> bool {
        self.0 == other.0
    }
}

impl ConcreteEq for BlockId {
    proof fn lemma_eq_is_equality() {
        reveal(vstd::laws_eq::obeys_concrete_eq);
    }
}

impl Encode for BlockId {
    open spec fn kind_spec() -> NodeKind {
        NodeKind::UnsignedVarInt
    }

    open spec fn encoding(&self) -> Seq<u8> {
        uvarint(self.0 as nat)
    }

    fn kind() -> (k: NodeKind) {
        NodeKind::UnsignedVarInt
    }

    fn encode(&self, encoder: &mut Encoder) {
        encoder.encode(&self.0)
    }
}

/// The block that fills empty space.
pub fn air() -> (r: BlockId)
    ensures
        r == BlockId(0),
{
    BlockId(0)
}


/// A pool of texture variants, an index into the registry's pools.
#[derive(Copy, Clone, Debug, Eq, PartialEq, Hash, Default)]
pub struct TexturePoolId(pub usize);

/// A texture, an index into the registry's texture paths.
#[derive(Copy, Clone, Debug, Eq, PartialEq, Hash, Default)]
pub struct TextureId(pub usize);

/// How a block collides with moving bodies.
#[derive(Copy, Clone, Debug, Eq, PartialEq, Hash)]
pub enum CollisionType {
    NoCollision,
    Solid,
    Liquid,
}

impl CollisionType {
    /// Returns `true` if the collision type is `Solid`.
    pub fn is_solid(&self) -> (r: bool)
        ensures
            r == (*self is Solid),
    {
        matches!(self, Self::Solid)
    }

    /// Returns `true` if the collision type is `Liquid`.
    pub fn is_liquid(&self) -> (r: bool)
        ensures
            r == (*self is Liquid),
    {
        matches!(self, Self::Liquid)
    }
}

/// The physical and lighting properties of a kind of block.
#[derive(Copy, Clone, Debug, PartialEq)]
pub struct BlockProperties {
    pub collision_type: CollisionType,
    pub liquid: bool,
    pub wind_sway: bool,
    pub block_light: u16,
    pub light_transmissible: bool,
}

/// The shape a block is drawn with.
#[derive(Copy, Clone, Debug, PartialEq, Eq)]
pub enum BlockMeshType {
    NoMesh,
    FullCube,
    Cross,
}

impl Default for BlockMeshType {
    fn default() -> (r: Self)
        ensures
            r == BlockMeshType::FullCube,
    {
        Self::FullCube
    }
}

/// The texture pools of a block's faces, by pool name. A face without a name
/// takes the default, and without a default, the pool "unknown".
#[derive(Clone, Debug, PartialEq, Default)]
pub struct BlockTextureReference {
    pub default: Option<String>,
    pub faces: Faces<Option<String>>,
}

/// A kind of block, as the registry manifest describes it.
#[derive(Clone, Debug, PartialEq)]
pub struct BlockDescription {
    pub name: String,
    pub properties: BlockProperties,
    pub mesh_type: BlockMeshType,
    /// Texture variants for the whole block, picked at random.
    pub texture_variants: Option<Vec<BlockTextureReference>>,
}

/// What the registry knows of one kind of block.
#[derive(Clone, Debug, PartialEq)]
pub struct BlockRegistryEntry {
    pub properties: BlockProperties,
    pub mesh_type: BlockMeshType,
    pub textures: Option<Vec<Faces<TexturePoolId>>>,
}

/// The registry manifest: texture pools by name, each with its texture
/// paths, and the kinds of blocks, in order.
#[derive(Clone, Debug, PartialEq)]
pub struct RegistryManifest {
    pub textures: Vec<(String, Vec<String>)>,
    pub blocks: Vec<BlockDescription>,
}

/// The name of the pool of the texture shown where none is given.
pub open spec fn unknown_name() -> Seq<char> {
    seq!['u', 'n', 'k', 'n', 'o', 'w', 'n']
}

/// The path of the texture shown where none is given.
pub open spec fn unknown_path() -> Seq<char> {
    seq!['u', 'n', 'k', 'n', 'o', 'w', 'n', '.', 'p', 'n', 'g']
}

/// The view of an optional name.
pub open spec fn opt_name(name: Option<String>) -> Option<Seq<char>> {
    match name {
        Some(n) => Some(n@),
        None => None,
    }
}

/// The pool of a face: its own name, else the default, else "unknown".
pub open spec fn face_pool(
    pools: Map<Seq<char>, TexturePoolId>,
    face: Option<Seq<char>>,
    default: Option<Seq<char>>,
) -> TexturePoolId {
    match face {
        Some(n) => pools[n],
        None => match default {
            Some(d) => pools[d],
            None => pools[unknown_name()],
        },
    }
}

/// Every pool name that a texture reference needs is in `names`.
pub open spec fn reference_resolves(names: Set<Seq<char>>, r: BlockTextureReference) -> bool {
    &&& match opt_name(r.default) {
        Some(d) => names.contains(d),
        None => names.contains(unknown_name()),
    }
    &&& forall|side: crate::side::Side| #[trigger] opt_name(r.faces.at(side)) matches Some(n) ==> names.contains(n)
}

/// The pools of each face of a texture reference.
pub open spec fn resolved_faces(pools: Map<Seq<char>, TexturePoolId>, r: BlockTextureReference) -> Faces<TexturePoolId> {
    Faces {
        top: face_pool(pools, opt_name(r.faces.top), opt_name(r.default)),
        bottom: face_pool(pools, opt_name(r.faces.bottom), opt_name(r.default)),
        right: face_pool(pools, opt_name(r.faces.right), opt_name(r.default)),
        left: face_pool(pools, opt_name(r.faces.left), opt_name(r.default)),
        front: face_pool(pools, opt_name(r.faces.front), opt_name(r.default)),
        back: face_pool(pools, opt_name(r.faces.back), opt_name(r.default)),
    }
}

/// Every texture reference of the description resolves in `names`.
pub open spec fn description_resolves(names: Set<Seq<char>>, desc: BlockDescription) -> bool {
    desc.texture_variants matches Some(vs) ==> forall|i: int| 0 <= i < vs@.len() ==> reference_resolves(names, #[trigger] vs@[i])
}

/// The textures of the entry made of `desc`.
pub open spec fn resolved_textures(pools: Map<Seq<char>, TexturePoolId>, desc: BlockDescription) -> Option<Seq<Faces<TexturePoolId>>> {
    match desc.texture_variants {
        Some(vs) => Some(vs@.map_values(|r: BlockTextureReference| resolved_faces(pools, r))),
        None => None,
    }
}

/// Every pool id of the entry is below `n`.
pub open spec fn entry_pools_below(e: BlockRegistryEntry, n: nat) -> bool {
    match e.textures {
        Some(vs) => forall|v: int, side: crate::side::Side| 0 <= v < vs@.len() ==> (#[trigger] vs@[v].at(side)).0 < n,
        None => true,
    }
}

/// The registry of block kinds and their textures.
#[derive(Clone, Debug)]
pub struct BlockRegistry {
    name_map: StrMap<BlockId>,
    entries: Vec<BlockRegistryEntry>,
    // the order here is important: the indices become layers in a texture
    // array that holds the actual texture data.
    texture_paths: Vec<String>,
    // texture *paths* to texture ID
    texture_indices: StrMap<TextureId>,
    // texture pool *names* to texture pool ID
    texture_pools: Vec<Vec<TextureId>>,
    texture_pool_indices: StrMap<TexturePoolId>,
}

impl BlockRegistry {
    /// Block kind by name.
    pub closed spec fn names(&self) -> Map<Seq<char>, BlockId> {
        self.name_map@
    }

    /// The number of block kinds.
    pub closed spec fn len(&self) -> nat {
        self.entries@.len()
    }

    pub closed spec fn entry(&self, id: int) -> BlockRegistryEntry {
        self.entries@[id]
    }

    /// The textures of each block kind: one set of pools per variant.
    pub closed spec fn textures(&self, id: int) -> Option<Seq<Faces<TexturePoolId>>> {
        match self.entries@[id].textures {
            Some(v) => Some(v@),
            None => None,
        }
    }

    /// The texture paths, by texture id.
    pub closed spec fn paths(&self) -> Seq<Seq<char>> {
        self.texture_paths@.map_values(|p: String| p@)
    }

    /// The textures of each pool, by pool id.
    pub closed spec fn pools(&self) -> Seq<Seq<TextureId>> {
        self.texture_pools@.map_values(|p: Vec<TextureId>| p@)
    }

    /// Texture pool by name.
    pub closed spec fn pool_names(&self) -> Map<Seq<char>, TexturePoolId> {
        self.texture_pool_indices@
    }

    pub closed spec fn entry_seq(&self) -> Seq<BlockRegistryEntry> {
        self.entries@
    }

    /// The paths of the textures of pool `p`.
    pub open spec fn pool_paths(&self, p: int) -> Seq<Seq<char>> {
        self.pools()[p].map_values(|t: TextureId| self.paths()[t.0 as int])
    }

    /// Every id in the registry points at something that exists.
    pub closed spec fn wf(&self) -> bool {
        &&& self.name_map.wf()
        &&& self.texture_indices.wf()
        &&& self.texture_pool_indices.wf()
        &&& forall|n: Seq<char>| #[trigger] self.name_map@.contains_key(n) ==> self.name_map@[n].0 < self.entries@.len()
        &&& forall|n: Seq<char>| #[trigger] self.texture_pool_indices@.contains_key(n) ==> self.texture_pool_indices@[n].0 < self.texture_pools@.len()
        &&& forall|n: Seq<char>| #[trigger] self.texture_indices@.contains_key(n) ==> self.texture_indices@[n].0 < self.texture_paths@.len()
        &&& forall|p: int, i: int| 0 <= p < self.texture_pools@.len() && 0 <= i < self.texture_pools@[p]@.len() ==> (#[trigger] self.texture_pools@[p]@[i]).0 < self.texture_paths@.len()
        &&& forall|b: int| 0 <= b < self.entries@.len() ==> entry_pools_below(#[trigger] self.entries@[b], self.texture_pools@.len())
    }

    /// Every named block kind is a kind of the registry.
    pub proof fn lemma_names_below(&self)
        requires
            self.wf(),
        ensures
            forall|n: Seq<char>| #[trigger] self.names().contains_key(n) ==> self.names()[n].0 < self.len(),
    {
    }

    /// The empty registry.
    pub fn empty() -> (r: Self)
        ensures
            r.wf(),
            r.len() == 0,
            r.entry_seq() == Seq::<BlockRegistryEntry>::empty(),
            r.names() == Map::<Seq<char>, BlockId>::empty(),
            r.paths() == Seq::<Seq<char>>::empty(),
            r.pools() == Seq::<Seq<TextureId>>::empty(),
            r.pool_names() == Map::<Seq<char>, TexturePoolId>::empty(),
    {
        let r = BlockRegistry {
            name_map: StrMap::new(),
            entries: Vec::new(),
            texture_paths: Vec::new(),
            texture_indices: StrMap::new(),
            texture_pools: Vec::new(),
            texture_pool_indices: StrMap::new(),
        };
        assert(r.paths() =~= Seq::<Seq<char>>::empty());
        assert(r.pools() =~= Seq::<Seq<TextureId>>::empty());
        assert(r.entry_seq() =~= Seq::<BlockRegistryEntry>::empty());
        r
    }

    /// The block kind named `name`.
    pub fn get_id(&self, name: &str) -> (r: BlockId)
        requires
            self.wf(),
            self.names().contains_key(name@),
        ensures
            r == self.names()[name@],
    {
        let key = name.to_owned();
        match self.name_map.get(&key) {
            Some(id) => *id,
            None => BlockId(0),
        }
    }

    /// The texture paths, by texture id.
    pub fn texture_paths(&self) -> (r: &[String])
        ensures
            r@.map_values(|p: String| p@) == self.paths(),
    {
        self.texture_paths.as_slice()
    }

    pub fn collision_type(&self, id: BlockId) -> (r: CollisionType)
        requires
            id.0 < self.len(),
        ensures
            r == self.entry(id.0 as int).properties.collision_type,
    {
        self.entries[id.0].properties.collision_type
    }

    pub fn liquid(&self, id: BlockId) -> (r: bool)
        requires
            id.0 < self.len(),
        ensures
            r == self.entry(id.0 as int).properties.liquid,
    {
        self.entries[id.0].properties.liquid
    }

    pub fn wind_sway(&self, id: BlockId) -> (r: bool)
        requires
            id.0 < self.len(),
        ensures
            r == self.entry(id.0 as int).properties.wind_sway,
    {
        self.entries[id.0].properties.wind_sway
    }

    pub fn block_light(&self, id: BlockId) -> (r: u16)
        requires
            id.0 < self.len(),
        ensures
            r == self.entry(id.0 as int).properties.block_light,
    {
        self.entries[id.0].properties.block_light
    }

    pub fn light_transmissible(&self, id: BlockId) -> (r: bool)
        requires
            id.0 < self.len(),
        ensures
            r == self.entry(id.0 as int).properties.light_transmissible,
    {
        self.entries[id.0].properties.light_transmissible
    }

    pub fn mesh_type(&self, id: BlockId) -> (r: BlockMeshType)
        requires
            id.0 < self.len(),
        ensures
            r == self.entry(id.0 as int).mesh_type,
    {
        self.entries[id.0].mesh_type
    }

    /// The texture variants of a block kind, if it has textures.
    pub fn block_textures(&self, id: BlockId) -> (r: Option<&Vec<Faces<TexturePoolId>>>)
        requires
            id.0 < self.len(),
        ensures
            match r {
                Some(v) => self.textures(id.0 as int) == Some(v@),
                None => self.textures(id.0 as int) is None,
            },
    {
        match &self.entries[id.0].textures {
            Some(v) => Some(v),
            None => None,
        }
    }

    /// The textures of a pool.
    pub fn pool_textures(&self, id: TexturePoolId) -> (r: &[TextureId])
        requires
            id.0 < self.pools().len(),
        ensures
            r@ == self.pools()[id.0 as int],
    {
        self.texture_pools[id.0].as_slice()
    }
}


fn lookup_pool(reg: &BlockRegistry, name: &String) -> (r: TexturePoolId)
    requires
        reg.wf(),
        reg.pool_names().contains_key(name@),
    ensures
        r == reg.pool_names()[name@],
        r.0 < reg.pools().len(),
{
    proof {
        reveal_strlit("unknown");
    }
    match reg.texture_pool_indices.get(name) {
        Some(id) => *id,
        None => TexturePoolId(0),
    }
}

/// The pool of one face: its own name, else the default pool.
fn face_pool_id(reg: &BlockRegistry, face: &Option<String>, default: TexturePoolId) -> (r: TexturePoolId)
    requires
        reg.wf(),
        opt_name(*face) matches Some(n) ==> reg.pool_names().contains_key(n),
        default.0 < reg.pools().len(),
    ensures
        r == match opt_name(*face) {
            Some(n) => reg.pool_names()[n],
            None => default,
        },
        r.0 < reg.pools().len(),
{
    match face {
        Some(path) => lookup_pool(reg, path),
        None => default,
    }
}

/// The registry entry of a block description, with its texture pool names
/// resolved.
fn make_entry(reg: &BlockRegistry, desc: &BlockDescription) -> (r: BlockRegistryEntry)
    requires
        reg.wf(),
        description_resolves(reg.pool_names().dom(), *desc),
    ensures
        r.properties == desc.properties,
        r.mesh_type == desc.mesh_type,
        match r.textures {
            Some(v) => resolved_textures(reg.pool_names(), *desc) == Some(v@),
            None => resolved_textures(reg.pool_names(), *desc) is None,
        },
        entry_pools_below(r, reg.pools().len()),
{
    let ghost pools = reg.pool_names();
    let textures = match &desc.texture_variants {
        Some(variants) => {
            let mut res: Vec<Faces<TexturePoolId>> = Vec::with_capacity(variants.len());
            let mut i: usize = 0;
            while i < variants.len()
                invariant
                    reg.wf(),
                    pools == reg.pool_names(),
                    desc.texture_variants == Some(*variants),
                    description_resolves(pools.dom(), *desc),
                    i <= variants@.len(),
                    res@ == variants@.take(i as int).map_values(|r: BlockTextureReference| resolved_faces(pools, r)),
                    forall|v: int, side: crate::side::Side| 0 <= v < res@.len() ==> (#[trigger] res@[v].at(side)).0 < reg.pools().len(),
                decreases variants@.len() - i,
            {
                let variant = &variants[i];
                proof {
                    let vs = desc.texture_variants.unwrap();
                    assert(vs@ == variants@);
                    assert(reference_resolves(pools.dom(), vs@[i as int]));
                    assert(opt_name(variant.faces.at(crate::side::Side::Top)) matches Some(n) ==> pools.contains_key(n));
                    assert(opt_name(variant.faces.at(crate::side::Side::Bottom)) matches Some(n) ==> pools.contains_key(n));
                    assert(opt_name(variant.faces.at(crate::side::Side::Right)) matches Some(n) ==> pools.contains_key(n));
                    assert(opt_name(variant.faces.at(crate::side::Side::Left)) matches Some(n) ==> pools.contains_key(n));
                    assert(opt_name(variant.faces.at(crate::side::Side::Front)) matches Some(n) ==> pools.contains_key(n));
                    assert(opt_name(variant.faces.at(crate::side::Side::Back)) matches Some(n) ==> pools.contains_key(n));
                    reveal_strlit("unknown");
                }
                let default = match &variant.default {
                    Some(path) => lookup_pool(reg, path),
                    None => {
                        let unknown = "unknown".to_owned();
                        proof {
                            reveal_strlit("unknown");
                            assert(unknown@ =~= unknown_name());
                        }
                        lookup_pool(reg, &unknown)
                    },
                };
                let faces = Faces {
                    top: face_pool_id(reg, &variant.faces.top, default),
                    bottom: face_pool_id(reg, &variant.faces.bottom, default),
                    right: face_pool_id(reg, &variant.faces.right, default),
                    left: face_pool_id(reg, &variant.faces.left, default),
                    front: face_pool_id(reg, &variant.faces.front, default),
                    back: face_pool_id(reg, &variant.faces.back, default),
                };
                proof {
                    assert(faces == resolved_faces(pools, variants@[i as int]));
                }
                res.push(faces);
                i += 1;
                proof {
                    assert(variants@.take(i as int) =~= variants@.take(i - 1).push(variants@[i - 1]));
                    assert(res@ =~= variants@.take(i as int).map_values(|r: BlockTextureReference| resolved_faces(pools, r)));
                    assert forall|v: int, side: crate::side::Side| 0 <= v < res@.len() implies (#[trigger] res@[v].at(side)).0 < reg.pools().len() by {
                        if v == res@.len() - 1 {
                            match side {
                                crate::side::Side::Top => {},
                                crate::side::Side::Bottom => {},
                                crate::side::Side::Right => {},
                                crate::side::Side::Left => {},
                                crate::side::Side::Front => {},
                                crate::side::Side::Back => {},
                            }
                        }
                    }
                }
            }
            proof {
                assert(variants@.take(i as int) =~= variants@);
            }
            Some(res)
        },
        None => None,
    };
    BlockRegistryEntry { properties: desc.properties, mesh_type: desc.mesh_type, textures }
}


/// The pool named `name`, made empty when there is none.
fn register_texture_pool(reg: &mut BlockRegistry, name: &String) -> (r: TexturePoolId)
    requires
        old(reg).wf(),
    ensures
        final(reg).wf(),
        final(reg).names() == old(reg).names(),
        final(reg).entry_seq() == old(reg).entry_seq(),
        final(reg).paths() == old(reg).paths(),
        old(reg).pool_names().contains_key(name@) ==> {
            &&& r == old(reg).pool_names()[name@]
            &&& final(reg).pools() == old(reg).pools()
            &&& final(reg).pool_names() == old(reg).pool_names()
        },
        !old(reg).pool_names().contains_key(name@) ==> {
            &&& r.0 == old(reg).pools().len()
            &&& final(reg).pools() == old(reg).pools().push(Seq::<TextureId>::empty())
            &&& final(reg).pool_names() == old(reg).pool_names().insert(name@, r)
        },
{
    if let Some(idx) = reg.texture_pool_indices.get(name) {
        return *idx;
    }
    let id = TexturePoolId(reg.texture_pools.len());
    reg.texture_pool_indices.insert(name.clone(), id);
    reg.texture_pools.push(Vec::new());
    proof {
        assert(reg.pools() =~= old(reg).pools().push(Seq::<TextureId>::empty()));
        assert forall|p: int, i: int| 0 <= p < reg.texture_pools@.len() && 0 <= i < reg.texture_pools@[p]@.len() implies (#[trigger] reg.texture_pools@[p]@[i]).0 < reg.texture_paths@.len() by {
            assert(p < old(reg).texture_pools@.len());
            assert(reg.texture_pools@[p] == old(reg).texture_pools@[p]);
        }
        assert forall|b: int| 0 <= b < reg.entries@.len() implies entry_pools_below(#[trigger] reg.entries@[b], reg.texture_pools@.len()) by {
            assert(entry_pools_below(old(reg).entries@[b], old(reg).texture_pools@.len()));
        }
    }
    id
}

/// Adds the texture at `path` to the end of `pool`.
fn add_texture_to_pool(reg: &mut BlockRegistry, pool: TexturePoolId, path: &String) -> (r: TextureId)
    requires
        old(reg).wf(),
        pool.0 < old(reg).pools().len(),
    ensures
        final(reg).wf(),
        final(reg).names() == old(reg).names(),
        final(reg).entry_seq() == old(reg).entry_seq(),
        final(reg).pool_names() == old(reg).pool_names(),
        r.0 == old(reg).paths().len(),
        final(reg).paths() == old(reg).paths().push(path@),
        final(reg).pools() == old(reg).pools().update(pool.0 as int, old(reg).pools()[pool.0 as int].push(r)),
{
    let id = TextureId(reg.texture_paths.len());
    reg.texture_indices.insert(path.clone(), id);
    reg.texture_paths.push(path.clone());
    let ghost before = reg.texture_pools@;
    reg.texture_pools[pool.0].push(id);
    proof {
        assert(reg.paths() =~= old(reg).paths().push(path@));
        assert(reg.pools() =~= old(reg).pools().update(pool.0 as int, old(reg).pools()[pool.0 as int].push(id)));
        assert forall|p: int, i: int| 0 <= p < reg.texture_pools@.len() && 0 <= i < reg.texture_pools@[p]@.len() implies (#[trigger] reg.texture_pools@[p]@[i]).0 < reg.texture_paths@.len() by {
            if p != pool.0 {
                assert(reg.texture_pools@[p] == old(reg).texture_pools@[p]);
            } else if i < old(reg).texture_pools@[p]@.len() {
                assert(reg.texture_pools@[p]@[i] == old(reg).texture_pools@[p]@[i]);
            }
        }
        assert forall|b: int| 0 <= b < reg.entries@.len() implies entry_pools_below(#[trigger] reg.entries@[b], reg.texture_pools@.len()) by {
            assert(entry_pools_below(old(reg).entries@[b], old(reg).texture_pools@.len()));
        }
    }
    id
}


proof fn lemma_add_texture_pool_paths(a: BlockRegistry, b: BlockRegistry, pool: int, r: TextureId, path: Seq<char>)
    requires
        a.wf(),
        0 <= pool < a.pools().len(),
        r.0 == a.paths().len(),
        b.paths() == a.paths().push(path),
        b.pools() == a.pools().update(pool, a.pools()[pool].push(r)),
    ensures
        forall|q: int| 0 <= q < a.pools().len() && q != pool ==> #[trigger] b.pool_paths(q) == a.pool_paths(q),
        b.pool_paths(pool) == a.pool_paths(pool).push(path),
{
    assert forall|q: int| 0 <= q < a.pools().len() && q != pool implies #[trigger] b.pool_paths(q) == a.pool_paths(q) by {
        assert(a.pools()[q] == a.texture_pools@[q]@);
        assert forall|i: int| 0 <= i < a.pools()[q].len() implies b.paths()[a.pools()[q][i].0 as int] == a.paths()[a.pools()[q][i].0 as int] by {
            assert(a.texture_pools@[q]@[i].0 < a.texture_paths@.len());
        }
        assert(b.pool_paths(q) =~= a.pool_paths(q));
    }
    assert forall|i: int| 0 <= i < a.pools()[pool].len() implies b.paths()[a.pools()[pool][i].0 as int] == a.paths()[a.pools()[pool][i].0 as int] by {
        assert(a.pools()[pool] == a.texture_pools@[pool]@);
        assert(a.texture_pools@[pool]@[i].0 < a.texture_paths@.len());
    }
    assert(b.pool_paths(pool) =~= a.pool_paths(pool).push(path));
}

/// The pool names of a manifest: "unknown" and the names it lists.
pub open spec fn manifest_pool_names(m: RegistryManifest) -> Set<Seq<char>> {
    Set::new(
        |n: Seq<char>|
            n == unknown_name() || exists|k: int| 0 <= k < m.textures@.len() && #[trigger] m.textures@[k].0@ == n,
    )
}

/// The manifest lists each pool once, and every texture reference of its
/// blocks names a pool.
pub open spec fn manifest_ok(m: RegistryManifest) -> bool {
    &&& forall|a: int, b: int| 0 <= a < b < m.textures@.len() ==> (#[trigger] m.textures@[a]).0@ != (#[trigger] m.textures@[b]).0@
    &&& forall|i: int| 0 <= i < m.blocks@.len() ==> description_resolves(manifest_pool_names(m), #[trigger] m.blocks@[i])
}

/// The texture paths that a pool starts with: "unknown.png" in the pool
/// "unknown", none elsewhere.
pub open spec fn pool_prefix(name: Seq<char>) -> Seq<Seq<char>> {
    if name == unknown_name() {
        seq![unknown_path()]
    } else {
        Seq::empty()
    }
}

/// Block `j` is named by the last of the first `n` blocks that has its name.
pub open spec fn named_last(names: Map<Seq<char>, BlockId>, blocks: Seq<BlockDescription>, n: int, j: int) -> bool {
    let id = names[blocks[j].name@].0 as int;
    &&& j <= id < n
    &&& blocks[id].name@ == blocks[j].name@
}

/// The entry is the one made of `desc`, with the given pools.
pub open spec fn entry_made_of(e: BlockRegistryEntry, pools: Map<Seq<char>, TexturePoolId>, desc: BlockDescription) -> bool {
    &&& e.properties == desc.properties
    &&& e.mesh_type == desc.mesh_type
    &&& entry_textures(e) == resolved_textures(pools, desc)
}

pub open spec fn entry_textures(e: BlockRegistryEntry) -> Option<Seq<Faces<TexturePoolId>>> {
    match e.textures {
        Some(v) => Some(v@),
        None => None,
    }
}

/// Registers the pools of the manifest, each with its texture paths.
fn load_texture_pools(registry: &mut BlockRegistry, textures: &Vec<(String, Vec<String>)>)
    requires
        old(registry).wf(),
        old(registry).names() == Map::<Seq<char>, BlockId>::empty(),
        old(registry).entry_seq() == Seq::<BlockRegistryEntry>::empty(),
        old(registry).pool_names() == Map::<Seq<char>, TexturePoolId>::empty().insert(unknown_name(), TexturePoolId(0)),
        old(registry).pools().len() == 1,
        old(registry).paths() == seq![unknown_path()],
        old(registry).pool_paths(0) == seq![unknown_path()],
        forall|a: int, b: int| 0 <= a < b < textures@.len() ==> (#[trigger] textures@[a]).0@ != (#[trigger] textures@[b]).0@,
    ensures
        final(registry).wf(),
        final(registry).names() == Map::<Seq<char>, BlockId>::empty(),
        final(registry).entry_seq() == Seq::<BlockRegistryEntry>::empty(),
        final(registry).pool_names().dom() == Set::new(
            |n: Seq<char>| n == unknown_name() || exists|j: int| 0 <= j < textures@.len() && #[trigger] textures@[j].0@ == n,
        ),
        final(registry).pool_names()[unknown_name()] == TexturePoolId(0),
        final(registry).paths().len() >= 1,
        final(registry).paths()[0] == unknown_path(),
        forall|j: int| 0 <= j < textures@.len() ==> final(registry).pool_paths(
            final(registry).pool_names()[(#[trigger] textures@[j]).0@].0 as int,
        ) == pool_prefix(textures@[j].0@) + textures@[j].1@.map_values(|p: String| p@),
        (forall|j: int| 0 <= j < textures@.len() ==> (#[trigger] textures@[j]).0@ != unknown_name()) ==> final(registry).pool_paths(0) == seq![unknown_path()],
{
    let mut k: usize = 0;
    proof {
        assert(registry.pool_names().dom() =~= Set::new(
            |n: Seq<char>| n == unknown_name() || exists|j: int| 0 <= j < 0 && #[trigger] textures@[j].0@ == n,
        ));
    }
    while k < textures.len()
        invariant
            forall|a: int, b: int| 0 <= a < b < textures@.len() ==> (#[trigger] textures@[a]).0@ != (#[trigger] textures@[b]).0@,
            registry.wf(),
            registry.names() == Map::<Seq<char>, BlockId>::empty(),
            registry.entry_seq() == Seq::<BlockRegistryEntry>::empty(),
            k <= textures@.len(),
            registry.pool_names().dom() == Set::new(
                |n: Seq<char>| n == unknown_name() || exists|j: int| 0 <= j < k && #[trigger] textures@[j].0@ == n,
            ),
            registry.pool_names()[unknown_name()] == TexturePoolId(0),
            forall|a: Seq<char>, b: Seq<char>| #[trigger] registry.pool_names().contains_key(a) && #[trigger] registry.pool_names().contains_key(b) && a != b ==> registry.pool_names()[a] != registry.pool_names()[b],
            registry.paths().len() >= 1,
            registry.paths()[0] == unknown_path(),
            forall|j: int| 0 <= j < k ==> registry.pool_paths(
                registry.pool_names()[(#[trigger] textures@[j]).0@].0 as int,
            ) == pool_prefix(textures@[j].0@) + textures@[j].1@.map_values(|p: String| p@),
            (forall|j: int| 0 <= j < k ==> (#[trigger] textures@[j]).0@ != unknown_name()) ==> registry.pool_paths(0) == seq![unknown_path()],
        decreases textures@.len() - k,
    {
        let (name, paths) = &textures[k];
        let ghost before = *registry;
        let pool = register_texture_pool(registry, name);
        let ghost after_register = *registry;
        proof {
            assert(registry.pool_names().contains_key(unknown_name()));
            if !before.pool_names().contains_key(name@) {
                assert forall|q: int| 0 <= q < before.pools().len() implies #[trigger] registry.pool_paths(q) == before.pool_paths(q) by {
                    assert(registry.pool_paths(q) =~= before.pool_paths(q));
                }
                assert(registry.pool_paths(pool.0 as int) =~= Seq::<Seq<char>>::empty());
                assert(name@ != unknown_name());
                assert forall|a: Seq<char>, b: Seq<char>| #[trigger] registry.pool_names().contains_key(a) && #[trigger] registry.pool_names().contains_key(b) && a != b implies registry.pool_names()[a] != registry.pool_names()[b] by {
                    if a != name@ && b != name@ {
                        assert(before.pool_names().contains_key(a) && before.pool_names().contains_key(b));
                    } else if a == name@ {
                        assert(before.pool_names().contains_key(b));
                        assert(before.pool_names()[b].0 < before.pools().len());
                    } else {
                        assert(before.pool_names().contains_key(a));
                        assert(before.pool_names()[a].0 < before.pools().len());
                    }
                }
                assert(pool.0 != 0) by {
                    assert(before.pool_names()[unknown_name()].0 < before.pools().len());
                }
            } else {
                assert(name@ == unknown_name()) by {
                    if name@ != unknown_name() {
                        let j = choose|j: int| 0 <= j < k && #[trigger] textures@[j].0@ == name@;
                        assert(textures@[j].0@ != textures@[k as int].0@);
                    }
                }
                assert(pool.0 == 0);
                assert(forall|j: int| 0 <= j < k ==> (#[trigger] textures@[j]).0@ != unknown_name());
            }
            assert(registry.pool_paths(pool.0 as int) =~= pool_prefix(name@) + paths@.take(0).map_values(|p: String| p@));
        }
        let mut i: usize = 0;
        while i < paths.len()
            invariant
                registry.wf(),
                registry.names() == Map::<Seq<char>, BlockId>::empty(),
                registry.entry_seq() == Seq::<BlockRegistryEntry>::empty(),
                registry.pool_names() == after_register.pool_names(),
                pool == registry.pool_names()[name@],
                pool.0 < registry.pools().len(),
                registry.pools().len() == after_register.pools().len(),
                registry.paths().len() >= 1,
                registry.paths()[0] == unknown_path(),
                i <= paths@.len(),
                registry.pool_paths(pool.0 as int) == pool_prefix(name@) + paths@.take(i as int).map_values(|p: String| p@),
                forall|q: int| 0 <= q < registry.pools().len() && q != pool.0 ==> #[trigger] registry.pool_paths(q) == after_register.pool_paths(q),
            decreases paths@.len() - i,
        {
            let ghost b0 = *registry;
            let tid = add_texture_to_pool(registry, pool, &paths[i]);
            proof {
                lemma_add_texture_pool_paths(b0, *registry, pool.0 as int, tid, paths@[i as int]@);
                assert(paths@.take(i + 1).map_values(|p: String| p@) =~= paths@.take(i as int).map_values(|p: String| p@).push(paths@[i as int]@));
            }
            i += 1;
        }
        proof {
            assert(paths@.take(i as int) =~= paths@);
            assert(registry.pool_names().dom() =~= Set::new(
                |n: Seq<char>| n == unknown_name() || exists|j: int| 0 <= j < k + 1 && #[trigger] textures@[j].0@ == n,
            )) by {
                assert(textures@[k as int].0@ == name@);
            }
            assert forall|j: int| 0 <= j < k + 1 implies registry.pool_paths(
                registry.pool_names()[(#[trigger] textures@[j]).0@].0 as int,
            ) == pool_prefix(textures@[j].0@) + textures@[j].1@.map_values(|p: String| p@) by {
                if j < k {
                    let q = registry.pool_names()[textures@[j].0@].0 as int;
                    assert(textures@[j].0@ != name@);
                    assert(registry.pool_names().contains_key(textures@[j].0@));
                    assert(before.pool_names().contains_key(textures@[j].0@));
                    assert(q != pool.0);
                    assert(q < before.pools().len());
                    assert(after_register.pool_paths(q) == before.pool_paths(q));
                }
            }
            if forall|j: int| 0 <= j < k + 1 ==> (#[trigger] textures@[j]).0@ != unknown_name() {
                assert(textures@[k as int].0@ != unknown_name());
                assert(pool.0 != 0);
                assert(after_register.pool_paths(0) == before.pool_paths(0));
            }
        }
        k += 1;
    }
}

/// Adds the blocks of the manifest, in order.
fn load_blocks(registry: &mut BlockRegistry, blocks: &Vec<BlockDescription>)
    requires
        old(registry).wf(),
        old(registry).names() == Map::<Seq<char>, BlockId>::empty(),
        old(registry).entry_seq() == Seq::<BlockRegistryEntry>::empty(),
        forall|i: int| 0 <= i < blocks@.len() ==> description_resolves(old(registry).pool_names().dom(), #[trigger] blocks@[i]),
    ensures
        final(registry).wf(),
        final(registry).pool_names() == old(registry).pool_names(),
        final(registry).pools() == old(registry).pools(),
        final(registry).paths() == old(registry).paths(),
        final(registry).len() == blocks@.len(),
        forall|j: int| 0 <= j < blocks@.len() ==> entry_made_of(#[trigger] final(registry).entry_seq()[j], final(registry).pool_names(), blocks@[j]),
        final(registry).names().dom() == Set::new(|n: Seq<char>| exists|j: int| 0 <= j < blocks@.len() && #[trigger] blocks@[j].name@ == n),
        forall|j: int| 0 <= j < blocks@.len() ==> #[trigger] named_last(final(registry).names(), blocks@, blocks@.len() as int, j),
{
    let mut i: usize = 0;
    proof {
        assert(registry.names().dom() =~= Set::new(|n: Seq<char>| exists|j: int| 0 <= j < 0 && #[trigger] blocks@[j].name@ == n));
    }
    while i < blocks.len()
        invariant
            registry.wf(),
            registry.pool_names() == old(registry).pool_names(),
            registry.pools() == old(registry).pools(),
            registry.paths() == old(registry).paths(),
            forall|i: int| 0 <= i < blocks@.len() ==> description_resolves(old(registry).pool_names().dom(), #[trigger] blocks@[i]),
            i <= blocks@.len(),
            registry.len() == i,
            forall|j: int| 0 <= j < i ==> entry_made_of(#[trigger] registry.entry_seq()[j], registry.pool_names(), blocks@[j]),
            registry.names().dom() == Set::new(|n: Seq<char>| exists|j: int| 0 <= j < i && #[trigger] blocks@[j].name@ == n),
            forall|j: int| 0 <= j < i ==> #[trigger] named_last(registry.names(), blocks@, i as int, j),
        decreases blocks@.len() - i,
    {
        let block = &blocks[i];
        let ghost r_before = *registry;
        let entry = make_entry(registry, block);
        registry.name_map.insert(block.name.clone(), BlockId(i));
        registry.entries.push(entry);
        proof {
            assert(registry.entry_seq() == r_before.entry_seq().push(entry));
            assert(registry.names() == r_before.names().insert(blocks@[i as int].name@, BlockId(i)));
            assert(registry.names().dom() =~= Set::new(|n: Seq<char>| exists|j: int| 0 <= j < i + 1 && #[trigger] blocks@[j].name@ == n)) by {
                assert forall|n: Seq<char>| registry.names().dom().contains(n) implies exists|j: int| 0 <= j < i + 1 && #[trigger] blocks@[j].name@ == n by {
                    if n == blocks@[i as int].name@ {
                        assert(blocks@[i as int].name@ == n);
                    }
                }
            }
            assert forall|n: Seq<char>| #[trigger] registry.name_map@.contains_key(n) implies registry.name_map@[n].0 < registry.entries@.len() by {
                if n != blocks@[i as int].name@ {
                    assert(r_before.name_map@.contains_key(n));
                }
            }
            assert forall|b: int| 0 <= b < registry.entries@.len() implies entry_pools_below(#[trigger] registry.entries@[b], registry.texture_pools@.len()) by {
                if b < i {
                    assert(registry.entries@[b] == r_before.entries@[b]);
                }
            }
            assert forall|j: int| 0 <= j < i + 1 implies entry_made_of(#[trigger] registry.entry_seq()[j], registry.pool_names(), blocks@[j]) by {
                if j < i {
                    assert(registry.entry_seq()[j] == r_before.entry_seq()[j]);
                }
            }
            assert forall|j: int| 0 <= j < i + 1 implies #[trigger] named_last(registry.names(), blocks@, i + 1, j) by {
                if j < i && blocks@[j].name@ != blocks@[i as int].name@ {
                    assert(named_last(r_before.names(), blocks@, i as int, j));
                    assert(r_before.names().contains_key(blocks@[j].name@));
                }
            }
        }
        i += 1;
    }
}

/// Builds the registry from its manifest: the pool "unknown" holds the
/// texture "unknown.png" first, each pool of the manifest holds its paths in
/// order, and block kind `i` is the manifest's block `i`, named by the last
/// block of its name.
pub fn load_registry(manifest: RegistryManifest) -> (r: BlockRegistry)
    requires
        manifest_ok(manifest),
    ensures
        r.wf(),
        r.pool_names().dom() == manifest_pool_names(manifest),
        r.pool_names()[unknown_name()] == TexturePoolId(0),
        r.paths().len() >= 1,
        r.paths()[0] == unknown_path(),
        forall|k: int| 0 <= k < manifest.textures@.len() ==> r.pool_paths(
            r.pool_names()[(#[trigger] manifest.textures@[k]).0@].0 as int,
        ) == pool_prefix(manifest.textures@[k].0@) + manifest.textures@[k].1@.map_values(|p: String| p@),
        (forall|k: int| 0 <= k < manifest.textures@.len() ==> (#[trigger] manifest.textures@[k]).0@ != unknown_name()) ==> r.pool_paths(0) == seq![unknown_path()],
        r.len() == manifest.blocks@.len(),
        forall|i: int| 0 <= i < manifest.blocks@.len() ==> entry_made_of(#[trigger] r.entry_seq()[i], r.pool_names(), manifest.blocks@[i]),
        r.names().dom() == Set::new(|n: Seq<char>| exists|i: int| 0 <= i < manifest.blocks@.len() && #[trigger] manifest.blocks@[i].name@ == n),
        forall|i: int| 0 <= i < manifest.blocks@.len() ==> #[trigger] named_last(r.names(), manifest.blocks@, manifest.blocks@.len() as int, i),
{
    let mut registry = BlockRegistry::empty();
    let unknown = "unknown".to_owned();
    let unknown_png = "unknown.png".to_owned();
    proof {
        reveal_strlit("unknown");
        reveal_strlit("unknown.png");
        assert(unknown@ =~= unknown_name());
        assert(unknown_png@ =~= unknown_path());
    }
    let unknown_pool = register_texture_pool(&mut registry, &unknown);
    let ghost r0 = registry;
    add_texture_to_pool(&mut registry, unknown_pool, &unknown_png);
    proof {
        lemma_add_texture_pool_paths(r0, registry, 0, TextureId(0), unknown_path());
        assert(r0.pool_paths(0) =~= Seq::<Seq<char>>::empty());
        assert(registry.pool_names() =~= Map::<Seq<char>, TexturePoolId>::empty().insert(unknown_name(), TexturePoolId(0)));
        assert(registry.paths() =~= seq![unknown_path()]);
    }
    load_texture_pools(&mut registry, &manifest.textures);
    proof {
        assert(registry.pool_names().dom() =~= manifest_pool_names(manifest));
    }
    load_blocks(&mut registry, &manifest.blocks);
    registry
}

} // verus!
