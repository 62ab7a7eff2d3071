//! Blocks and what they carry.

use vstd::prelude::*;
use crate::error::ModelError;
use crate::definitions::BlockDefinitionsFile;
use crate::links::{
    map_block, map_fields, map_link_list, map_links, map_load_link, map_metadata, LinkMap,
};

verus! {

/// A link to a block: the index of its root in the building, and its own
/// index among that root's blocks. A link whose target does not exist counts
/// as absent.
#[derive(Debug, Clone, Copy, PartialEq, Eq, Structural)]
pub struct BlockRef {
    pub root: usize,
    pub block: usize,
}

/// Two curves of a gradient as four parallel lists: colour keys with their
/// times, and alpha keys with theirs. Times and alpha values are IEEE-754
/// singles, held as their bits.
#[derive(Debug, Clone, PartialEq, Eq)]
pub struct Gradient {
    pub color_keys: Vec<[u8; 4]>,
    pub color_time_keys: Vec<u32>,
    pub alpha_keys: Vec<u32>,
    pub alpha_time_keys: Vec<u32>,
}

/// The mathematical value of a gradient.
pub struct GradientView {
    pub color_keys: Seq<[u8; 4]>,
    pub color_time_keys: Seq<u32>,
    pub alpha_keys: Seq<u32>,
    pub alpha_time_keys: Seq<u32>,
}

impl View for Gradient {
    type V = GradientView;

    open spec fn view(&self) -> GradientView {
        GradientView {
            color_keys: self.color_keys@,
            color_time_keys: self.color_time_keys@,
            alpha_keys: self.alpha_keys@,
            alpha_time_keys: self.alpha_time_keys@,
        }
    }
}

/// Settings that only blocks of one type have.
#[derive(Debug, Clone, PartialEq, Eq)]
pub enum TypeSettings {
    /// The block's type has no settings of its own.
    Empty,
    MathBlock { function: String, incoming_connections_order: Vec<u8>, slots: Vec<u8> },
}

/// The mathematical value of type settings.
pub enum TypeSettingsView {
    Empty,
    MathBlock { function: Seq<char>, incoming_connections_order: Seq<u8>, slots: Seq<u8> },
}

impl View for TypeSettings {
    type V = TypeSettingsView;

    open spec fn view(&self) -> TypeSettingsView {
        match self {
            TypeSettings::Empty => TypeSettingsView::Empty,
            TypeSettings::MathBlock { function, incoming_connections_order, slots } => {
                TypeSettingsView::MathBlock {
                    function: function@,
                    incoming_connections_order: incoming_connections_order@,
                    slots: slots@,
                }
            },
        }
    }
}

/// The views of a sequence of gradients.
pub open spec fn gradient_views(gradients: Seq<Gradient>) -> Seq<GradientView> {
    gradients.map_values(|g: Gradient| g@)
}

/// The link lists of a sequence of fields.
pub open spec fn link_lists<R>(fields: Seq<Vec<R>>) -> Seq<Seq<R>> {
    fields.map_values(|f: Vec<R>| f@)
}

/// A copy of a vector of plain values.
pub fn copy_vec<T: Copy>(items: &Vec<T>) -> (copy: Vec<T>)
    ensures
        copy@ == items@,
{
    let mut copy: Vec<T> = Vec::new();
    let mut i: usize = 0;
    while i < items.len()
        invariant
            i <= items.len(),
            copy@ == items@.take(i as int),
        decreases items.len() - i,
    {
        copy.push(items[i]);
        proof {
            assert(items@.take(i + 1) =~= items@.take(i as int).push(items@[i as int]));
        }
        i += 1;
    }
    assert(items@.take(i as int) =~= items@);
    copy
}

/// A key of a gradient's colour curve: a colour and the time at which it
/// holds, a single held as its bits.
#[derive(Debug, Clone, Copy, PartialEq, Eq)]
pub struct ColorKey {
    pub color: [u8; 4],
    pub time: u32,
}

/// A key of a gradient's alpha curve: an alpha value and the time at which
/// it holds, singles held as their bits.
#[derive(Debug, Clone, Copy, PartialEq, Eq)]
pub struct AlphaKey {
    pub value: u32,
    pub time: u32,
}

impl Gradient {
    /// The gradient with the given keys: every list of the gradient holds,
    /// at each index, its part of the key at that index.
    pub fn from_keys(color_keys: &Vec<ColorKey>, alpha_keys: &Vec<AlphaKey>) -> (gradient: Gradient)
        ensures
            gradient@ == (GradientView {
                color_keys: color_keys@.map_values(|k: ColorKey| k.color),
                color_time_keys: color_keys@.map_values(|k: ColorKey| k.time),
                alpha_keys: alpha_keys@.map_values(|k: AlphaKey| k.value),
                alpha_time_keys: alpha_keys@.map_values(|k: AlphaKey| k.time),
            }),
    {
        let mut colors: Vec<[u8; 4]> = Vec::new();
        let mut color_times: Vec<u32> = Vec::new();
        let mut i: usize = 0;
        while i < color_keys.len()
            invariant
                i <= color_keys.len(),
                colors@.len() == i,
                color_times@.len() == i,
                forall|j: int| 0 <= j < i ==> #[trigger] colors@[j] == color_keys@[j].color,
                forall|j: int| 0 <= j < i ==> #[trigger] color_times@[j] == color_keys@[j].time,
            decreases color_keys.len() - i,
        {
            colors.push(color_keys[i].color);
            color_times.push(color_keys[i].time);
            i += 1;
        }
        let mut alphas: Vec<u32> = Vec::new();
        let mut alpha_times: Vec<u32> = Vec::new();
        let mut i: usize = 0;
        while i < alpha_keys.len()
            invariant
                i <= alpha_keys.len(),
                alphas@.len() == i,
                alpha_times@.len() == i,
                forall|j: int| 0 <= j < i ==> #[trigger] alphas@[j] == alpha_keys@[j].value,
                forall|j: int| 0 <= j < i ==> #[trigger] alpha_times@[j] == alpha_keys@[j].time,
            decreases alpha_keys.len() - i,
        {
            alphas.push(alpha_keys[i].value);
            alpha_times.push(alpha_keys[i].time);
            i += 1;
        }
        let gradient = Gradient {
            color_keys: colors,
            color_time_keys: color_times,
            alpha_keys: alphas,
            alpha_time_keys: alpha_times,
        };
        assert(gradient@.color_keys =~= color_keys@.map_values(|k: ColorKey| k.color));
        assert(gradient@.color_time_keys =~= color_keys@.map_values(|k: ColorKey| k.time));
        assert(gradient@.alpha_keys =~= alpha_keys@.map_values(|k: AlphaKey| k.value));
        assert(gradient@.alpha_time_keys =~= alpha_keys@.map_values(|k: AlphaKey| k.time));
        gradient
    }

    /// A gradient with the same keys.
    pub fn duplicate(&self) -> (copy: Gradient)
        ensures
            copy@ == self@,
    {
        Gradient {
            color_keys: copy_vec(&self.color_keys),
            color_time_keys: copy_vec(&self.color_time_keys),
            alpha_keys: copy_vec(&self.alpha_keys),
            alpha_time_keys: copy_vec(&self.alpha_time_keys),
        }
    }
}

impl TypeSettings {
    /// Settings with the same content.
    pub fn duplicate(&self) -> (copy: TypeSettings)
        ensures
            copy@ == self@,
    {
        match self {
            TypeSettings::Empty => TypeSettings::Empty,
            TypeSettings::MathBlock { function, incoming_connections_order, slots } => {
                TypeSettings::MathBlock {
                    function: function.clone(),
                    incoming_connections_order: copy_vec(incoming_connections_order),
                    slots: copy_vec(slots),
                }
            },
        }
    }
}

/// Copies of the gradients of a vector.
pub fn copy_gradients(gradients: &Vec<Gradient>) -> (copy: Vec<Gradient>)
    ensures
        gradient_views(copy@) == gradient_views(gradients@),
{
    let mut copy: Vec<Gradient> = Vec::new();
    let mut i: usize = 0;
    while i < gradients.len()
        invariant
            i <= gradients.len(),
            copy@.len() == i,
            forall|j: int| 0 <= j < i ==> (#[trigger] copy@[j])@ == gradients@[j]@,
        decreases gradients.len() - i,
    {
        copy.push(gradients[i].duplicate());
        i += 1;
    }
    assert(gradient_views(copy@) =~= gradient_views(gradients@));
    copy
}

/// The extra configuration of a block, with links of type `R`. The fields and
/// the vectors are never both non-empty.
#[derive(Debug, PartialEq, Eq)]
pub struct BlockMetadata<R = BlockRef> {
    toggles: Vec<bool>,
    values: Vec<u32>,
    fields: Vec<Vec<R>>,
    dropdowns: Vec<u8>,
    colors: Vec<[u8; 4]>,
    gradients: Vec<Gradient>,
    vectors: Vec<[u32; 3]>,
    type_settings: TypeSettings,
}

/// The mathematical value of a metadata record with links of type `R`.
pub struct MetadataView<R> {
    pub toggles: Seq<bool>,
    pub values: Seq<u32>,
    pub fields: Seq<Seq<R>>,
    pub dropdowns: Seq<u8>,
    pub colors: Seq<[u8; 4]>,
    pub gradients: Seq<GradientView>,
    pub vectors: Seq<[u32; 3]>,
    pub type_settings: TypeSettingsView,
}

impl<R> MetadataView<R> {
    /// Not both the fields and the vectors hold something.
    pub open spec fn exclusive(self) -> bool {
        self.fields.len() == 0 || self.vectors.len() == 0
    }
}

impl<R> View for BlockMetadata<R> {
    type V = MetadataView<R>;

    closed spec fn view(&self) -> MetadataView<R> {
        MetadataView {
            toggles: self.toggles@,
            values: self.values@,
            fields: link_lists(self.fields@),
            dropdowns: self.dropdowns@,
            colors: self.colors@,
            gradients: gradient_views(self.gradients@),
            vectors: self.vectors@,
            type_settings: self.type_settings@,
        }
    }
}

impl<R> BlockMetadata<R> {
    #[verifier::type_invariant]
    spec fn inv(self) -> bool {
        self.fields@.len() == 0 || self.vectors@.len() == 0
    }

    /// Builds a metadata record; refused where both the fields and the
    /// vectors are non-empty.
    pub fn new(
        toggles: Vec<bool>,
        values: Vec<u32>,
        fields: Vec<Vec<R>>,
        dropdowns: Vec<u8>,
        colors: Vec<[u8; 4]>,
        gradients: Vec<Gradient>,
        vectors: Vec<[u32; 3]>,
        type_settings: TypeSettings,
    ) -> (r: Result<Self, ModelError>)
        ensures
            match r {
                Ok(m) => (fields@.len() == 0 || vectors@.len() == 0) && m@ == (MetadataView {
                    toggles: toggles@,
                    values: values@,
                    fields: link_lists(fields@),
                    dropdowns: dropdowns@,
                    colors: colors@,
                    gradients: gradient_views(gradients@),
                    vectors: vectors@,
                    type_settings: type_settings@,
                }),
                Err(e) => e == ModelError::FieldsAndVectors && fields@.len() > 0 && vectors@.len()
                    > 0,
            },
    {
        if fields.len() > 0 && vectors.len() > 0 {
            Err(ModelError::FieldsAndVectors)
        } else {
            Ok(
                BlockMetadata {
                    toggles,
                    values,
                    fields,
                    dropdowns,
                    colors,
                    gradients,
                    vectors,
                    type_settings,
                },
            )
        }
    }

    /// A record without content.
    pub fn empty() -> (m: Self)
        ensures
            m@ == (MetadataView::<R> {
                toggles: Seq::empty(),
                values: Seq::empty(),
                fields: Seq::empty(),
                dropdowns: Seq::empty(),
                colors: Seq::empty(),
                gradients: Seq::empty(),
                vectors: Seq::empty(),
                type_settings: TypeSettingsView::Empty,
            }),
    {
        let m = BlockMetadata {
            toggles: Vec::new(),
            values: Vec::new(),
            fields: Vec::new(),
            dropdowns: Vec::new(),
            colors: Vec::new(),
            gradients: Vec::new(),
            vectors: Vec::new(),
            type_settings: TypeSettings::Empty,
        };
        assert(m@.fields =~= Seq::empty());
        assert(m@.gradients =~= Seq::empty());
        m
    }

    /// A copy of the record with its links carried over by `m`.
    pub fn relink<B: Copy, M: LinkMap<R, B>>(&self, m: &M) -> (copy: BlockMetadata<B>) where
        R: Copy,

        requires
            m.valid(),
        ensures
            copy@ == map_metadata(self@, m.rule()),
    {
        proof {
            use_type_invariant(self);
        }
        let mut fields: Vec<Vec<B>> = Vec::new();
        let mut i: usize = 0;
        while i < self.fields.len()
            invariant
                m.valid(),
                i <= self.fields.len(),
                fields@.len() == i,
                forall|j: int|
                    0 <= j < i ==> (#[trigger] fields@[j])@ == map_links(
                        self.fields@[j]@,
                        m.rule(),
                    ),
            decreases self.fields.len() - i,
        {
            fields.push(map_link_list(&self.fields[i], m));
            i += 1;
        }
        let copy = BlockMetadata {
            toggles: copy_vec(&self.toggles),
            values: copy_vec(&self.values),
            fields,
            dropdowns: copy_vec(&self.dropdowns),
            colors: copy_vec(&self.colors),
            gradients: copy_gradients(&self.gradients),
            vectors: copy_vec(&self.vectors),
            type_settings: self.type_settings.duplicate(),
        };
        assert(copy@.fields =~= map_fields(self@.fields, m.rule()));
        copy
    }

    /// The toggles.
    pub fn toggles(&self) -> (r: &Vec<bool>)
        ensures
            r@ == self@.toggles,
    {
        &self.toggles
    }

    /// The values, singles held as their bits.
    pub fn values(&self) -> (r: &Vec<u32>)
        ensures
            r@ == self@.values,
    {
        &self.values
    }

    /// The fields; with them comes the type's promise that the fields and the
    /// vectors are not both non-empty.
    pub fn fields(&self) -> (r: &Vec<Vec<R>>)
        ensures
            link_lists(r@) == self@.fields,
            self@.exclusive(),
    {
        proof {
            use_type_invariant(self);
        }
        &self.fields
    }

    /// The dropdown selections.
    pub fn dropdowns(&self) -> (r: &Vec<u8>)
        ensures
            r@ == self@.dropdowns,
    {
        &self.dropdowns
    }

    /// The colours.
    pub fn colors(&self) -> (r: &Vec<[u8; 4]>)
        ensures
            r@ == self@.colors,
    {
        &self.colors
    }

    /// The gradients.
    pub fn gradients(&self) -> (r: &Vec<Gradient>)
        ensures
            gradient_views(r@) == self@.gradients,
    {
        &self.gradients
    }

    /// The vectors, triples of singles held as their bits.
    pub fn vectors(&self) -> (r: &Vec<[u32; 3]>)
        ensures
            r@ == self@.vectors,
    {
        &self.vectors
    }

    /// The settings of the block's type.
    pub fn type_settings(&self) -> (r: &TypeSettings)
        ensures
            r@ == self@.type_settings,
    {
        &self.type_settings
    }
}

/// A placed unit with links of type `R`. Positions are IEEE-754 singles held
/// as their bits; the rotation is held as three 16-bit fixed-point angles;
/// an enable state is held as its byte.
#[derive(Debug, PartialEq, Eq)]
pub struct Block<R = BlockRef> {
    pub position: [u32; 3],
    pub rotation: [u16; 3],
    /// The block's type, as the definition table numbers it.
    pub id: u8,
    pub metadata: Option<BlockMetadata<R>>,
    /// The display name; empty where the block has none.
    pub name: String,
    /// The target enable state, as 255 times its value.
    pub enable_state: u8,
    /// The current enable state: 255 times its value, or the value itself
    /// where `enable_state_unscaled` is set.
    pub enable_state_current: u8,
    pub enable_state_unscaled: bool,
    pub connections: Vec<R>,
    pub load: Option<R>,
    pub color: Option<[u8; 4]>,
}

/// The mathematical value of a block with links of type `R`.
pub struct BlockView<R> {
    pub position: [u32; 3],
    pub rotation: [u16; 3],
    pub id: u8,
    pub metadata: Option<MetadataView<R>>,
    pub name: Seq<char>,
    pub enable_state: u8,
    pub enable_state_current: u8,
    pub enable_state_unscaled: bool,
    pub connections: Seq<R>,
    pub load: Option<R>,
    pub color: Option<[u8; 4]>,
}

impl<R> View for Block<R> {
    type V = BlockView<R>;

    open spec fn view(&self) -> BlockView<R> {
        BlockView {
            position: self.position,
            rotation: self.rotation,
            id: self.id,
            metadata: match self.metadata {
                Some(m) => Some(m@),
                None => None,
            },
            name: self.name@,
            enable_state: self.enable_state,
            enable_state_current: self.enable_state_current,
            enable_state_unscaled: self.enable_state_unscaled,
            connections: self.connections@,
            load: self.load,
            color: self.color,
        }
    }
}

/// The views of a sequence of blocks.
pub open spec fn block_views<R>(blocks: Seq<Block<R>>) -> Seq<BlockView<R>> {
    blocks.map_values(|b: Block<R>| b@)
}

impl<R> BlockView<R> {
    /// A block of the given type with nothing else set.
    pub open spec fn blank(id: u8) -> Self {
        BlockView {
            position: [0u32, 0u32, 0u32],
            rotation: [0u16, 0u16, 0u16],
            id,
            metadata: None,
            name: Seq::empty(),
            enable_state: 0,
            enable_state_current: 0,
            enable_state_unscaled: false,
            connections: Seq::empty(),
            load: None,
            color: None,
        }
    }
}

impl<R> Block<R> {
    /// A block of the given type: at the origin, unrotated, off, without
    /// name, colour, links or metadata.
    pub fn with_id(id: u8) -> (block: Self)
        ensures
            block@ == BlockView::<R>::blank(id),
    {
        Block {
            position: [0u32, 0u32, 0u32],
            rotation: [0u16, 0u16, 0u16],
            id,
            metadata: None,
            name: String::new(),
            enable_state: 0,
            enable_state_current: 0,
            enable_state_unscaled: false,
            connections: Vec::new(),
            load: None,
            color: None,
        }
    }
}

impl<R> Default for Block<R> {
    /// A block of type zero with nothing set.
    fn default() -> (block: Self)
        ensures
            block@ == BlockView::<R>::blank(0),
    {
        Block::with_id(0)
    }
}

impl<R: Copy> Block<R> {
    /// A copy of the block with its links carried over by `m`.
    pub fn relink<B: Copy, M: LinkMap<R, B>>(&self, m: &M) -> (copy: Block<B>)
        requires
            m.valid(),
        ensures
            copy@ == map_block(self@, m.rule()),
    {
        Block {
            position: self.position,
            rotation: self.rotation,
            id: self.id,
            metadata: match &self.metadata {
                Some(meta) => Some(meta.relink(m)),
                None => None,
            },
            name: self.name.clone(),
            enable_state: self.enable_state,
            enable_state_current: self.enable_state_current,
            enable_state_unscaled: self.enable_state_unscaled,
            connections: map_link_list(&self.connections, m),
            load: map_load_link(&self.load, m),
            color: self.color,
        }
    }
}

impl Block {
    /// A block of the type that the definitions know under `identifier`.
    pub fn new(identifier: &str, definitions: &BlockDefinitionsFile) -> (r: Result<
        Block,
        ModelError,
    >)
        ensures
            match r {
                Ok(block) => definitions.id_of(identifier@) == Some(block.id) && block@
                    == BlockView::<BlockRef>::blank(block.id),
                Err(e) => e == ModelError::NotFound && definitions.id_of(identifier@) is None,
            },
    {
        match definitions.lookup_id(identifier) {
            Ok(id) => Ok(Block::with_id(id)),
            Err(e) => Err(e),
        }
    }
}

} // verus!
