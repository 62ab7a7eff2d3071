use swsel::block::{
    AlphaKey, Block, BlockMetadata, BlockRef, ColorKey, Gradient, TypeSettings,
};
use swsel::building::Building;
use swsel::definitions::{BlockDefinition, BlockDefinitionsFile};
use swsel::error::ModelError;
use swsel::root::Root;

fn link(root: usize, block: usize) -> BlockRef {
    BlockRef { root, block }
}

fn definition(id: u8, name: &str, flags: &[&str]) -> BlockDefinition {
    BlockDefinition {
        id,
        name: name.to_string(),
        flags: flags.iter().map(|f| f.to_string()).collect(),
        ticks: Vec::new(),
        values: Vec::new(),
        fields: Vec::new(),
        colors: Vec::new(),
        gradients: Vec::new(),
        vectors: Vec::new(),
    }
}

fn definitions() -> BlockDefinitionsFile {
    BlockDefinitionsFile {
        blocks: vec![
            definition(0, "core", &[]),
            definition(7, "welder", &["tool"]),
            definition(129, "math_block", &["logic"]),
            definition(9, "welder", &[]),
        ],
    }
}

fn metadata_with(
    fields: Vec<Vec<BlockRef>>,
    vectors: Vec<[u32; 3]>,
) -> Result<BlockMetadata, ModelError> {
    BlockMetadata::new(
        vec![true],
        vec![1],
        fields,
        vec![2],
        Vec::new(),
        Vec::new(),
        vectors,
        TypeSettings::Empty,
    )
}

#[test]
fn metadata_with_fields_and_vectors_is_rejected() {
    let both = metadata_with(vec![vec![link(0, 0)]], vec![[1, 2, 3]]);
    assert_eq!(both, Err(ModelError::FieldsAndVectors));
    let both_empty_field = metadata_with(vec![vec![]], vec![[1, 2, 3]]);
    assert_eq!(both_empty_field, Err(ModelError::FieldsAndVectors));
}

#[test]
fn metadata_with_fields_or_vectors_is_built() {
    let fields = metadata_with(vec![vec![link(0, 0)], vec![]], Vec::new()).unwrap();
    assert_eq!(fields.fields(), &vec![vec![link(0, 0)], vec![]]);
    assert_eq!(fields.vectors(), &Vec::<[u32; 3]>::new());
    assert_eq!(fields.toggles(), &vec![true]);
    assert_eq!(fields.values(), &vec![1u32]);
    assert_eq!(fields.dropdowns(), &vec![2u8]);
    assert_eq!(fields.colors(), &Vec::<[u8; 4]>::new());
    assert_eq!(fields.gradients(), &Vec::<Gradient>::new());
    assert_eq!(fields.type_settings(), &TypeSettings::Empty);

    let vectors = metadata_with(Vec::new(), vec![[1, 2, 3]]).unwrap();
    assert_eq!(vectors.vectors(), &vec![[1u32, 2, 3]]);
    assert!(vectors.fields().is_empty());

    let neither = metadata_with(Vec::new(), Vec::new()).unwrap();
    assert!(neither.fields().is_empty() && neither.vectors().is_empty());
}

#[test]
fn empty_metadata_holds_nothing() {
    let m: BlockMetadata = BlockMetadata::empty();
    assert!(m.toggles().is_empty());
    assert!(m.values().is_empty());
    assert!(m.fields().is_empty());
    assert!(m.dropdowns().is_empty());
    assert!(m.colors().is_empty());
    assert!(m.gradients().is_empty());
    assert!(m.vectors().is_empty());
    assert_eq!(m.type_settings(), &TypeSettings::Empty);
}

#[test]
fn block_is_made_by_the_name_of_its_type() {
    let defs = definitions();
    let block = Block::new("math_block", &defs).unwrap();
    assert_eq!(block.id, 129);
    assert_eq!(block, Block::with_id(129));
    assert_eq!(block.position, [0, 0, 0]);
    assert_eq!(block.rotation, [0, 0, 0]);
    assert_eq!(block.name, "");
    assert_eq!(block.enable_state, 0);
    assert_eq!(block.enable_state_current, 0);
    assert!(!block.enable_state_unscaled);
    assert!(block.connections.is_empty());
    assert_eq!(block.load, None);
    assert_eq!(block.color, None);
    assert_eq!(block.metadata, None);
}

#[test]
fn block_of_a_name_defined_twice_has_the_first_type() {
    let defs = definitions();
    assert_eq!(Block::new("welder", &defs).unwrap().id, 7);
    assert_eq!(defs.lookup_id("welder"), Ok(7));
    assert_eq!(defs.lookup_id("core"), Ok(0));
}

#[test]
fn block_of_an_unknown_name_is_not_found() {
    let defs = definitions();
    assert_eq!(Block::new("no such block", &defs), Err(ModelError::NotFound));
    assert_eq!(Block::new("Core", &defs), Err(ModelError::NotFound));
    assert_eq!(defs.lookup_id(""), Err(ModelError::NotFound));
    let none = BlockDefinitionsFile { blocks: Vec::new() };
    assert_eq!(none.lookup_id("core"), Err(ModelError::NotFound));
}

#[test]
fn flags_are_looked_up_by_type() {
    let defs = definitions();
    assert_eq!(defs.flags(7), Some(&vec!["tool".to_string()]));
    assert_eq!(defs.flags(0), Some(&Vec::<String>::new()));
    assert_eq!(defs.flags(200), None);
}

#[test]
fn default_block_is_blank() {
    let block: Block = Block::default();
    assert_eq!(block, Block::with_id(0));
}

#[test]
fn root_gives_the_index_of_an_added_block() {
    let mut root = Root::new();
    assert_eq!(root, Root::default());
    assert_eq!(root.position, [0, 0, 0]);
    assert_eq!(root.rotation, [0, 0, 0]);
    assert_eq!(root.add_block(Block::with_id(1)), 0);
    assert_eq!(root.add_block(Block::with_id(2)), 1);
    assert_eq!(root.blocks.len(), 2);
    assert_eq!(root.blocks[0].id, 1);
    assert_eq!(root.blocks[1].id, 2);
}

#[test]
fn building_counts_roots_and_blocks() {
    let mut building = Building::new();
    assert_eq!(building, Building::default());
    assert_eq!(building.count_roots_and_blocks(), [0, 0]);
    let mut first = Root::new();
    first.add_block(Block::with_id(1));
    first.add_block(Block::with_id(2));
    let mut third = Root::new();
    third.add_block(Block::with_id(3));
    assert_eq!(building.add_root(first), 0);
    assert_eq!(building.add_root(Root::new()), 1);
    assert_eq!(building.add_root(third), 2);
    assert_eq!(building.count_roots_and_blocks(), [3, 3]);
}

fn wired_root() -> Root {
    // A connects to B; C connects to a block of another root.
    let mut a: Block = Block::with_id(1);
    a.connections = vec![link(4, 1)];
    let mut b: Block = Block::with_id(2);
    b.load = Some(link(4, 0));
    b.connections = vec![link(4, 1), link(4, 7), link(4, 0)];
    let mut c: Block = Block::with_id(3);
    c.connections = vec![link(2, 0)];
    c.load = Some(link(2, 0));
    c.metadata = Some(
        BlockMetadata::new(
            Vec::new(),
            Vec::new(),
            vec![vec![link(4, 2), link(9, 9), link(4, 0)], vec![link(0, 0)]],
            Vec::new(),
            Vec::new(),
            Vec::new(),
            Vec::new(),
            TypeSettings::Empty,
        )
        .unwrap(),
    );
    let mut root = Root::new();
    root.position = [1, 2, 3];
    root.rotation = [4, 5, 6];
    root.add_block(a);
    root.add_block(b);
    root.add_block(c);
    root
}

#[test]
fn clone_keeps_inner_links_and_drops_outer_ones() {
    let root = wired_root();
    let copy = root.clone_remapped(4, 6);
    assert_eq!(copy.position, [1, 2, 3]);
    assert_eq!(copy.rotation, [4, 5, 6]);
    assert_eq!(copy.blocks.len(), 3);
    // A' connects to B'.
    assert_eq!(copy.blocks[0].connections, vec![link(6, 1)]);
    // B' rests on A'; its link to a block that the root does not have is gone.
    assert_eq!(copy.blocks[1].load, Some(link(6, 0)));
    assert_eq!(copy.blocks[1].connections, vec![link(6, 1), link(6, 0)]);
    // C' has no connection and no load: both led out of the root.
    assert!(copy.blocks[2].connections.is_empty());
    assert_eq!(copy.blocks[2].load, None);
    let fields = copy.blocks[2].metadata.as_ref().unwrap().fields();
    assert_eq!(fields, &vec![vec![link(6, 2), link(6, 0)], vec![]]);
    // The root that was copied is as it was.
    assert_eq!(root, wired_root());
}

#[test]
fn clone_copies_what_is_no_link() {
    let mut block: Block = Block::with_id(129);
    block.name = "adder".to_string();
    block.position = [7, 8, 9];
    block.rotation = [10, 11, 12];
    block.enable_state = 200;
    block.enable_state_current = 3;
    block.enable_state_unscaled = true;
    block.color = Some([1, 2, 3, 4]);
    block.metadata = Some(
        BlockMetadata::new(
            vec![true, false],
            vec![5, 6],
            Vec::new(),
            vec![1, 2, 3],
            vec![[9, 9, 9, 9]],
            vec![Gradient {
                color_keys: vec![[1, 1, 1, 1]],
                color_time_keys: vec![2],
                alpha_keys: vec![3, 4],
                alpha_time_keys: vec![5],
            }],
            vec![[1, 2, 3]],
            TypeSettings::MathBlock {
                function: "a+b".to_string(),
                incoming_connections_order: vec![1, 0],
                slots: vec![0],
            },
        )
        .unwrap(),
    );
    let mut root = Root::new();
    root.add_block(block);
    let copy = root.clone_remapped(0, 0);
    assert_eq!(copy, root);
}

#[test]
fn building_clones_a_root_to_its_end() {
    let mut building = Building::new();
    for _ in 0..4 {
        building.add_root(Root::new());
    }
    building.add_root(wired_root());
    assert_eq!(building.clone_root(4), Some(5));
    assert_eq!(building.roots.len(), 6);
    assert_eq!(building.roots[4], wired_root());
    assert_eq!(building.roots[5], wired_root().clone_remapped(4, 5));
    assert_eq!(building.roots[5].blocks[0].connections, vec![link(5, 1)]);
    assert_eq!(building.clone_root(6), None);
    assert_eq!(building.roots.len(), 6);
}

#[test]
fn link_leads_to_its_block_or_to_nothing() {
    let mut building = Building::new();
    building.add_root(Root::new());
    building.add_root(wired_root());
    assert_eq!(building.block(link(1, 2)).map(|b| b.id), Some(3));
    assert_eq!(building.block(link(1, 0)), Some(&wired_root().blocks[0]));
    assert_eq!(building.block(link(1, 3)), None);
    assert_eq!(building.block(link(0, 0)), None);
    assert_eq!(building.block(link(2, 0)), None);
}

#[test]
fn gradient_is_made_from_keys() {
    let gradient = Gradient::from_keys(
        &vec![
            ColorKey { color: [1, 2, 3, 4], time: 10 },
            ColorKey { color: [5, 6, 7, 8], time: 20 },
        ],
        &vec![AlphaKey { value: 30, time: 40 }],
    );
    assert_eq!(gradient.color_keys, vec![[1, 2, 3, 4], [5, 6, 7, 8]]);
    assert_eq!(gradient.color_time_keys, vec![10, 20]);
    assert_eq!(gradient.alpha_keys, vec![30]);
    assert_eq!(gradient.alpha_time_keys, vec![40]);
    assert_eq!(gradient.duplicate(), gradient);
    let none = Gradient::from_keys(&Vec::new(), &Vec::new());
    assert!(none.color_keys.is_empty() && none.alpha_time_keys.is_empty());
}
