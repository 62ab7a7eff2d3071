//! Carrying the links of blocks over from one way of naming a block to
//! another: from a place in a building to an index in a stream and back, or
//! from a root to its copy. A link that has no counterpart is dropped.

use vstd::prelude::*;
use crate::block::{BlockView, MetadataView};

verus! {

/// The links of a list carried over by `f`, in order, without those that `f`
/// drops.
pub open spec fn map_links<A, B>(links: Seq<A>, f: spec_fn(A) -> Option<B>) -> Seq<B>
    decreases links.len(),
{
    if links.len() == 0 {
        Seq::empty()
    } else {
        let init = map_links(links.drop_last(), f);
        match f(links.last()) {
            Some(b) => init.push(b),
            None => init,
        }
    }
}

/// A single optional link carried over by `f`.
pub open spec fn map_load<A, B>(load: Option<A>, f: spec_fn(A) -> Option<B>) -> Option<B> {
    match load {
        Some(a) => f(a),
        None => None,
    }
}

/// Every field keeps its place, and its links are carried over by `f`.
pub open spec fn map_fields<A, B>(fields: Seq<Seq<A>>, f: spec_fn(A) -> Option<B>) -> Seq<Seq<B>> {
    Seq::new(fields.len(), |i: int| map_links(fields[i], f))
}

/// The metadata with the links of its fields carried over by `f`.
pub open spec fn map_metadata<A, B>(m: MetadataView<A>, f: spec_fn(A) -> Option<B>) -> MetadataView<
    B,
> {
    MetadataView {
        toggles: m.toggles,
        values: m.values,
        fields: map_fields(m.fields, f),
        dropdowns: m.dropdowns,
        colors: m.colors,
        gradients: m.gradients,
        vectors: m.vectors,
        type_settings: m.type_settings,
    }
}

/// The metadata, if there is any, with the links of its fields carried over
/// by `f`.
pub open spec fn map_optional_metadata<A, B>(
    m: Option<MetadataView<A>>,
    f: spec_fn(A) -> Option<B>,
) -> Option<MetadataView<B>> {
    match m {
        Some(m) => Some(map_metadata(m, f)),
        None => None,
    }
}

/// The block with its connections, its load and the links of its fields
/// carried over by `f`, and all else as it was.
pub open spec fn map_block<A, B>(b: BlockView<A>, f: spec_fn(A) -> Option<B>) -> BlockView<B> {
    BlockView {
        position: b.position,
        rotation: b.rotation,
        id: b.id,
        metadata: map_optional_metadata(b.metadata, f),
        name: b.name,
        enable_state: b.enable_state,
        enable_state_current: b.enable_state_current,
        enable_state_unscaled: b.enable_state_unscaled,
        connections: map_links(b.connections, f),
        load: map_load(b.load, f),
        color: b.color,
    }
}

/// Every block keeps its place, and its links are carried over by `f`.
pub open spec fn map_blocks<A, B>(blocks: Seq<BlockView<A>>, f: spec_fn(A) -> Option<B>) -> Seq<
    BlockView<B>,
> {
    Seq::new(blocks.len(), |i: int| map_block(blocks[i], f))
}

/// First `f`, then `g` on what `f` kept.
pub open spec fn chain<A, B, C>(f: spec_fn(A) -> Option<B>, g: spec_fn(B) -> Option<C>) -> spec_fn(
    A,
) -> Option<C> {
    |a: A|
        match f(a) {
            Some(b) => g(b),
            None => None,
        }
}

/// Carrying a list over twice is carrying it over by the two rules in turn.
pub proof fn lemma_map_links_twice<A, B, C>(
    links: Seq<A>,
    f: spec_fn(A) -> Option<B>,
    g: spec_fn(B) -> Option<C>,
)
    ensures
        map_links(map_links(links, f), g) == map_links(links, chain(f, g)),
    decreases links.len(),
{
    if links.len() > 0 {
        lemma_map_links_twice(links.drop_last(), f, g);
        match f(links.last()) {
            Some(b) => {
                let init = map_links(links.drop_last(), f);
                assert(init.push(b).drop_last() =~= init);
            },
            None => {},
        }
    }
}

/// Carrying a block over twice is carrying it over by the two rules in turn.
pub proof fn lemma_map_block_twice<A, B, C>(
    b: BlockView<A>,
    f: spec_fn(A) -> Option<B>,
    g: spec_fn(B) -> Option<C>,
)
    ensures
        map_block(map_block(b, f), g) == map_block(b, chain(f, g)),
{
    lemma_map_links_twice(b.connections, f, g);
    match b.metadata {
        Some(m) => {
            assert forall|i: int| 0 <= i < m.fields.len() implies map_links(
                map_links(m.fields[i], f),
                g,
            ) == map_links(m.fields[i], chain(f, g)) by {
                lemma_map_links_twice(m.fields[i], f, g);
            }
            assert(map_fields(map_fields(m.fields, f), g) =~= map_fields(m.fields, chain(f, g)));
        },
        None => {},
    }
}

/// A rule that keeps every link of a list as it is leaves the list as it is.
pub proof fn lemma_map_links_kept<A>(links: Seq<A>, f: spec_fn(A) -> Option<A>)
    requires
        forall|i: int| 0 <= i < links.len() ==> f(#[trigger] links[i]) == Some(links[i]),
    ensures
        map_links(links, f) == links,
    decreases links.len(),
{
    if links.len() > 0 {
        lemma_map_links_kept(links.drop_last(), f);
        assert(links.drop_last().push(links.last()) =~= links);
    }
}

/// An executable rule for carrying links over.
pub trait LinkMap<A: Copy, B: Copy> {
    /// What the rule's tables must satisfy for it to be used.
    spec fn valid(&self) -> bool;

    /// What the rule does, as a function.
    spec fn rule(&self) -> spec_fn(A) -> Option<B>;

    fn apply(&self, link: A) -> (r: Option<B>)
        requires
            self.valid(),
        ensures
            r == (self.rule())(link),
    ;
}

/// Carries the links of a list over.
pub fn map_link_list<A: Copy, B: Copy, M: LinkMap<A, B>>(links: &Vec<A>, m: &M) -> (mapped: Vec<B>)
    requires
        m.valid(),
    ensures
        mapped@ == map_links(links@, m.rule()),
{
    let mut mapped: Vec<B> = Vec::new();
    let mut i: usize = 0;
    while i < links.len()
        invariant
            m.valid(),
            i <= links.len(),
            mapped@ == map_links(links@.take(i as int), m.rule()),
        decreases links.len() - i,
    {
        proof {
            assert(links@.take(i + 1).drop_last() =~= links@.take(i as int));
        }
        match m.apply(links[i]) {
            Some(b) => {
                mapped.push(b);
            },
            None => {},
        }
        i += 1;
    }
    assert(links@.take(i as int) =~= links@);
    mapped
}

/// Carries a single optional link over.
pub fn map_load_link<A: Copy, B: Copy, M: LinkMap<A, B>>(load: &Option<A>, m: &M) -> (mapped:
    Option<B>)
    requires
        m.valid(),
    ensures
        mapped == map_load(*load, m.rule()),
{
    match load {
        Some(a) => m.apply(*a),
        None => None,
    }
}

} // verus!
