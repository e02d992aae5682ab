//! Effects: pure mappings from a spectrum snapshot and the channel layout
//! to target colours.
use crate::models::{parse_channel_id, parsed_id, AudioSpectrum, LightNode, LEVEL_MAX};
use std::collections::HashMap;
use vstd::prelude::*;

verus! {

broadcast use vstd::std_specs::hash::group_hash_axioms;

/// Distance from the origin (millionths) under which a coordinate counts as
/// unset.
pub const POSITION_EPSILON: i32 = 1000;

/// A level clamped to `LEVEL_MAX`.
pub open spec fn clamp_level(v: int) -> int {
    if v > LEVEL_MAX as int {
        LEVEL_MAX as int
    } else if v < 0 {
        0
    } else {
        v
    }
}

/// An 8-bit colour component scaled by a level, rounded down.
pub open spec fn scale_component(c: u8, level: int) -> u8 {
    ((c as int) * clamp_level(level) / (LEVEL_MAX as int)) as u8
}

/// The set of channel ids among the first `m` nodes whose id parses.
pub open spec fn ids_among(nodes: Seq<LightNode>, m: int) -> Set<u8> {
    Set::new(|k: u8| exists|i: int| 0 <= i < m && #[trigger] parsed_id(nodes[i].id@) == Some(k))
}

/// The set of channel ids of all nodes whose id parses.
pub open spec fn channel_ids(nodes: Seq<LightNode>) -> Set<u8> {
    ids_among(nodes, nodes.len() as int)
}

fn scale(c: u8, level: u32) -> (r: u8)
    ensures
        r == scale_component(c, level as int),
{
    let l: u32 = if level > LEVEL_MAX as u32 { LEVEL_MAX as u32 } else { level };
    assert((c as int) * (l as int) <= 255 * 10000) by (nonlinear_arith)
        requires c <= 255, l <= 10000;
    assert((c as int) * (l as int) / 10000 <= 255) by (nonlinear_arith)
        requires (c as int) * (l as int) <= 255 * 10000;
    ((c as u32) * l / (LEVEL_MAX as u32)) as u8
}

/// A strategy mapping a snapshot and the layout to channel colours.
pub trait LightEffect {
    /// The colours this effect gives for `audio` over `nodes`.
    spec fn colours(&self, audio: AudioSpectrum, nodes: Seq<LightNode>) -> Map<u8, (u8, u8, u8)>;

    fn update(&mut self, audio: &AudioSpectrum, nodes: &[LightNode]) -> (r: HashMap<u8, (u8, u8, u8)>)
        ensures
            r@ == old(self).colours(*audio, nodes@),
    ;
}

/// Every channel gets the base colour scaled by bass times loudness.
pub struct PulseEffect {
    pub color: (u8, u8, u8),
}

/// Bass times loudness, clamped to `0..=LEVEL_MAX`.
pub open spec fn pulse_brightness(audio: AudioSpectrum) -> int {
    clamp_level((audio.bass as int) * (audio.energy as int) / (LEVEL_MAX as int))
}

pub open spec fn pulse_colour(color: (u8, u8, u8), audio: AudioSpectrum) -> (u8, u8, u8) {
    let b = pulse_brightness(audio);
    (scale_component(color.0, b), scale_component(color.1, b), scale_component(color.2, b))
}

/// Each channel whose id parses maps to the pulse colour.
pub open spec fn pulse_map(color: (u8, u8, u8), audio: AudioSpectrum, nodes: Seq<LightNode>) -> Map<
    u8,
    (u8, u8, u8),
> {
    Map::new(|k: u8| channel_ids(nodes).contains(k), |k: u8| pulse_colour(color, audio))
}

proof fn lemma_ids_among_step(nodes: Seq<LightNode>, i: int)
    requires
        0 <= i < nodes.len(),
    ensures
        forall|k: u8|
            #[trigger] ids_among(nodes, i + 1).contains(k) <==> (ids_among(nodes, i).contains(k)
                || parsed_id(nodes[i].id@) == Some(k)),
{
    assert forall|k: u8|
        #[trigger] ids_among(nodes, i + 1).contains(k) <==> (ids_among(nodes, i).contains(k)
            || parsed_id(nodes[i].id@) == Some(k)) by {
        if ids_among(nodes, i + 1).contains(k) {
            let w = choose|w: int| 0 <= w < i + 1 && #[trigger] parsed_id(nodes[w].id@) == Some(k);
            if w < i {
                assert(ids_among(nodes, i).contains(k));
            }
        }
        if ids_among(nodes, i).contains(k) {
            let w = choose|w: int| 0 <= w < i && #[trigger] parsed_id(nodes[w].id@) == Some(k);
            assert(parsed_id(nodes[w].id@) == Some(k));
        }
    }
}

/// Maps each node whose id parses to `colour`.
fn fill_uniform(nodes: &[LightNode], colour: (u8, u8, u8)) -> (r: HashMap<u8, (u8, u8, u8)>)
    ensures
        r@ == Map::new(|k: u8| channel_ids(nodes@).contains(k), |k: u8| colour),
{
    let mut result: HashMap<u8, (u8, u8, u8)> = HashMap::new();
    let mut i: usize = 0;
    while i < nodes.len()
        invariant
            i <= nodes@.len(),
            result@ == Map::new(|k: u8| ids_among(nodes@, i as int).contains(k), |k: u8| colour),
        decreases nodes@.len() - i,
    {
        let parsed = parse_channel_id(nodes[i].id.as_str());
        if let Some(id) = parsed {
            result.insert(id, colour);
        }
        proof {
            lemma_ids_among_step(nodes@, i as int);
        }
        assert(result@ =~= Map::new(|k: u8| ids_among(nodes@, i + 1).contains(k), |k: u8| colour));
        i = i + 1;
    }
    result
}

impl PulseEffect {
    pub fn new(color: (u8, u8, u8)) -> (r: PulseEffect)
        ensures
            r.color == color,
    {
        PulseEffect { color }
    }
}

impl LightEffect for PulseEffect {
    open spec fn colours(&self, audio: AudioSpectrum, nodes: Seq<LightNode>) -> Map<u8, (u8, u8, u8)> {
        pulse_map(self.color, audio, nodes)
    }

    fn update(&mut self, audio: &AudioSpectrum, nodes: &[LightNode]) -> (r: HashMap<u8, (u8, u8, u8)>) {
        let bass = audio.bass as u32;
        let energy = audio.energy as u32;
        assert(bass * energy <= 65535 * 65535) by (nonlinear_arith)
            requires bass <= 65535, energy <= 65535;
        let product: u32 = bass * energy / (LEVEL_MAX as u32);
        let r = scale(self.color.0, product);
        let g = scale(self.color.1, product);
        let b = scale(self.color.2, product);
        fill_uniform(nodes, (r, g, b))
    }
}

/// Splits the channels into bass (red), mid (green) and high (blue) groups
/// by their position along x.
pub struct MultiBandEffect;

/// A coordinate set apart from the origin.
pub open spec fn off_origin(n: LightNode) -> bool {
    n.x > POSITION_EPSILON || n.x < -POSITION_EPSILON || n.y > POSITION_EPSILON || n.y
        < -POSITION_EPSILON || n.z > POSITION_EPSILON || n.z < -POSITION_EPSILON
}

/// Some node of the layout has a position.
pub open spec fn has_positions(nodes: Seq<LightNode>) -> bool {
    exists|i: int| 0 <= i < nodes.len() && #[trigger] off_origin(nodes[i])
}

/// Group 0 shows bass in red, group 1 mids in green, any other highs in
/// blue.
pub open spec fn band_colour(group: int, audio: AudioSpectrum) -> (u8, u8, u8) {
    if group == 0 {
        (scale_component(255, audio.bass as int), 0, 0)
    } else if group == 1 {
        (0, scale_component(255, audio.mids as int), 0)
    } else {
        (0, 0, scale_component(255, audio.highs as int))
    }
}

/// Node `j` comes before node `i` when sorted stably by x.
pub open spec fn precedes(nodes: Seq<LightNode>, j: int, i: int) -> bool {
    nodes[j].x < nodes[i].x || (nodes[j].x == nodes[i].x && j < i)
}

/// How many of the first `m` nodes come before node `i`.
pub open spec fn count_before(nodes: Seq<LightNode>, i: int, m: int) -> nat
    decreases m,
{
    if m <= 0 {
        0
    } else {
        count_before(nodes, i, m - 1) + if precedes(nodes, m - 1, i) {
            1nat
        } else {
            0nat
        }
    }
}

/// The index of node `i` in the layout sorted stably by x.
pub open spec fn sort_position(nodes: Seq<LightNode>, i: int) -> nat {
    count_before(nodes, i, nodes.len() as int)
}

/// The group of the node at sorted index `position` among `count` nodes.
pub open spec fn group_of(position: nat, count: nat) -> int {
    (position * 3 / count) as int
}

/// The largest sorted index among the first `m` nodes whose id parses to
/// `k`: in the sorted walk, the last node that writes channel `k`.
pub open spec fn last_position(nodes: Seq<LightNode>, k: u8, m: int) -> Option<nat>
    decreases m,
{
    if m <= 0 {
        None
    } else {
        let prev = last_position(nodes, k, m - 1);
        if parsed_id(nodes[m - 1].id@) == Some(k) {
            let p = sort_position(nodes, m - 1);
            match prev {
                Some(b) => if b >= p {
                    Some(b)
                } else {
                    Some(p)
                },
                None => Some(p),
            }
        } else {
            prev
        }
    }
}

/// Without positions: channel k takes group k mod 3.
pub open spec fn fallback_map(audio: AudioSpectrum, nodes: Seq<LightNode>) -> Map<u8, (u8, u8, u8)> {
    Map::new(|k: u8| channel_ids(nodes).contains(k), |k: u8| band_colour((k % 3) as int, audio))
}

/// With positions: a channel takes the group of its sorted index.
pub open spec fn spatial_map(audio: AudioSpectrum, nodes: Seq<LightNode>) -> Map<u8, (u8, u8, u8)> {
    Map::new(
        |k: u8| channel_ids(nodes).contains(k),
        |k: u8|
            band_colour(
                group_of(last_position(nodes, k, nodes.len() as int)->0, nodes.len() as nat),
                audio,
            ),
    )
}

pub open spec fn multiband_map(audio: AudioSpectrum, nodes: Seq<LightNode>) -> Map<u8, (u8, u8, u8)> {
    if nodes.len() == 0 {
        Map::empty()
    } else if has_positions(nodes) {
        spatial_map(audio, nodes)
    } else {
        fallback_map(audio, nodes)
    }
}

proof fn lemma_last_position_step(nodes: Seq<LightNode>, i: int)
    requires
        0 <= i < nodes.len(),
    ensures
        forall|k: u8|
            #[trigger] last_position(nodes, k, i + 1) == (if parsed_id(nodes[i].id@) == Some(k) {
                match last_position(nodes, k, i) {
                    Some(b) => if b >= sort_position(nodes, i) {
                        Some(b)
                    } else {
                        Some(sort_position(nodes, i))
                    },
                    None => Some(sort_position(nodes, i)),
                }
            } else {
                last_position(nodes, k, i)
            }),
{
}

proof fn lemma_last_position_domain(nodes: Seq<LightNode>, m: int)
    requires
        0 <= m <= nodes.len(),
    ensures
        forall|k: u8| #[trigger] last_position(nodes, k, m).is_some() <==> ids_among(nodes, m).contains(k),
    decreases m,
{
    if m > 0 {
        lemma_last_position_domain(nodes, m - 1);
        lemma_ids_among_step(nodes, m - 1);
        lemma_last_position_step(nodes, m - 1);
        assert forall|k: u8| #[trigger] last_position(nodes, k, m).is_some() <==> ids_among(nodes, m).contains(k) by {
            assert(ids_among(nodes, m).contains(k) == ids_among(nodes, (m - 1) + 1).contains(k));
        }
    }
}

proof fn lemma_count_before_monotone(nodes: Seq<LightNode>, a: int, b: int, m: int)
    requires
        0 <= a < nodes.len(),
        0 <= b < nodes.len(),
        0 <= m <= nodes.len(),
        precedes(nodes, a, b),
    ensures
        count_before(nodes, a, m) + (if a < m { 1int } else { 0int }) <= count_before(nodes, b, m),
    decreases m,
{
    if m > 0 {
        lemma_count_before_monotone(nodes, a, b, m - 1);
    }
}

proof fn lemma_count_before_bound(nodes: Seq<LightNode>, i: int, m: int)
    requires
        0 <= i < nodes.len(),
        0 <= m <= nodes.len(),
    ensures
        count_before(nodes, i, m) + (if i < m { 1int } else { 0int }) <= m,
    decreases m,
{
    if m > 0 {
        lemma_count_before_bound(nodes, i, m - 1);
    }
}

/// Sort positions are a stable sort by x: each lies below the number of
/// nodes, no two nodes share one, and a node further left, or equally far
/// left and earlier in the layout, comes first.
pub proof fn lemma_sort_position_is_stable_order(nodes: Seq<LightNode>, i: int, j: int)
    requires
        0 <= i < nodes.len(),
        0 <= j < nodes.len(),
    ensures
        sort_position(nodes, i) < nodes.len(),
        i != j ==> sort_position(nodes, i) != sort_position(nodes, j),
        precedes(nodes, i, j) ==> sort_position(nodes, i) < sort_position(nodes, j),
{
    let n = nodes.len() as int;
    lemma_count_before_bound(nodes, i, n);
    if precedes(nodes, i, j) {
        lemma_count_before_monotone(nodes, i, j, n);
    }
    if precedes(nodes, j, i) {
        lemma_count_before_monotone(nodes, j, i, n);
    }
}

fn group_colour(group: u8, audio: &AudioSpectrum) -> (r: (u8, u8, u8))
    ensures
        r == band_colour(group as int, *audio),
{
    if group == 0 {
        (scale(255, audio.bass as u32), 0, 0)
    } else if group == 1 {
        (0, scale(255, audio.mids as u32), 0)
    } else {
        (0, 0, scale(255, audio.highs as u32))
    }
}

fn any_positioned(nodes: &[LightNode]) -> (r: bool)
    ensures
        r == has_positions(nodes@),
{
    let mut i: usize = 0;
    while i < nodes.len()
        invariant
            i <= nodes@.len(),
            forall|j: int| 0 <= j < i ==> !#[trigger] off_origin(nodes@[j]),
        decreases nodes@.len() - i,
    {
        let n = &nodes[i];
        if n.x > POSITION_EPSILON || n.x < -POSITION_EPSILON || n.y > POSITION_EPSILON || n.y
            < -POSITION_EPSILON || n.z > POSITION_EPSILON || n.z < -POSITION_EPSILON {
            assert(off_origin(nodes@[i as int]));
            return true;
        }
        i = i + 1;
    }
    false
}

fn position_in_order(nodes: &[LightNode], i: usize) -> (r: usize)
    requires
        i < nodes@.len(),
    ensures
        r == sort_position(nodes@, i as int),
        r <= nodes@.len(),
{
    let mut count: usize = 0;
    let mut j: usize = 0;
    while j < nodes.len()
        invariant
            i < nodes@.len(),
            j <= nodes@.len(),
            count == count_before(nodes@, i as int, j as int),
            count <= j,
        decreases nodes@.len() - j,
    {
        if nodes[j].x < nodes[i].x || (nodes[j].x == nodes[i].x && j < i) {
            count = count + 1;
        }
        j = j + 1;
    }
    count
}

fn fill_by_id_group(nodes: &[LightNode], audio: &AudioSpectrum) -> (r: HashMap<u8, (u8, u8, u8)>)
    ensures
        r@ == fallback_map(*audio, nodes@),
{
    let mut result: HashMap<u8, (u8, u8, u8)> = HashMap::new();
    let mut i: usize = 0;
    while i < nodes.len()
        invariant
            i <= nodes@.len(),
            result@ == Map::new(
                |k: u8| ids_among(nodes@, i as int).contains(k),
                |k: u8| band_colour((k % 3) as int, *audio),
            ),
        decreases nodes@.len() - i,
    {
        if let Some(id) = parse_channel_id(nodes[i].id.as_str()) {
            let colour = group_colour(id % 3, audio);
            result.insert(id, colour);
        }
        proof {
            lemma_ids_among_step(nodes@, i as int);
        }
        assert(result@ =~= Map::new(
            |k: u8| ids_among(nodes@, i + 1).contains(k),
            |k: u8| band_colour((k % 3) as int, *audio),
        ));
        i = i + 1;
    }
    result
}

fn fill_by_x_group(nodes: &[LightNode], audio: &AudioSpectrum) -> (r: HashMap<u8, (u8, u8, u8)>)
    requires
        nodes@.len() > 0,
    ensures
        r@ == spatial_map(*audio, nodes@),
{
    let n = nodes.len();
    let mut result: HashMap<u8, (u8, u8, u8)> = HashMap::new();
    let mut best: HashMap<u8, usize> = HashMap::new();
    let mut i: usize = 0;
    while i < n
        invariant
            n == nodes@.len(),
            n > 0,
            i <= n,
            forall|k: u8|
                #[trigger] best@.contains_key(k) <==> last_position(nodes@, k, i as int).is_some(),
            forall|k: u8|
                best@.contains_key(k) ==> #[trigger] best@[k] as nat == last_position(
                    nodes@,
                    k,
                    i as int,
                )->0,
            result@ == Map::new(
                |k: u8| ids_among(nodes@, i as int).contains(k),
                |k: u8|
                    band_colour(
                        group_of(last_position(nodes@, k, i as int)->0, n as nat),
                        *audio,
                    ),
            ),
        decreases n - i,
    {
        let pos = position_in_order(nodes, i);
        let parsed = parse_channel_id(nodes[i].id.as_str());
        proof {
            lemma_last_position_step(nodes@, i as int);
            lemma_ids_among_step(nodes@, i as int);
            lemma_last_position_domain(nodes@, i as int);
            lemma_last_position_domain(nodes@, i + 1);
        }
        if let Some(id) = parsed {
            let keep = match best.get(&id) {
                Some(b) => *b >= pos,
                None => false,
            };
            if !keep {
                let wide: u128 = (pos as u128) * 3 / (n as u128);
                assert(wide <= 3) by (nonlinear_arith)
                    requires pos <= n, n > 0, wide == (pos as int * 3) / (n as int);
                let group: u8 = wide as u8;
                assert(group as int == group_of(pos as nat, n as nat));
                let colour = group_colour(group, audio);
                best.insert(id, pos);
                result.insert(id, colour);
            }
        }
        assert(result@ =~= Map::new(
            |k: u8| ids_among(nodes@, i + 1).contains(k),
            |k: u8|
                band_colour(
                    group_of(last_position(nodes@, k, i + 1)->0, n as nat),
                    *audio,
                ),
        ));
        i = i + 1;
    }
    result
}

impl MultiBandEffect {
    pub fn new() -> (r: MultiBandEffect) {
        MultiBandEffect
    }
}

impl LightEffect for MultiBandEffect {
    open spec fn colours(&self, audio: AudioSpectrum, nodes: Seq<LightNode>) -> Map<u8, (u8, u8, u8)> {
        multiband_map(audio, nodes)
    }

    fn update(&mut self, audio: &AudioSpectrum, nodes: &[LightNode]) -> (r: HashMap<u8, (u8, u8, u8)>) {
        if nodes.len() == 0 {
            let result: HashMap<u8, (u8, u8, u8)> = HashMap::new();
            assert(result@ =~= multiband_map(*audio, nodes@));
            return result;
        }
        if any_positioned(nodes) {
            fill_by_x_group(nodes, audio)
        } else {
            fill_by_id_group(nodes, audio)
        }
    }
}

} // verus!
