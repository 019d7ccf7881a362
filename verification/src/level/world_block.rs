use crate::utility::vector::Vec3;
use vstd::prelude::*;

verus! {

/// The value of one block state.
#[derive(Debug)]
pub enum BlockStateValue {
    String(String),
    Bool(bool),
    Int(i32),
}

/// What a block state value means: its text as characters, or its flag, or its number.
pub enum BlockStateValueView {
    String(Seq<char>),
    Bool(bool),
    Int(i32),
}

impl View for BlockStateValue {
    type V = BlockStateValueView;

    open spec fn view(&self) -> BlockStateValueView {
        match self {
            BlockStateValue::String(s) => BlockStateValueView::String(s@),
            BlockStateValue::Bool(b) => BlockStateValueView::Bool(*b),
            BlockStateValue::Int(i) => BlockStateValueView::Int(*i),
        }
    }
}

impl Clone for BlockStateValue {
    fn clone(&self) -> (r: Self)
        ensures
            r@ == self@,
    {
        match self {
            BlockStateValue::String(s) => BlockStateValue::String(s.clone()),
            BlockStateValue::Bool(b) => BlockStateValue::Bool(*b),
            BlockStateValue::Int(i) => BlockStateValue::Int(*i),
        }
    }
}

impl PartialEq for BlockStateValue {
    fn eq(&self, other: &Self) -> (r: bool) {
        match self {
            BlockStateValue::String(a) => match other {
                BlockStateValue::String(b) => a.eq(b),
                _ => false,
            },
            BlockStateValue::Bool(a) => match other {
                BlockStateValue::Bool(b) => *a == *b,
                _ => false,
            },
            BlockStateValue::Int(a) => match other {
                BlockStateValue::Int(b) => *a == *b,
                _ => false,
            },
        }
    }
}

impl vstd::std_specs::cmp::PartialEqSpecImpl for BlockStateValue {
    open spec fn obeys_eq_spec() -> bool {
        true
    }

    open spec fn eq_spec(&self, other: &Self) -> bool {
        self@ == other@
    }
}

/// A block: its identifier and its states, held as a list of (state name, value).
///
/// The states mean the map from names to values in which a later entry of a name
/// replaces an earlier one (see `states_map`).
#[derive(Debug)]
pub struct LevelBlock {
    pub name: String,
    pub states: Vec<(String, BlockStateValue)>,
}

/// What a block means: its identifier and the map of its states.
pub struct LevelBlockView {
    pub name: Seq<char>,
    pub states: Map<Seq<char>, BlockStateValueView>,
}

/// The map that a list of states describes; a later entry of a name wins.
pub open spec fn states_map(s: Seq<(String, BlockStateValue)>) -> Map<Seq<char>, BlockStateValueView>
    decreases s.len(),
{
    if s.len() == 0 {
        Map::empty()
    } else {
        states_map(s.drop_last()).insert(s.last().0@, s.last().1@)
    }
}

impl View for LevelBlock {
    type V = LevelBlockView;

    open spec fn view(&self) -> LevelBlockView {
        LevelBlockView { name: self.name@, states: states_map(self.states@) }
    }
}

/// The value of state `key` in the list, searched from the end, with the position found.
fn lookup_state(states: &Vec<(String, BlockStateValue)>, key: &String) -> (r: Option<usize>)
    ensures
        match r {
            Some(i) => i < states@.len() && states@[i as int].0@ == key@ && states_map(states@).dom().contains(key@)
                && states_map(states@)[key@] == states@[i as int].1@,
            None => !states_map(states@).dom().contains(key@),
        },
{
    let mut i: usize = states.len();
    while i > 0
        invariant
            i <= states@.len(),
            forall|j: int| i <= j < states@.len() ==> states@[j].0@ != key@,
        decreases i,
    {
        i = i - 1;
        if states[i].0 == *key {
            proof {
                lemma_states_map_last_hit(states@, i as int);
            }
            return Some(i);
        }
    }
    proof {
        lemma_states_map_no_hit(states@, key@);
    }
    None
}

proof fn lemma_states_map_last_hit(s: Seq<(String, BlockStateValue)>, i: int)
    requires
        0 <= i < s.len(),
        forall|j: int| i < j < s.len() ==> s[j].0@ != s[i].0@,
    ensures
        states_map(s).dom().contains(s[i].0@),
        states_map(s)[s[i].0@] == s[i].1@,
    decreases s.len(),
{
    if i < s.len() - 1 {
        lemma_states_map_last_hit(s.drop_last(), i);
    }
}

proof fn lemma_states_map_no_hit(s: Seq<(String, BlockStateValue)>, k: Seq<char>)
    requires
        forall|j: int| 0 <= j < s.len() ==> s[j].0@ != k,
    ensures
        !states_map(s).dom().contains(k),
    decreases s.len(),
{
    if s.len() > 0 {
        lemma_states_map_no_hit(s.drop_last(), k);
    }
}

proof fn lemma_states_map_has(s: Seq<(String, BlockStateValue)>, i: int)
    requires
        0 <= i < s.len(),
    ensures
        states_map(s).dom().contains(s[i].0@),
    decreases s.len(),
{
    if i < s.len() - 1 {
        lemma_states_map_has(s.drop_last(), i);
    }
}

proof fn lemma_states_map_dom(s: Seq<(String, BlockStateValue)>, k: Seq<char>)
    requires
        states_map(s).dom().contains(k),
    ensures
        exists|j: int| 0 <= j < s.len() && s[j].0@ == k,
    decreases s.len(),
{
    if s.len() > 0 && s.last().0@ != k {
        lemma_states_map_dom(s.drop_last(), k);
        let j = choose|j: int| 0 <= j < s.drop_last().len() && s.drop_last()[j].0@ == k;
        assert(s[j].0@ == k);
    }
}

/// Whether every state of `a` holds in `b` with the same value.
fn states_included(a: &Vec<(String, BlockStateValue)>, b: &Vec<(String, BlockStateValue)>) -> (r: bool)
    ensures
        r == (forall|k: Seq<char>| #[trigger] states_map(a@).dom().contains(k)
            ==> states_map(b@).dom().contains(k) && states_map(b@)[k] == states_map(a@)[k]),
{
    let mut i: usize = 0;
    while i < a.len()
        invariant
            i <= a@.len(),
            forall|j: int| 0 <= j < i ==> {
                let k = #[trigger] a@[j].0@;
                states_map(b@).dom().contains(k) && states_map(b@)[k] == states_map(a@)[k]
            },
        decreases a@.len() - i,
    {
        proof {
            lemma_states_map_has(a@, i as int);
        }
        let ka = lookup_state(a, &a[i].0);
        let kb = lookup_state(b, &a[i].0);
        match (ka, kb) {
            (Some(ia), Some(ib)) => {
                if !(a[ia].1 == b[ib].1) {
                    assert(states_map(a@).dom().contains(a@[i as int].0@));
                    return false;
                }
            },
            _ => {
                assert(states_map(a@).dom().contains(a@[i as int].0@));
                return false;
            },
        }
        i = i + 1;
    }
    proof {
        assert forall|k: Seq<char>| #[trigger] states_map(a@).dom().contains(k) implies states_map(
            b@,
        ).dom().contains(k) && states_map(b@)[k] == states_map(a@)[k] by {
            lemma_states_map_dom(a@, k);
            let j = choose|j: int| 0 <= j < a@.len() && a@[j].0@ == k;
            assert(a@[j].0@ == k);
        }
    }
    true
}

impl PartialEq for LevelBlock {
    fn eq(&self, other: &Self) -> (r: bool) {
        let r = self.name == other.name && states_included(&self.states, &other.states)
            && states_included(&other.states, &self.states);
        proof {
            if r {
                assert(states_map(self.states@) =~= states_map(other.states@));
            }
        }
        r
    }
}

impl vstd::std_specs::cmp::PartialEqSpecImpl for LevelBlock {
    open spec fn obeys_eq_spec() -> bool {
        true
    }

    open spec fn eq_spec(&self, other: &Self) -> bool {
        self@ == other@
    }
}

fn clone_states(states: &Vec<(String, BlockStateValue)>) -> (r: Vec<(String, BlockStateValue)>)
    ensures
        r@.len() == states@.len(),
        forall|i: int| 0 <= i < states@.len() ==> (#[trigger] r@[i]).0@ == states@[i].0@ && r@[i].1@ == states@[i].1@,
{
    let mut r: Vec<(String, BlockStateValue)> = Vec::new();
    let mut i: usize = 0;
    while i < states.len()
        invariant
            i <= states@.len(),
            r@.len() == i,
            forall|j: int| 0 <= j < i ==> (#[trigger] r@[j]).0@ == states@[j].0@ && r@[j].1@ == states@[j].1@,
        decreases states@.len() - i,
    {
        r.push((states[i].0.clone(), states[i].1.clone()));
        i = i + 1;
    }
    r
}

proof fn lemma_states_map_same(a: Seq<(String, BlockStateValue)>, b: Seq<(String, BlockStateValue)>)
    requires
        a.len() == b.len(),
        forall|i: int| 0 <= i < a.len() ==> (#[trigger] a[i]).0@ == b[i].0@ && a[i].1@ == b[i].1@,
    ensures
        states_map(a) == states_map(b),
    decreases a.len(),
{
    if a.len() > 0 {
        lemma_states_map_same(a.drop_last(), b.drop_last());
    }
}

impl Clone for LevelBlock {
    fn clone(&self) -> (r: Self)
        ensures
            r@ == self@,
    {
        let states = clone_states(&self.states);
        proof {
            lemma_states_map_same(states@, self.states@);
        }
        LevelBlock { name: self.name.clone(), states }
    }
}

/// A block type that can be turned into, and made from, a `LevelBlock`.
pub trait BlockTransition: Sized + Clone {
    /// The block that this value stands for.
    spec fn transition_view(&self) -> LevelBlockView;

    fn from_transition(value: LevelBlock) -> (r: Self)
        ensures
            r.transition_view() == value@,
    ;

    fn into_transition(self) -> (r: LevelBlock)
        ensures
            r@ == self.transition_view(),
    ;

    fn get_id(&self) -> (r: &str)
        ensures
            r@ == self.transition_view().name,
    ;

    /// A clone of `other`.
    fn from_other(other: &Self) -> (r: Self)
        ensures
            cloned::<Self>(*other, r),
    {
        other.clone()
    }
}

impl BlockTransition for LevelBlock {
    open spec fn transition_view(&self) -> LevelBlockView {
        self@
    }

    fn from_transition(value: LevelBlock) -> (r: Self) {
        value
    }

    fn into_transition(self) -> (r: LevelBlock) {
        self
    }

    fn get_id(&self) -> (r: &str) {
        self.name.as_str()
    }

    fn from_other(other: &Self) -> (r: Self)
        ensures
            r@ == other@,
    {
        other.clone()
    }
}

/// `(chunk, local)` with `value == 16 * chunk + local` and `0 <= local < 16`:
/// the floor division of `value` by 16 and its remainder.
pub open spec fn splits_by_16(value: i32, chunk: i32, local: u8) -> bool {
    value as int == 16 * (chunk as int) + (local as int) && local < 16
}

proof fn lemma_split_by_16(v: i32)
    ensures
        splits_by_16(v, v >> 4i32, (v & 15i32) as u8),
{
    assert(0 <= (v & 15i32) < 16) by (bit_vector);
    assert(v == 16 * (v >> 4i32) + (v & 15i32)) by (bit_vector);
}

impl LevelBlock {
    /// Splits a block position into the position of its sub chunk and the position of the
    /// block inside that sub chunk (each component between 0 and 15).
    pub fn block_pos_to_sub_chunk(pos: Vec3<i32>) -> (r: (Vec3<i32>, Vec3<u8>))
        ensures
            splits_by_16(pos.x, r.0.x, r.1.x),
            splits_by_16(pos.y, r.0.y, r.1.y),
            splits_by_16(pos.z, r.0.z, r.1.z),
    {
        proof {
            lemma_split_by_16(pos.x);
            lemma_split_by_16(pos.y);
            lemma_split_by_16(pos.z);
        }
        let sub_chunk_y = pos.y >> 4;
        let sub_chunk_y_inside = pos.y & 0xF;
        let chunk_x = pos.x >> 4;
        let chunk_z = pos.z >> 4;
        let sub_chunk_x = pos.x & 0xF;
        let sub_chunk_z = pos.z & 0xF;
        (
            Vec3::new(chunk_x, sub_chunk_y, chunk_z),
            Vec3::new(sub_chunk_x as u8, sub_chunk_y_inside as u8, sub_chunk_z as u8),
        )
    }

    /// The position of a coordinate inside its sub chunk, written with the remainder
    /// of `%` (which keeps the sign); for a negative multiple of 16 this gives 16.
    #[allow(dead_code)]
    fn interior_position(pos: i32) -> (r: u8)
        ensures
            r == (if pos >= 0 || pos % 16 != 0 {
                pos % 16
            } else {
                16
            }),
    {
        if pos >= 0 {
            (pos % 16) as u8
        } else {
            (pos % 16 + 16) as u8
        }
    }

    /// The air block: `minecraft:air` with no states.
    pub fn air() -> (r: Self)
        ensures
            r@.name == "minecraft:air"@,
            r@.states == Map::<Seq<char>, BlockStateValueView>::empty(),
    {
        LevelBlock { name: String::from_str("minecraft:air"), states: Vec::new() }
    }

    /// A block with the given identifier and no states.
    pub fn id(id: String) -> (r: Self)
        ensures
            r@.name == id@,
            r@.states == Map::<Seq<char>, BlockStateValueView>::empty(),
    {
        LevelBlock { name: id, states: Vec::new() }
    }
}

} // verus!
