//! Chunk coordinates and the level of detail of chunks.
use vstd::prelude::*;
use vstd::string::StringExecFns;

use crate::digits::{push_signed_decimal, signed_decimal};

verus! {

/// A chunk position.
#[derive(Clone, Copy, Debug, Default, PartialEq, Eq, Structural, Hash)]
pub struct Vec2i32 {
    /// The x coordinate.
    pub x: i32,
    /// The y coordinate.
    pub y: i32,
}

impl Vec2i32 {
    /// The position (x, y).
    pub fn new(x: i32, y: i32) -> (r: Self)
        ensures
            r == (Vec2i32 { x, y }),
    {
        Self { x, y }
    }

    /// The text of the position: "(x, y)".
    pub fn to_text(&self) -> (r: String)
        ensures
            r@ == "("@ + signed_decimal(self.x as int) + ", "@ + signed_decimal(self.y as int) + ")"@,
    {
        let mut r = String::from_str("(");
        push_signed_decimal(&mut r, self.x);
        r.append(", ");
        push_signed_decimal(&mut r, self.y);
        r.append(")");
        r
    }
}

/// Whether the chunks around a tracked position must be planned again: the
/// position is in another chunk than the current one, or there is no current
/// chunk yet.
pub fn chunk_changed(current: Option<Vec2i32>, pos: Vec2i32) -> (r: bool)
    ensures
        r <==> (current is None || current.unwrap() != pos),
{
    match current {
        Some(c) => c != pos,
        None => true,
    }
}

/// The position of the first occurrence of `p` in `s`, if any.
pub open spec fn first_index(s: Seq<Vec2i32>, p: Vec2i32) -> Option<int>
    decreases s.len(),
{
    if s.len() == 0 {
        None
    } else {
        match first_index(s.drop_last(), p) {
            Some(i) => Some(i),
            None => if s.last() == p {
                Some(s.len() - 1)
            } else {
                None
            },
        }
    }
}

/// `s` without its element at `i`, whose place the last element takes.
pub open spec fn swap_removed(s: Seq<Vec2i32>, i: int) -> Seq<Vec2i32> {
    s.update(i, s.last()).drop_last()
}

/// What to do with the chunks around a position: which existing chunks to
/// keep and which to despawn (by their position in the list of existing
/// chunks), and which positions still need a chunk.
#[derive(Debug, PartialEq, Eq)]
pub struct ChunkPlan {
    /// Existing chunks to keep.
    pub keep: Vec<usize>,
    /// Existing chunks to despawn.
    pub despawn: Vec<usize>,
    /// Positions to spawn chunks at.
    pub spawn: Vec<Vec2i32>,
}

/// The plan after the first `k` existing chunks: each existing chunk whose
/// position is still wanted is kept, and its position taken out of the
/// wanted ones (the last wanted position moves into its place); the others
/// are despawned.
pub open spec fn plan_upto(wanted: Seq<Vec2i32>, existing: Seq<Vec2i32>, k: int) -> (Seq<Vec2i32>, Seq<usize>, Seq<usize>)
    decreases k,
{
    if k <= 0 {
        (wanted, Seq::empty(), Seq::empty())
    } else {
        let (rest, keep, despawn) = plan_upto(wanted, existing, k - 1);
        match first_index(rest, existing[k - 1]) {
            Some(i) => (swap_removed(rest, i), keep.push((k - 1) as usize), despawn),
            None => (rest, keep, despawn.push((k - 1) as usize)),
        }
    }
}

/// Plans the chunks around a position: `wanted` lists the positions that
/// need a chunk (nearest first), `existing` the positions of the chunks
/// there are.
pub fn plan_spawn_around(wanted: Vec<Vec2i32>, existing: &Vec<Vec2i32>) -> (r: ChunkPlan)
    ensures
        ({
            let (rest, keep, despawn) = plan_upto(wanted@, existing@, existing@.len() as int);
            &&& r.spawn@ == rest
            &&& r.keep@ == keep
            &&& r.despawn@ == despawn
        }),
{
    let mut rest = wanted;
    let mut keep: Vec<usize> = Vec::new();
    let mut despawn: Vec<usize> = Vec::new();
    let mut k: usize = 0;
    while k < existing.len()
        invariant
            k <= existing@.len(),
            ({
                let (r0, k0, d0) = plan_upto(wanted@, existing@, k as int);
                &&& rest@ == r0
                &&& keep@ == k0
                &&& despawn@ == d0
            }),
        decreases existing@.len() - k,
    {
        let pos = existing[k];
        let mut i: usize = 0;
        while i < rest.len() && rest[i] != pos
            invariant
                i <= rest@.len(),
                forall|j: int| 0 <= j < i ==> rest@[j] != pos,
            decreases rest@.len() - i,
        {
            i = i + 1;
        }
        proof {
            lemma_first_index(rest@, pos, i as int);
        }
        if i < rest.len() {
            rest.swap_remove(i);
            keep.push(k);
        } else {
            despawn.push(k);
        }
        k = k + 1;
    }
    ChunkPlan { keep, despawn, spawn: rest }
}

/// The first occurrence found by scanning from the front.
proof fn lemma_first_index(s: Seq<Vec2i32>, p: Vec2i32, i: int)
    requires
        0 <= i <= s.len(),
        forall|j: int| 0 <= j < i ==> s[j] != p,
        i < s.len() ==> s[i] == p,
    ensures
        first_index(s, p) == if i < s.len() {
            Some(i)
        } else {
            None::<int>
        },
    decreases s.len(),
{
    if s.len() > 0 {
        if i < s.len() - 1 {
            lemma_first_index(s.drop_last(), p, i);
        } else {
            lemma_first_index(s.drop_last(), p, s.len() - 1);
        }
    }
}

/// Every existing chunk is either kept or despawned, and every wanted
/// position either gets a kept chunk or is spawned.
pub proof fn lemma_plan_accounts_for_all(wanted: Seq<Vec2i32>, existing: Seq<Vec2i32>, k: int)
    requires
        0 <= k <= existing.len(),
    ensures
        plan_upto(wanted, existing, k).1.len() + plan_upto(wanted, existing, k).2.len() == k,
        plan_upto(wanted, existing, k).0.len() + plan_upto(wanted, existing, k).1.len() == wanted.len(),
    decreases k,
{
    if k > 0 {
        lemma_plan_accounts_for_all(wanted, existing, k - 1);
        let (rest, keep, despawn) = plan_upto(wanted, existing, k - 1);
        lemma_first_index_bound(rest, existing[k - 1]);
    }
}

/// The first occurrence is a position of the sequence.
proof fn lemma_first_index_bound(s: Seq<Vec2i32>, p: Vec2i32)
    ensures
        first_index(s, p) matches Some(i) ==> 0 <= i < s.len() && s[i] == p,
    decreases s.len(),
{
    if s.len() > 0 {
        lemma_first_index_bound(s.drop_last(), p);
    }
}

} // verus!
