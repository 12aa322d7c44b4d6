//! Trees materialized into a block map for meshing: every block of the
//! trees that reach a chunk, looked up by cell instead of recomputed.
use vstd::prelude::*;

use crate::block::{Block, BlockType};
use crate::world::{
    cell_in_range, div_floor, pos_key, spec_block, spec_tree_block, spec_tree_site, spec_trees_at, spec_trees_block,
    tree_ok, Tree, TreeSite, World, TREE_CELL,
};
use std::collections::HashMap;

verus! {

broadcast use vstd::std_specs::hash::group_hash_axioms;

/// The search box of a chunk (block coordinates, bounds inclusive), widened
/// by two blocks on each side as leaves reach two blocks from the trunk.
pub open spec fn in_box(p: (i32, i32, i32), min_x: i32, max_x: i32, min_z: i32, max_z: i32) -> bool {
    min_x - 2 <= p.0 <= max_x + 2 && min_z - 2 <= p.2 <= max_z + 2
}

/// The cells a tree's trunk and leaves can occupy.
pub open spec fn in_envelope(t: Tree, p: (i32, i32, i32)) -> bool {
    &&& t.base <= p.1 <= t.base + t.height + 2
    &&& -2 <= p.0 - t.tx <= 2
    &&& -2 <= p.2 - t.tz <= 2
}

/// The block tree `t` contributes at `p` within the box, if any.
pub open spec fn tree_hit(
    t: Tree,
    p: (i32, i32, i32),
    min_x: i32,
    max_x: i32,
    min_z: i32,
    max_z: i32,
    seed: u64,
) -> Option<BlockType> {
    if in_box(p, min_x, max_x, min_z, max_z) && in_envelope(t, p) {
        spec_tree_block(t, p.0, p.1, p.2, seed)
    } else {
        None
    }
}

/// `m` with tree `t`'s blocks in the box written over it.
pub open spec fn with_tree(
    m: Map<(i32, i32, i32), BlockType>,
    t: Tree,
    min_x: i32,
    max_x: i32,
    min_z: i32,
    max_z: i32,
    seed: u64,
) -> Map<(i32, i32, i32), BlockType> {
    Map::new(
        |p: (i32, i32, i32)| m.contains_key(p) || tree_hit(t, p, min_x, max_x, min_z, max_z, seed) is Some,
        |p: (i32, i32, i32)|
            match tree_hit(t, p, min_x, max_x, min_z, max_z, seed) {
                Some(b) => b,
                None => m[p],
            },
    )
}

/// `m` with the trees' blocks in the box written over it, tree after tree
/// (a later tree's block replaces an earlier one's in the same cell).
pub open spec fn with_trees(
    m: Map<(i32, i32, i32), BlockType>,
    trees: Seq<Tree>,
    min_x: i32,
    max_x: i32,
    min_z: i32,
    max_z: i32,
    seed: u64,
) -> Map<(i32, i32, i32), BlockType>
    decreases trees.len(),
{
    if trees.len() == 0 {
        m
    } else {
        with_tree(
            with_trees(m, trees.drop_last(), min_x, max_x, min_z, max_z, seed),
            trees.last(),
            min_x,
            max_x,
            min_z,
            max_z,
            seed,
        )
    }
}

/// `t` is the highest `y` among the cells of `m` (0 when `m` is empty).
pub open spec fn is_top(m: Map<(i32, i32, i32), BlockType>, t: int) -> bool {
    &&& m.dom().is_empty() ==> t == 0
    &&& !m.dom().is_empty() ==> (forall|p: (i32, i32, i32)| #[trigger] m.contains_key(p) ==> p.1 <= t) && (exists|
        p: (i32, i32, i32),
    | #[trigger] m.contains_key(p) && p.1 == t)
}

/// The highest `y` among the cells of `m` (0 when `m` is empty).
pub open spec fn top_of(m: Map<(i32, i32, i32), BlockType>) -> int {
    choose|t: int| is_top(m, t)
}

pub proof fn lemma_top_unique(m: Map<(i32, i32, i32), BlockType>, t: int)
    requires
        is_top(m, t),
    ensures
        top_of(m) == t,
{
    let u = top_of(m);
    assert(is_top(m, u));
    if !m.dom().is_empty() {
        let pu = choose|p: (i32, i32, i32)| #[trigger] m.contains_key(p) && p.1 == u;
        let pt = choose|p: (i32, i32, i32)| #[trigger] m.contains_key(p) && p.1 == t;
        assert(pu.1 <= t);
        assert(pt.1 <= u);
    }
}

/// Tree blocks by cell, and the highest `y` among them.
pub struct TreeBlocks {
    /// Entries keyed by [`pos_key`]; each entry also keeps its cell.
    map: HashMap<i128, ([i32; 3], BlockType)>,
    top: i32,
}

impl TreeBlocks {
    pub closed spec fn wf(&self) -> bool {
        &&& keys_ok(self.map@)
        &&& is_top(self.view(), self.top as int)
    }

    /// Cell -> tree block type.
    pub closed spec fn view(&self) -> Map<(i32, i32, i32), BlockType> {
        view_of(self.map@)
    }

    /// No tree blocks.
    pub fn new() -> (r: TreeBlocks)
        ensures
            r.wf(),
            r.view() == Map::<(i32, i32, i32), BlockType>::empty(),
    {
        let r = TreeBlocks { map: HashMap::new(), top: 0 };
        assert(r.view() =~= Map::<(i32, i32, i32), BlockType>::empty());
        r
    }

    /// The tree block at (x, y, z), if any.
    pub fn get(&self, x: i32, y: i32, z: i32) -> (r: Option<BlockType>)
        requires
            self.wf(),
        ensures
            r == (if self.view().contains_key((x, y, z)) {
                Some(self.view()[(x, y, z)])
            } else {
                None
            }),
    {
        let k = key_of(x, y, z);
        match self.map.get(&k) {
            Some(e) => Some(e.1),
            None => None,
        }
    }

    /// The highest `y` of any tree block (0 when there are none).
    pub fn top(&self) -> (r: i32)
        requires
            self.wf(),
        ensures
            r == top_of(self.view()),
    {
        proof {
            lemma_top_unique(self.view(), self.top as int);
        }
        self.top
    }

    /// Write tree block `t` at (x, y, z).
    fn insert(&mut self, x: i32, y: i32, z: i32, t: BlockType)
        requires
            old(self).wf(),
        ensures
            final(self).wf(),
            final(self).view() == old(self).view().insert((x, y, z), t),
    {
        let ghost before = self.view();
        let ghost m0 = self.map@;
        let was_empty = self.map.is_empty();
        proof {
            lemma_empty_view(m0);
        }
        let k = key_of(x, y, z);
        self.map.insert(k, ([x, y, z], t));
        proof {
            lemma_view_insert(m0, x, y, z, t);
        }
        if was_empty || y > self.top {
            self.top = y;
        }
        proof {
            lemma_top_insert(before, old(self).top as int, was_empty, x, y, z, t, self.top as int);
        }
    }
}

pub open spec fn keys_ok(m: Map<i128, ([i32; 3], BlockType)>) -> bool {
    forall|k: i128| #[trigger] m.contains_key(k) ==> pos_key((m[k].0@[0], m[k].0@[1], m[k].0@[2])) == k
}

pub open spec fn view_of(m: Map<i128, ([i32; 3], BlockType)>) -> Map<(i32, i32, i32), BlockType> {
    Map::new(|p: (i32, i32, i32)| m.contains_key(pos_key(p) as i128), |p: (i32, i32, i32)| m[pos_key(p) as i128].1)
}

proof fn lemma_empty_view(m: Map<i128, ([i32; 3], BlockType)>)
    requires
        keys_ok(m),
    ensures
        (m.dom() =~= Set::<i128>::empty()) == view_of(m).dom().is_empty(),
{
    if !(m.dom() =~= Set::<i128>::empty()) {
        let k = choose|k: i128| m.contains_key(k);
        let c = m[k].0@;
        assert(view_of(m).contains_key((c[0], c[1], c[2])));
    } else {
        assert(view_of(m).dom() =~= Set::<(i32, i32, i32)>::empty());
    }
}

proof fn lemma_view_insert(m: Map<i128, ([i32; 3], BlockType)>, x: i32, y: i32, z: i32, t: BlockType)
    requires
        keys_ok(m),
    ensures
        keys_ok(m.insert(pos_key((x, y, z)) as i128, ([x, y, z], t))),
        view_of(m.insert(pos_key((x, y, z)) as i128, ([x, y, z], t))) == view_of(m).insert((x, y, z), t),
{
    let k = pos_key((x, y, z)) as i128;
    let n = m.insert(k, ([x, y, z], t));
    let arr: [i32; 3] = [x, y, z];
    assert(arr@[0] == x && arr@[1] == y && arr@[2] == z);
    assert forall|p: (i32, i32, i32)| #[trigger] view_of(n).contains_key(p) == view_of(m).insert((x, y, z), t).contains_key(p) by {
        if pos_key(p) as i128 == k {
            assert(pos_key(p) == pos_key((x, y, z)));
        }
    }
    assert forall|p: (i32, i32, i32)| view_of(n).contains_key(p) implies #[trigger] view_of(n)[p] == view_of(m).insert((x, y, z), t)[p] by {
        if pos_key(p) as i128 == k {
            assert(pos_key(p) == pos_key((x, y, z)));
        }
    }
    assert(view_of(n) =~= view_of(m).insert((x, y, z), t));
}

proof fn lemma_top_insert(
    before: Map<(i32, i32, i32), BlockType>,
    top: int,
    was_empty: bool,
    x: i32,
    y: i32,
    z: i32,
    t: BlockType,
    new_top: int,
)
    requires
        is_top(before, top),
        was_empty == before.dom().is_empty(),
        new_top == (if was_empty || y > top { y as int } else { top }),
    ensures
        is_top(before.insert((x, y, z), t), new_top),
{
    let v = before.insert((x, y, z), t);
    assert(v.contains_key((x, y, z)));
    assert(!v.dom().is_empty());
    if !was_empty && y <= top {
        let w = choose|p: (i32, i32, i32)| #[trigger] before.contains_key(p) && p.1 == top;
        assert(v.contains_key(w));
    }
    assert forall|p: (i32, i32, i32)| #[trigger] v.contains_key(p) implies p.1 <= new_top by {
        if p != (x, y, z) {
            assert(before.contains_key(p));
        }
    }
}

fn key_of(x: i32, y: i32, z: i32) -> (r: i128)
    ensures
        r == pos_key((x, y, z)),
{
    (x as i128) * 0x1_0000_0000_0000_0000i128 + ((y as i128) + 0x8000_0000i128) * 0x1_0000_0000i128 + ((z as i128)
        + 0x8000_0000i128)
}


/// The part of tree `t`'s envelope visited before row `y`, column offset
/// `dx`, depth offset `dz` (y outer, then x, then z).
pub open spec fn visited(t: Tree, p: (i32, i32, i32), y: int, dx: int, dz: int) -> bool {
    in_envelope(t, p) && (p.1 < y || (p.1 == y && (p.0 - t.tx < dx || (p.0 - t.tx == dx && p.2 - t.tz < dz))))
}

pub open spec fn with_tree_part(
    m: Map<(i32, i32, i32), BlockType>,
    t: Tree,
    min_x: i32,
    max_x: i32,
    min_z: i32,
    max_z: i32,
    seed: u64,
    y: int,
    dx: int,
    dz: int,
) -> Map<(i32, i32, i32), BlockType> {
    Map::new(
        |p: (i32, i32, i32)|
            m.contains_key(p) || (visited(t, p, y, dx, dz) && tree_hit(t, p, min_x, max_x, min_z, max_z, seed) is Some),
        |p: (i32, i32, i32)|
            if visited(t, p, y, dx, dz) && tree_hit(t, p, min_x, max_x, min_z, max_z, seed) is Some {
                tree_hit(t, p, min_x, max_x, min_z, max_z, seed)->0
            } else {
                m[p]
            },
    )
}

impl TreeBlocks {
    /// Write tree `t`'s blocks inside the box over the map.
    fn add_tree(&mut self, t: &Tree, min_x: i32, max_x: i32, min_z: i32, max_z: i32, seed: u64)
        requires
            old(self).wf(),
            tree_ok(*t),
            i32::MIN + 2 <= min_x,
            max_x <= i32::MAX - 2,
            i32::MIN + 2 <= min_z,
            max_z <= i32::MAX - 2,
        ensures
            final(self).wf(),
            final(self).view() == with_tree(old(self).view(), *t, min_x, max_x, min_z, max_z, seed),
    {
        let ghost m0 = self.view();
        let y_end: i64 = t.base as i64 + t.height as i64 + 3;
        let mut y: i64 = t.base as i64;
        assert(with_tree_part(m0, *t, min_x, max_x, min_z, max_z, seed, y as int, -2, -2) =~= m0);
        while y < y_end
            invariant
                self.wf(),
                tree_ok(*t),
                y_end == t.base + t.height + 3,
                t.base <= y <= y_end,
                i32::MIN + 2 <= min_x,
                max_x <= i32::MAX - 2,
                i32::MIN + 2 <= min_z,
                max_z <= i32::MAX - 2,
                self.view() == with_tree_part(m0, *t, min_x, max_x, min_z, max_z, seed, y as int, -2, -2),
            decreases y_end - y,
        {
            let mut dx: i64 = -2;
            while dx <= 2
                invariant
                    self.wf(),
                    tree_ok(*t),
                    y_end == t.base + t.height + 3,
                    t.base <= y < y_end,
                    -2 <= dx <= 3,
                    i32::MIN + 2 <= min_x,
                    max_x <= i32::MAX - 2,
                    i32::MIN + 2 <= min_z,
                    max_z <= i32::MAX - 2,
                    self.view() == with_tree_part(m0, *t, min_x, max_x, min_z, max_z, seed, y as int, dx as int, -2),
                decreases 3 - dx,
            {
                let mut dz: i64 = -2;
                while dz <= 2
                    invariant
                        self.wf(),
                        tree_ok(*t),
                        y_end == t.base + t.height + 3,
                        t.base <= y < y_end,
                        -2 <= dx <= 2,
                        -2 <= dz <= 3,
                        i32::MIN + 2 <= min_x,
                        max_x <= i32::MAX - 2,
                        i32::MIN + 2 <= min_z,
                        max_z <= i32::MAX - 2,
                        self.view() == with_tree_part(m0, *t, min_x, max_x, min_z, max_z, seed, y as int, dx as int, dz as int),
                    decreases 3 - dz,
                {
                    let ghost cur = self.view();
                    let x: i64 = t.tx as i64 + dx;
                    let z: i64 = t.tz as i64 + dz;
                    if !(x < min_x as i64 - 2 || x > max_x as i64 + 2 || z < min_z as i64 - 2 || z > max_z as i64 + 2) {
                        let p = (x as i32, y as i32, z as i32);
                        let b = t.block_at(x as i32, y as i32, z as i32, seed);
                        if let Some(bt) = b {
                            self.insert(x as i32, y as i32, z as i32, bt);
                        }
                        proof {
                            assert(in_box(p, min_x, max_x, min_z, max_z));
                            assert(in_envelope(*t, p));
                            assert(tree_hit(*t, p, min_x, max_x, min_z, max_z, seed) == b);
                            let next = with_tree_part(m0, *t, min_x, max_x, min_z, max_z, seed, y as int, dx as int, dz + 1);
                            assert forall|q: (i32, i32, i32)| #[trigger] visited(*t, q, y as int, dx as int, dz + 1) != visited(*t, q, y as int, dx as int, dz as int) implies q == p by {}
                            assert(self.view() =~= next);
                        }
                    } else {
                        proof {
                            let next = with_tree_part(m0, *t, min_x, max_x, min_z, max_z, seed, y as int, dx as int, dz + 1);
                            assert forall|q: (i32, i32, i32)| #[trigger] visited(*t, q, y as int, dx as int, dz + 1) && !visited(*t, q, y as int, dx as int, dz as int) implies !in_box(q, min_x, max_x, min_z, max_z) by {}
                            assert(cur =~= next);
                        }
                    }
                    dz = dz + 1;
                }
                assert(with_tree_part(m0, *t, min_x, max_x, min_z, max_z, seed, y as int, dx as int, 3) =~= with_tree_part(m0, *t, min_x, max_x, min_z, max_z, seed, y as int, dx + 1, -2));
                dx = dx + 1;
            }
            assert(with_tree_part(m0, *t, min_x, max_x, min_z, max_z, seed, y as int, 3, -2) =~= with_tree_part(m0, *t, min_x, max_x, min_z, max_z, seed, y + 1, -2, -2));
            y = y + 1;
        }
        assert(with_tree_part(m0, *t, min_x, max_x, min_z, max_z, seed, y as int, -2, -2) =~= with_tree(m0, *t, min_x, max_x, min_z, max_z, seed));
    }
}

impl World {
    /// Write every block of `trees` inside the box `min_x..=max_x`,
    /// `min_z..=max_z` widened by two blocks (leaves reach two blocks from
    /// the trunk) into `out`, tree after tree; a later tree's block
    /// replaces an earlier one's in the same cell.
    pub fn collect_tree_blocks(
        &self,
        trees: &[Tree],
        min_x: i32,
        max_x: i32,
        min_z: i32,
        max_z: i32,
        out: &mut TreeBlocks,
    )
        requires
            old(out).wf(),
            forall|i: int| 0 <= i < trees.len() ==> tree_ok(#[trigger] trees@[i]),
            i32::MIN + 2 <= min_x,
            max_x <= i32::MAX - 2,
            i32::MIN + 2 <= min_z,
            max_z <= i32::MAX - 2,
        ensures
            final(out).wf(),
            final(out).view() == with_trees(old(out).view(), trees@, min_x, max_x, min_z, max_z, self.spec_seed()),
    {
        let seed = self.seed();
        let ghost m0 = out.view();
        let mut i: usize = 0;
        while i < trees.len()
            invariant
                i <= trees.len(),
                out.wf(),
                seed == self.spec_seed(),
                forall|j: int| 0 <= j < trees.len() ==> tree_ok(#[trigger] trees@[j]),
                i32::MIN + 2 <= min_x,
                max_x <= i32::MAX - 2,
                i32::MIN + 2 <= min_z,
                max_z <= i32::MAX - 2,
                out.view() == with_trees(m0, trees@.take(i as int), min_x, max_x, min_z, max_z, seed),
            decreases trees.len() - i,
        {
            out.add_tree(&trees[i], min_x, max_x, min_z, max_z, seed);
            proof {
                assert(trees@.take(i + 1).drop_last() =~= trees@.take(i as int));
                assert(trees@.take(i + 1).last() == trees@[i as int]);
            }
            i = i + 1;
        }
        assert(trees@.take(trees.len() as int) =~= trees@);
    }
}


/// The tree sites of cells (cx, cz0 + j) for j in 0..n.
pub open spec fn site_row(seed: u64, cx: int, cz0: int, n: int) -> Seq<Option<TreeSite>> {
    Seq::new(n as nat, |j: int| spec_tree_site(seed, cx as i32, (cz0 + j) as i32))
}

/// The tree sites of the cell rows cx0..cx0 + nx (row by row, each row
/// cz0..cz0 + nz).
pub open spec fn site_rows(seed: u64, cx0: int, nx: int, cz0: int, nz: int) -> Seq<Option<TreeSite>>
    decreases nx,
{
    if nx <= 0 {
        seq![]
    } else {
        site_rows(seed, cx0, nx - 1, cz0, nz) + site_row(seed, cx0 + nx - 1, cz0, nz)
    }
}

/// The number of cells in `lo..=hi` (none when `hi < lo`).
pub open spec fn span(lo: int, hi: int) -> int {
    if hi >= lo {
        hi - lo + 1
    } else {
        0
    }
}

proof fn lemma_site_rows_empty(seed: u64, cx0: int, nx: int, cz0: int)
    ensures
        site_rows(seed, cx0, nx, cz0, 0) == Seq::<Option<TreeSite>>::empty(),
    decreases nx,
{
    if nx > 0 {
        lemma_site_rows_empty(seed, cx0, nx - 1, cz0);
        assert(site_row(seed, cx0 + nx - 1, cz0, 0) =~= Seq::<Option<TreeSite>>::empty());
    }
}

/// The tree cell range whose trees can reach the box `min..=max` (leaves
/// reach two blocks from the trunk).
pub open spec fn cell_lo(min: i32) -> int {
    (min - 2) / 8
}

pub open spec fn cell_hi(max: i32) -> int {
    (max + 2) / 8
}

impl World {
    /// The tree sites of every cell whose tree can reach the box
    /// `min_x..=max_x`, `min_z..=max_z`: cells x-row by x-row, each row in
    /// increasing z. An inverted box (`min > max`) covers the cells from
    /// the one of `min - 2` to the one of `max + 2`, none when that range
    /// is empty.
    pub fn tree_sites_in_box(&self, min_x: i32, max_x: i32, min_z: i32, max_z: i32) -> (r: Vec<Option<TreeSite>>)
        requires
            i32::MIN + 2 <= min_x,
            max_x <= i32::MAX - 2,
            i32::MIN + 2 <= min_z,
            max_z <= i32::MAX - 2,
            cell_in_range(cell_lo(min_x)),
            cell_in_range(cell_hi(max_x)),
            cell_in_range(cell_lo(min_z)),
            cell_in_range(cell_hi(max_z)),
        ensures
            r@ == site_rows(
                self.spec_seed(),
                cell_lo(min_x),
                span(cell_lo(min_x), cell_hi(max_x)),
                cell_lo(min_z),
                span(cell_lo(min_z), cell_hi(max_z)),
            ),
            forall|i: int| 0 <= i < r.len() ==> (#[trigger] r@[i] matches Some(s) ==> 4 <= s.height <= 6),
    {
        let seed = self.seed();
        let cx0 = div_floor(min_x - 2, TREE_CELL);
        let cx1 = div_floor(max_x + 2, TREE_CELL);
        let cz0 = div_floor(min_z - 2, TREE_CELL);
        let cz1 = div_floor(max_z + 2, TREE_CELL);
        let ghost nz = cz1 - cz0 + 1;
        let mut out: Vec<Option<TreeSite>> = Vec::new();
        if cx0 > cx1 || cz0 > cz1 {
            proof {
                lemma_site_rows_empty(seed, cx0 as int, span(cx0 as int, cx1 as int), cz0 as int);
            }
            return out;
        }
        let mut cx: i32 = cx0;
        while cx <= cx1
            invariant
                cx0 <= cx <= cx1 + 1,
                cx0 <= cx1,
                cz0 <= cz1,
                nz == cz1 - cz0 + 1,
                seed == self.spec_seed(),
                cell_in_range(cx0 as int),
                cell_in_range(cx1 as int),
                cell_in_range(cz0 as int),
                cell_in_range(cz1 as int),
                out@ == site_rows(seed, cx0 as int, cx - cx0, cz0 as int, nz),
                forall|i: int| 0 <= i < out.len() ==> (#[trigger] out@[i] matches Some(s) ==> 4 <= s.height <= 6),
            decreases cx1 + 1 - cx,
        {
            let ghost row_start = out@;
            let mut cz: i32 = cz0;
            while cz <= cz1
                invariant
                    cx0 <= cx <= cx1,
                    cz0 <= cz <= cz1 + 1,
                    cz0 <= cz1,
                    nz == cz1 - cz0 + 1,
                    seed == self.spec_seed(),
                    cell_in_range(cx0 as int),
                    cell_in_range(cx1 as int),
                    cell_in_range(cz0 as int),
                    cell_in_range(cz1 as int),
                    row_start == site_rows(seed, cx0 as int, cx - cx0, cz0 as int, nz),
                    out@ == row_start + site_row(seed, cx as int, cz0 as int, cz - cz0),
                    forall|i: int| 0 <= i < out.len() ==> (#[trigger] out@[i] matches Some(s) ==> 4 <= s.height <= 6),
                decreases cz1 + 1 - cz,
            {
                let s = TreeSite::of_cell(seed, cx, cz);
                out.push(s);
                assert(site_row(seed, cx as int, cz0 as int, cz + 1 - cz0) =~= site_row(seed, cx as int, cz0 as int, cz - cz0).push(s));
                cz = cz + 1;
            }
            assert(site_rows(seed, cx0 as int, cx + 1 - cx0, cz0 as int, nz) == site_rows(seed, cx0 as int, cx - cx0, cz0 as int, nz) + site_row(seed, cx as int, cz0 as int, nz));
            cx = cx + 1;
        }
        out
    }
}

/// The block of the last of `trees` that has one at `p`.
pub open spec fn spec_last_trees_block(trees: Seq<Tree>, p: (i32, i32, i32), seed: u64) -> Option<BlockType>
    decreases trees.len(),
{
    if trees.len() == 0 {
        None
    } else {
        match spec_tree_block(trees.last(), p.0, p.1, p.2, seed) {
            Some(b) => Some(b),
            None => spec_last_trees_block(trees.drop_last(), p, seed),
        }
    }
}

/// Every tree with a block at `p` puts the same type there.
pub open spec fn trees_agree_at(trees: Seq<Tree>, p: (i32, i32, i32), seed: u64) -> bool {
    forall|i: int, j: int|
        0 <= i < trees.len() && 0 <= j < trees.len() && (#[trigger] spec_tree_block(trees[i], p.0, p.1, p.2, seed))
            is Some && (#[trigger] spec_tree_block(trees[j], p.0, p.1, p.2, seed)) is Some ==> spec_tree_block(
            trees[i],
            p.0,
            p.1,
            p.2,
            seed,
        ) == spec_tree_block(trees[j], p.0, p.1, p.2, seed)
}

proof fn lemma_tree_block_in_envelope(t: Tree, p: (i32, i32, i32), seed: u64)
    requires
        tree_ok(t),
    ensures
        spec_tree_block(t, p.0, p.1, p.2, seed) is Some ==> in_envelope(t, p),
        spec_tree_block(t, p.0, p.1, p.2, seed) matches Some(b) ==> (b == BlockType::Log || b == BlockType::Leaves),
{
}

proof fn lemma_first_block(trees: Seq<Tree>, p: (i32, i32, i32), seed: u64)
    ensures
        spec_trees_block(trees, p.0, p.1, p.2, seed) is None <==> forall|i: int|
            0 <= i < trees.len() ==> (#[trigger] spec_tree_block(trees[i], p.0, p.1, p.2, seed)) is None,
        spec_trees_block(trees, p.0, p.1, p.2, seed) matches Some(b) ==> exists|i: int|
            0 <= i < trees.len() && #[trigger] spec_tree_block(trees[i], p.0, p.1, p.2, seed) == Some(b),
    decreases trees.len(),
{
    if trees.len() > 0 {
        let r = trees.drop_first();
        lemma_first_block(r, p, seed);
        assert forall|i: int| 0 <= i < r.len() implies r[i] == trees[i + 1] by {}
        if spec_trees_block(trees, p.0, p.1, p.2, seed) is None {
            assert forall|i: int| 0 <= i < trees.len() implies (#[trigger] spec_tree_block(trees[i], p.0, p.1, p.2, seed)) is None by {
                if i > 0 {
                    assert(trees[i] == r[i - 1]);
                }
            }
        }
        if let Some(b) = spec_trees_block(trees, p.0, p.1, p.2, seed) {
            if spec_tree_block(trees[0], p.0, p.1, p.2, seed) is None {
                let k = choose|k: int| 0 <= k < r.len() && #[trigger] spec_tree_block(r[k], p.0, p.1, p.2, seed) == Some(b);
                assert(trees[k + 1] == r[k]);
            }
        }
    }
}

proof fn lemma_last_block(trees: Seq<Tree>, p: (i32, i32, i32), seed: u64)
    ensures
        spec_last_trees_block(trees, p, seed) is None <==> forall|i: int|
            0 <= i < trees.len() ==> (#[trigger] spec_tree_block(trees[i], p.0, p.1, p.2, seed)) is None,
        spec_last_trees_block(trees, p, seed) matches Some(b) ==> exists|i: int|
            0 <= i < trees.len() && #[trigger] spec_tree_block(trees[i], p.0, p.1, p.2, seed) == Some(b),
    decreases trees.len(),
{
    if trees.len() > 0 {
        let r = trees.drop_last();
        lemma_last_block(r, p, seed);
        assert forall|i: int| 0 <= i < r.len() implies r[i] == trees[i] by {}
        if spec_last_trees_block(trees, p, seed) is None {
            assert forall|i: int| 0 <= i < trees.len() implies (#[trigger] spec_tree_block(trees[i], p.0, p.1, p.2, seed)) is None by {
                if i < r.len() {
                    assert(trees[i] == r[i]);
                }
            }
        }
        if let Some(b) = spec_last_trees_block(trees, p, seed) {
            if spec_tree_block(trees.last(), p.0, p.1, p.2, seed) is None {
                let k = choose|k: int| 0 <= k < r.len() && #[trigger] spec_tree_block(r[k], p.0, p.1, p.2, seed) == Some(b);
                assert(trees[k] == r[k]);
            } else {
                assert(spec_tree_block(trees[trees.len() - 1], p.0, p.1, p.2, seed) == Some(b));
            }
        }
    }
}

proof fn lemma_with_trees_at(
    trees: Seq<Tree>,
    p: (i32, i32, i32),
    min_x: i32,
    max_x: i32,
    min_z: i32,
    max_z: i32,
    seed: u64,
)
    requires
        in_box(p, min_x, max_x, min_z, max_z),
        forall|i: int| 0 <= i < trees.len() ==> tree_ok(#[trigger] trees[i]),
    ensures
        with_trees(Map::empty(), trees, min_x, max_x, min_z, max_z, seed).contains_key(p)
            == spec_last_trees_block(trees, p, seed) is Some,
        spec_last_trees_block(trees, p, seed) matches Some(b) ==> with_trees(
            Map::empty(),
            trees,
            min_x,
            max_x,
            min_z,
            max_z,
            seed,
        )[p] == b,
    decreases trees.len(),
{
    if trees.len() > 0 {
        let r = trees.drop_last();
        assert forall|i: int| 0 <= i < r.len() implies tree_ok(#[trigger] r[i]) by {
            assert(r[i] == trees[i]);
        }
        lemma_with_trees_at(r, p, min_x, max_x, min_z, max_z, seed);
        lemma_tree_block_in_envelope(trees.last(), p, seed);
    }
}

/// Collected tree blocks agree with the block query: within the box, a
/// cell is in the map built from `trees` exactly when one of the trees has
/// a block there; where every tree with a block at the cell agrees on its
/// type, an unedited cell holds `t` in the map exactly when the block
/// query gives `Solid(t)` with `t` a log or leaves.
pub proof fn lemma_collected_trees_match_blocks(
    edits: Map<(i32, i32, i32), BlockType>,
    trees: Seq<Tree>,
    top: i32,
    cave: bool,
    seed: u64,
    p: (i32, i32, i32),
    t: BlockType,
    min_x: i32,
    max_x: i32,
    min_z: i32,
    max_z: i32,
)
    requires
        in_box(p, min_x, max_x, min_z, max_z),
        forall|i: int| 0 <= i < trees.len() ==> tree_ok(#[trigger] trees[i]),
    ensures
        with_trees(Map::empty(), trees, min_x, max_x, min_z, max_z, seed).contains_key(p) <==> spec_trees_block(
            trees,
            p.0,
            p.1,
            p.2,
            seed,
        ) is Some,
        (!edits.contains_key(p) && trees_agree_at(trees, p, seed)) ==> ((with_trees(
            Map::empty(),
            trees,
            min_x,
            max_x,
            min_z,
            max_z,
            seed,
        ).contains_key(p) && with_trees(Map::empty(), trees, min_x, max_x, min_z, max_z, seed)[p] == t) <==> (
        spec_block(edits, trees, top, cave, seed, p.0, p.1, p.2) == Block::Solid(t) && (t == BlockType::Log || t
            == BlockType::Leaves))),
{
    lemma_with_trees_at(trees, p, min_x, max_x, min_z, max_z, seed);
    lemma_first_block(trees, p, seed);
    lemma_last_block(trees, p, seed);
    if let Some(b) = spec_trees_block(trees, p.0, p.1, p.2, seed) {
        let i = choose|i: int| 0 <= i < trees.len() && #[trigger] spec_tree_block(trees[i], p.0, p.1, p.2, seed) == Some(b);
        lemma_tree_block_in_envelope(trees[i], p, seed);
        if let Some(c) = spec_last_trees_block(trees, p, seed) {
            let j = choose|j: int| 0 <= j < trees.len() && #[trigger] spec_tree_block(trees[j], p.0, p.1, p.2, seed) == Some(c);
        }
    }
}

/// Two trunks are at least three blocks apart along x or along z, so
/// neither reaches the other's trunk column with its leaves.
pub open spec fn trunks_apart(ax: i32, az: i32, bx: i32, bz: i32) -> bool {
    ax - bx >= 3 || bx - ax >= 3 || az - bz >= 3 || bz - az >= 3
}

/// Every two sites of the list (at different positions) have their trunks
/// apart.
pub open spec fn sites_apart(sites: Seq<Option<TreeSite>>) -> bool {
    forall|i: int, j: int|
        0 <= i < sites.len() && 0 <= j < sites.len() && i != j && (#[trigger] sites[i]) is Some && (
        #[trigger] sites[j]) is Some ==> trunks_apart(sites[i]->0.tx, sites[i]->0.tz, sites[j]->0.tx, sites[j]->0.tz)
}

/// Every two trees of the list have their trunks apart.
pub open spec fn trees_apart(trees: Seq<Tree>) -> bool {
    forall|i: int, j: int|
        0 <= i < trees.len() && 0 <= j < trees.len() && i != j ==> trunks_apart(
            (#[trigger] trees[i]).tx,
            trees[i].tz,
            (#[trigger] trees[j]).tx,
            trees[j].tz,
        )
}

/// Sites of two different tree cells (in range) have their trunks apart:
/// each trunk sits 1..=5 blocks into its 8-block cell.
pub proof fn lemma_cells_apart(seed: u64, ax: i32, az: i32, bx: i32, bz: i32)
    requires
        (ax, az) != (bx, bz),
        cell_in_range(ax as int),
        cell_in_range(az as int),
        cell_in_range(bx as int),
        cell_in_range(bz as int),
    ensures
        (spec_tree_site(seed, ax, az) is Some && spec_tree_site(seed, bx, bz) is Some) ==> trunks_apart(
            spec_tree_site(seed, ax, az)->0.tx,
            spec_tree_site(seed, ax, az)->0.tz,
            spec_tree_site(seed, bx, bz)->0.tx,
            spec_tree_site(seed, bx, bz)->0.tz,
        ),
{
}

proof fn lemma_trees_at_from_sites(sites: Seq<Option<TreeSite>>, bases: Seq<i32>, k: int)
    requires
        0 <= k < spec_trees_at(sites, bases).len(),
    ensures
        exists|i: int|
            0 <= i < sites.len() && (#[trigger] sites[i]) is Some && sites[i]->0.tx == spec_trees_at(sites, bases)[k].tx
                && sites[i]->0.tz == spec_trees_at(sites, bases)[k].tz,
    decreases sites.len(),
{
    let prev = spec_trees_at(sites.drop_last(), bases.drop_last());
    if k < prev.len() {
        lemma_trees_at_from_sites(sites.drop_last(), bases.drop_last(), k);
        let i = choose|i: int|
            0 <= i < sites.drop_last().len() && (#[trigger] sites.drop_last()[i]) is Some && sites.drop_last()[i]->0.tx
                == prev[k].tx && sites.drop_last()[i]->0.tz == prev[k].tz;
        assert(sites[i] == sites.drop_last()[i]);
    } else {
        assert(sites[sites.len() - 1] == sites.last());
    }
}

proof fn lemma_trees_at_prefix(sites: Seq<Option<TreeSite>>, bases: Seq<i32>)
    requires
        sites.len() > 0,
        bases.len() > 0,
    ensures
        ({
            let prev = spec_trees_at(sites.drop_last(), bases.drop_last());
            let all = spec_trees_at(sites, bases);
            &&& prev.len() <= all.len() <= prev.len() + 1
            &&& forall|k: int| 0 <= k < prev.len() ==> all[k] == prev[k]
            &&& all.len() == prev.len() + 1 ==> (sites.last() is Some && all[prev.len() as int].tx == sites.last()->0.tx
                && all[prev.len() as int].tz == sites.last()->0.tz)
        }),
{
}

/// Trees grown from sites whose trunks are pairwise apart keep their
/// trunks apart.
pub proof fn lemma_site_trees_apart(sites: Seq<Option<TreeSite>>, bases: Seq<i32>)
    requires
        sites_apart(sites),
    ensures
        trees_apart(spec_trees_at(sites, bases)),
    decreases sites.len(),
{
    if sites.len() > 0 && bases.len() > 0 {
        let r = sites.drop_last();
        assert(sites_apart(r)) by {
            assert forall|i: int, j: int|
                0 <= i < r.len() && 0 <= j < r.len() && i != j && (#[trigger] r[i]) is Some && (#[trigger] r[j]) is Some implies trunks_apart(
                r[i]->0.tx,
                r[i]->0.tz,
                r[j]->0.tx,
                r[j]->0.tz,
            ) by {
                assert(r[i] == sites[i] && r[j] == sites[j]);
            }
        }
        lemma_site_trees_apart(r, bases.drop_last());
        lemma_trees_at_prefix(sites, bases);
        let prev = spec_trees_at(r, bases.drop_last());
        let all = spec_trees_at(sites, bases);
        let n = prev.len() as int;
        assert forall|i: int, j: int| 0 <= i < all.len() && 0 <= j < all.len() && i != j implies trunks_apart(
            (#[trigger] all[i]).tx,
            all[i].tz,
            (#[trigger] all[j]).tx,
            all[j].tz,
        ) by {
            if i < n && j < n {
                assert(all[i] == prev[i] && all[j] == prev[j]);
            } else {
                let last = sites.len() - 1;
                assert(sites[last] == sites.last());
                let other = if i < n { i } else { j };
                assert(all[other] == prev[other]);
                lemma_trees_at_from_sites(r, bases.drop_last(), other);
                let q = choose|q: int|
                    0 <= q < r.len() && (#[trigger] r[q]) is Some && r[q]->0.tx == prev[other].tx && r[q]->0.tz
                        == prev[other].tz;
                assert(sites[q] == r[q]);
                assert(sites[q] is Some && sites[last] is Some);
            }
        }
    }
}

/// In a list of trees whose trunks are pairwise apart, every tree with a
/// block at a cell puts the same type there: only leaves can meet, since a
/// log stands on its own trunk column, out of every other tree's reach.
pub proof fn lemma_apart_trees_agree(trees: Seq<Tree>, p: (i32, i32, i32), seed: u64)
    requires
        trees_apart(trees),
    ensures
        trees_agree_at(trees, p, seed),
{
    assert forall|i: int, j: int|
        0 <= i < trees.len() && 0 <= j < trees.len() && (#[trigger] spec_tree_block(trees[i], p.0, p.1, p.2, seed))
            is Some && (#[trigger] spec_tree_block(trees[j], p.0, p.1, p.2, seed)) is Some implies spec_tree_block(
        trees[i],
        p.0,
        p.1,
        p.2,
        seed,
    ) == spec_tree_block(trees[j], p.0, p.1, p.2, seed) by {
        if i != j {
            assert(trunks_apart(trees[i].tx, trees[i].tz, trees[j].tx, trees[j].tz));
        }
    }
}

/// The nine tree sites around a column (see [`World::nearby_tree_sites`])
/// have their trunks pairwise apart, so the trees grown from them agree on
/// every cell.
pub proof fn lemma_nearby_sites_apart(seed: u64, x: i32, z: i32, sites: Seq<Option<TreeSite>>)
    requires
        cell_in_range(x as int / 8 - 1),
        cell_in_range(x as int / 8 + 1),
        cell_in_range(z as int / 8 - 1),
        cell_in_range(z as int / 8 + 1),
        sites.len() == 9,
        forall|i: int|
            0 <= i < 9 ==> #[trigger] sites[i] == spec_tree_site(
                seed,
                (x as int / 8 + i / 3 - 1) as i32,
                (z as int / 8 + i % 3 - 1) as i32,
            ),
    ensures
        sites_apart(sites),
{
    assert forall|i: int, j: int|
        0 <= i < sites.len() && 0 <= j < sites.len() && i != j && (#[trigger] sites[i]) is Some && (
        #[trigger] sites[j]) is Some implies trunks_apart(sites[i]->0.tx, sites[i]->0.tz, sites[j]->0.tx, sites[j]->0.tz) by {
        let (ax, az) = ((x as int / 8 + i / 3 - 1) as i32, (z as int / 8 + i % 3 - 1) as i32);
        let (bx, bz) = ((x as int / 8 + j / 3 - 1) as i32, (z as int / 8 + j % 3 - 1) as i32);
        assert((ax, az) != (bx, bz));
        lemma_cells_apart(seed, ax, az, bx, bz);
    }
}

/// The tree site of cell (c, d).
pub open spec fn cell_site(seed: u64, c: int, d: int) -> Option<TreeSite> {
    spec_tree_site(seed, c as i32, d as i32)
}

proof fn lemma_site_rows_cells(seed: u64, cx0: int, nx: int, cz0: int, nz: int, k: int)
    requires
        nz >= 0,
        0 <= k < site_rows(seed, cx0, nx, cz0, nz).len(),
    ensures
        exists|c: int, d: int|
            cx0 <= c < cx0 + nx && cz0 <= d < cz0 + nz && site_rows(seed, cx0, nx, cz0, nz)[k] == #[trigger] cell_site(
                seed,
                c,
                d,
            ),
    decreases nx,
{
    if nx > 0 {
        let a = site_rows(seed, cx0, nx - 1, cz0, nz);
        let b = site_row(seed, cx0 + nx - 1, cz0, nz);
        assert(site_rows(seed, cx0, nx, cz0, nz) == a + b);
        if k < a.len() {
            lemma_site_rows_cells(seed, cx0, nx - 1, cz0, nz, k);
            let (c, d) = choose|c: int, d: int|
                cx0 <= c < cx0 + nx - 1 && cz0 <= d < cz0 + nz && site_rows(seed, cx0, nx - 1, cz0, nz)[k]
                    == #[trigger] cell_site(seed, c, d);
            assert(site_rows(seed, cx0, nx, cz0, nz)[k] == cell_site(seed, c, d));
        } else {
            let j = k - a.len();
            assert(site_rows(seed, cx0, nx, cz0, nz)[k] == b[j]);
            assert(site_rows(seed, cx0, nx, cz0, nz)[k] == cell_site(seed, cx0 + nx - 1, cz0 + j));
        }
    }
}

/// The tree sites of a box of cells (see [`World::tree_sites_in_box`])
/// have their trunks pairwise apart, so the trees grown from them agree on
/// every cell.
pub proof fn lemma_box_sites_apart(seed: u64, cx0: int, nx: int, cz0: int, nz: int)
    requires
        nz >= 0,
        nx > 0 ==> cell_in_range(cx0) && cell_in_range(cx0 + nx - 1),
        nz > 0 ==> cell_in_range(cz0) && cell_in_range(cz0 + nz - 1),
    ensures
        sites_apart(site_rows(seed, cx0, nx, cz0, nz)),
    decreases nx,
{
    if nx > 0 {
        if nx > 1 {
            lemma_box_sites_apart(seed, cx0, nx - 1, cz0, nz);
        }
        let a = site_rows(seed, cx0, nx - 1, cz0, nz);
        let b = site_row(seed, cx0 + nx - 1, cz0, nz);
        let all = site_rows(seed, cx0, nx, cz0, nz);
        assert(all == a + b);
        let cl = cx0 + nx - 1;
        assert forall|i: int, j: int|
            0 <= i < all.len() && 0 <= j < all.len() && i != j && (#[trigger] all[i]) is Some && (#[trigger] all[j])
                is Some implies trunks_apart(all[i]->0.tx, all[i]->0.tz, all[j]->0.tx, all[j]->0.tz) by {
            if i < a.len() && j < a.len() {
                assert(all[i] == a[i] && all[j] == a[j]);
            } else if i >= a.len() && j >= a.len() {
                assert(all[i] == spec_tree_site(seed, cl as i32, (cz0 + i - a.len()) as i32));
                assert(all[j] == spec_tree_site(seed, cl as i32, (cz0 + j - a.len()) as i32));
                lemma_cells_apart(seed, cl as i32, (cz0 + i - a.len()) as i32, cl as i32, (cz0 + j - a.len()) as i32);
            } else {
                let (u, v) = if i < a.len() { (i, j) } else { (j, i) };
                lemma_site_rows_cells(seed, cx0, nx - 1, cz0, nz, u);
                let (c, d) = choose|c: int, d: int|
                    cx0 <= c < cx0 + nx - 1 && cz0 <= d < cz0 + nz && site_rows(seed, cx0, nx - 1, cz0, nz)[u]
                        == #[trigger] cell_site(seed, c, d);
                assert(all[u] == a[u]);
                assert(all[v] == spec_tree_site(seed, cl as i32, (cz0 + v - a.len()) as i32));
                lemma_cells_apart(seed, c as i32, d as i32, cl as i32, (cz0 + v - a.len()) as i32);
            }
        }
    }
}

/// For the trees grown from a box's tree sites (any terrain tops at the
/// trunks), the collected tree map and the block query over those trees
/// agree on every unedited cell of the box: the map holds `t` there exactly
/// when the block query gives a log or leaves block `t`.
pub proof fn lemma_box_trees_match_blocks(
    edits: Map<(i32, i32, i32), BlockType>,
    bases: Seq<i32>,
    top: i32,
    cave: bool,
    seed: u64,
    p: (i32, i32, i32),
    t: BlockType,
    min_x: i32,
    max_x: i32,
    min_z: i32,
    max_z: i32,
)
    requires
        cell_in_range(cell_lo(min_x)),
        cell_in_range(cell_hi(max_x)),
        cell_in_range(cell_lo(min_z)),
        cell_in_range(cell_hi(max_z)),
        in_box(p, min_x, max_x, min_z, max_z),
        !edits.contains_key(p),
        ({
            let trees = spec_trees_at(
                site_rows(
                    seed,
                    cell_lo(min_x),
                    span(cell_lo(min_x), cell_hi(max_x)),
                    cell_lo(min_z),
                    span(cell_lo(min_z), cell_hi(max_z)),
                ),
                bases,
            );
            forall|i: int| 0 <= i < trees.len() ==> tree_ok(#[trigger] trees[i])
        }),
    ensures
        ({
            let trees = spec_trees_at(
                site_rows(
                    seed,
                    cell_lo(min_x),
                    span(cell_lo(min_x), cell_hi(max_x)),
                    cell_lo(min_z),
                    span(cell_lo(min_z), cell_hi(max_z)),
                ),
                bases,
            );
            let m = with_trees(Map::empty(), trees, min_x, max_x, min_z, max_z, seed);
            (m.contains_key(p) && m[p] == t) <==> (spec_block(edits, trees, top, cave, seed, p.0, p.1, p.2)
                == Block::Solid(t) && (t == BlockType::Log || t == BlockType::Leaves))
        }),
{
    let sites = site_rows(
        seed,
        cell_lo(min_x),
        span(cell_lo(min_x), cell_hi(max_x)),
        cell_lo(min_z),
        span(cell_lo(min_z), cell_hi(max_z)),
    );
    lemma_box_sites_apart(
        seed,
        cell_lo(min_x),
        span(cell_lo(min_x), cell_hi(max_x)),
        cell_lo(min_z),
        span(cell_lo(min_z), cell_hi(max_z)),
    );
    lemma_site_trees_apart(sites, bases);
    let trees = spec_trees_at(sites, bases);
    lemma_apart_trees_agree(trees, p, seed);
    lemma_collected_trees_match_blocks(edits, trees, top, cave, seed, p, t, min_x, max_x, min_z, max_z);
}

} // verus!
