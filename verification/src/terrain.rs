//! Chunk geometry constants, the splitmix hash behind all procedural
//! placement, chunk neighbourhoods and face tangent axes.
use vstd::prelude::*;
use vstd::wrapping::u64_specs;

verus! {

/// Blocks per chunk side.
pub const CHUNK_SIZE: i32 = 16;
/// Highest block y ever meshed.
pub const MAX_Y: i32 = 48;

/// Splitmix64 finalizer.
pub open spec fn spec_hash_u64(x: u64) -> u64 {
    let z1 = u64_specs::wrapping_add(x, 0x9E3779B97F4A7C15u64);
    let z2 = u64_specs::wrapping_mul(z1 ^ (z1 >> 30u64), 0xBF58476D1CE4E5B9u64);
    let z3 = u64_specs::wrapping_mul(z2 ^ (z2 >> 27u64), 0x94D049BB133111EBu64);
    z3 ^ (z3 >> 31u64)
}

/// Splitmix64 finalizer: fast, well-distributed integer hash.
pub fn hash_u64(x: u64) -> (r: u64)
    ensures
        r == spec_hash_u64(x),
{
    let z1 = x.wrapping_add(0x9E3779B97F4A7C15u64);
    let z2 = (z1 ^ (z1 >> 30u64)).wrapping_mul(0xBF58476D1CE4E5B9u64);
    let z3 = (z2 ^ (z2 >> 27u64)).wrapping_mul(0x94D049BB133111EBu64);
    z3 ^ (z3 >> 31u64)
}

/// The two axes perpendicular to a face normal (exactly one component of
/// `neighbor` is nonzero): X faces get (Y, Z), Y faces (X, Z), Z faces
/// (X, Y).
pub open spec fn spec_tangent_axes(n: [i32; 3]) -> (usize, usize) {
    if n@[0] == 0 && n@[1] == 0 {
        (0, 1)
    } else if n@[0] == 0 && n@[2] == 0 {
        (0, 2)
    } else {
        (1, 2)
    }
}

/// The two axes perpendicular to a face normal (its tangent plane).
pub fn tangent_axes(neighbor: [i32; 3]) -> (r: (usize, usize))
    ensures
        r == spec_tangent_axes(neighbor),
        r.0 < r.1 < 3,
{
    if neighbor[0] == 0 && neighbor[1] == 0 {
        (0, 1)
    } else if neighbor[0] == 0 && neighbor[2] == 0 {
        (0, 2)
    } else {
        (1, 2)
    }
}

/// A unit axis normal's tangent axes are exactly the two axes other than
/// its own.
pub proof fn lemma_tangent_axes_of_unit_normal(axis: int, sign: i32, n: [i32; 3])
    requires
        0 <= axis < 3,
        sign == 1 || sign == -1,
        n@[axis] == sign,
        forall|k: int| 0 <= k < 3 && k != axis ==> n@[k] == 0,
    ensures
        spec_tangent_axes(n).0 != axis,
        spec_tangent_axes(n).1 != axis,
{
}

/// All chunk coordinates within `radius` of `center` (a square), row by
/// row in x, then z.
pub open spec fn spec_chunks_around(center: (i32, i32), radius: i32) -> Seq<(i32, i32)> {
    let side = if radius < 0 {
        0
    } else {
        2 * radius + 1
    };
    Seq::new(
        (side * side) as nat,
        |k: int| ((center.0 - radius + k / side) as i32, (center.1 - radius + k % side) as i32),
    )
}

/// All chunk coords within `radius` of the given chunk (square footprint).
pub fn chunks_around(center: (i32, i32), radius: i32) -> (r: Vec<(i32, i32)>)
    requires
        radius <= 1_000_000_000,
        radius >= 0 ==> i32::MIN + radius <= center.0 <= i32::MAX - radius,
        radius >= 0 ==> i32::MIN + radius <= center.1 <= i32::MAX - radius,
    ensures
        r@ == spec_chunks_around(center, radius),
{
    let mut coords: Vec<(i32, i32)> = Vec::new();
    if radius < 0 {
        assert(coords@ =~= spec_chunks_around(center, radius));
        return coords;
    }
    let side: i32 = 2 * radius + 1;
    let mut dx: i32 = -radius;
    while dx <= radius
        invariant
            0 <= radius <= 1_000_000_000,
            side == 2 * radius + 1,
            -radius <= dx <= radius + 1,
            i32::MIN + radius <= center.0 <= i32::MAX - radius,
            i32::MIN + radius <= center.1 <= i32::MAX - radius,
            coords.len() == (dx + radius) * side,
            forall|k: int| 0 <= k < coords.len() ==> #[trigger] coords[k] == spec_chunks_around(center, radius)[k],
        decreases radius + 1 - dx,
    {
        let mut dz: i32 = -radius;
        while dz <= radius
            invariant
                0 <= radius <= 1_000_000_000,
                side == 2 * radius + 1,
                -radius <= dx <= radius,
                -radius <= dz <= radius + 1,
                i32::MIN + radius <= center.0 <= i32::MAX - radius,
                i32::MIN + radius <= center.1 <= i32::MAX - radius,
                coords.len() == (dx + radius) * side + (dz + radius),
                forall|k: int| 0 <= k < coords.len() ==> #[trigger] coords[k] == spec_chunks_around(center, radius)[k],
            decreases radius + 1 - dz,
        {
            let ghost k = coords.len() as int;
            proof {
                let a: int = dx + radius;
                let b: int = dz + radius;
                let sd: int = side as int;
                assert(k == a * sd + b);
                assert(0 <= b < sd);
                assert(k / sd == a && k % sd == b) by (nonlinear_arith)
                    requires
                        k == a * sd + b,
                        0 <= b < sd,
                        0 <= a,
                ;
                assert(k < sd * sd) by (nonlinear_arith)
                    requires
                        k == a * sd + b,
                        0 <= b < sd,
                        0 <= a < sd,
                ;
            }
            coords.push((center.0 + dx, center.1 + dz));
            dz = dz + 1;
        }
        assert((dx + 1 + radius) * side == (dx + radius) * side + side) by (nonlinear_arith);
        dx = dx + 1;
    }
    assert(coords@ =~= spec_chunks_around(center, radius)) by {
        assert((2 * radius + 1) * side == side * side) by (nonlinear_arith)
            requires side == 2 * radius + 1;
    }
    coords
}


/// The renderer key of a chunk's water mesh. Water meshes live in their own
/// storage, so the key is the chunk's own key: an upload can never replace
/// another chunk's terrain mesh.
pub fn water_key(c: (i32, i32)) -> (r: (i32, i32))
    ensures
        r == c,
{
    c
}


/// The lattice hash behind the heightmap's value noise at lattice point
/// (x, z); its top 24 bits give the point's value in [0, 1).
pub open spec fn spec_lattice_hash(x: i32, z: i32, seed: u64) -> u64 {
    spec_hash_u64(((x as u64) << 32u64) ^ ((z as u64) & 0xFFFF_FFFFu64) ^ u64_specs::wrapping_mul(seed, 0x1234_5678u64))
}

pub fn lattice_hash(x: i32, z: i32, seed: u64) -> (r: u64)
    ensures
        r == spec_lattice_hash(x, z, seed),
{
    hash_u64(((x as u64) << 32u64) ^ ((z as u64) & 0xFFFF_FFFFu64) ^ seed.wrapping_mul(0x1234_5678u64))
}

/// The per-block hash behind a block's brightness jitter; its top 24 bits
/// give the jitter's value in [0, 1).
pub open spec fn spec_jitter_hash(x: i32, y: i32, z: i32, seed: u64) -> u64 {
    spec_hash_u64(
        u64_specs::wrapping_mul(x as u64, 0x9E37_79B9_7F4A_7C15u64) ^ u64_specs::wrapping_mul(
            y as u64,
            0xC2B2_AE3D_27D4_EB4Fu64,
        ) ^ u64_specs::wrapping_mul(z as u64, 0x1656_67C1_9A37_D1F9u64) ^ seed,
    )
}

pub fn jitter_hash(x: i32, y: i32, z: i32, seed: u64) -> (r: u64)
    ensures
        r == spec_jitter_hash(x, y, z, seed),
{
    hash_u64(
        (x as u64).wrapping_mul(0x9E37_79B9_7F4A_7C15u64) ^ (y as u64).wrapping_mul(0xC2B2_AE3D_27D4_EB4Fu64)
            ^ (z as u64).wrapping_mul(0x1656_67C1_9A37_D1F9u64) ^ seed,
    )
}

/// How a face's texture lies on it, from its normal: (corner axis read as
/// u, corner axis read as v, whether v runs against that axis). Top and
/// bottom faces read x and z; X faces read z and y, Z faces x and y, both
/// with v flipped so upright texture content stays upright.
pub open spec fn spec_uv_axes(n: [i32; 3]) -> (usize, usize, bool) {
    let t = spec_tangent_axes(n);
    if t == (0usize, 2usize) {
        (0, 2, false)
    } else if t == (1usize, 2usize) {
        (2, 1, true)
    } else {
        (0, 1, true)
    }
}

pub fn uv_axes(neighbor: [i32; 3]) -> (r: (usize, usize, bool))
    ensures
        r == spec_uv_axes(neighbor),
{
    let (ua, va) = tangent_axes(neighbor);
    if ua == 0 && va == 2 {
        (0, 2, false)
    } else if ua == 1 && va == 2 {
        (2, 1, true)
    } else {
        (0, 1, true)
    }
}


/// Is chunk `c` within `r` chunks of `center` on both axes (the square
/// footprint of a view radius)?
pub open spec fn in_square(c: (i32, i32), center: (i32, i32), r: int) -> bool {
    -r <= c.0 - center.0 <= r && -r <= c.1 - center.1 <= r
}

/// Squared distance between chunk coordinates.
pub open spec fn dist2(c: (i32, i32), center: (i32, i32)) -> int {
    (c.0 - center.0) * (c.0 - center.0) + (c.1 - center.1) * (c.1 - center.1)
}

/// The chunks of `s` outside the square of radius `r`, in order.
pub open spec fn outside_square(s: Seq<(i32, i32)>, center: (i32, i32), r: int) -> Seq<(i32, i32)>
    decreases s.len(),
{
    if s.len() == 0 {
        seq![]
    } else {
        let prev = outside_square(s.drop_last(), center, r);
        if in_square(s.last(), center, r) {
            prev
        } else {
            prev.push(s.last())
        }
    }
}

/// The chunks of `s` inside the square of radius `r`, in order.
pub open spec fn inside_square(s: Seq<(i32, i32)>, center: (i32, i32), r: int) -> Seq<(i32, i32)>
    decreases s.len(),
{
    if s.len() == 0 {
        seq![]
    } else {
        let prev = inside_square(s.drop_last(), center, r);
        if in_square(s.last(), center, r) {
            prev.push(s.last())
        } else {
            prev
        }
    }
}

fn in_square_exec(c: (i32, i32), center: (i32, i32), r: i64) -> (b: bool)
    requires
        -0x1_0000_0000 <= r <= 0x1_0000_0000,
    ensures
        b == in_square(c, center, r as int),
{
    let dx = c.0 as i64 - center.0 as i64;
    let dz = c.1 as i64 - center.1 as i64;
    -r <= dx && dx <= r && -r <= dz && dz <= r
}

fn filter_square(s: &[(i32, i32)], center: (i32, i32), r: i64, keep_inside: bool) -> (out: Vec<(i32, i32)>)
    requires
        -0x1_0000_0000 <= r <= 0x1_0000_0000,
    ensures
        out@ == (if keep_inside { inside_square(s@, center, r as int) } else { outside_square(s@, center, r as int) }),
{
    let mut out: Vec<(i32, i32)> = Vec::new();
    let mut i: usize = 0;
    while i < s.len()
        invariant
            i <= s.len(),
            -0x1_0000_0000 <= r <= 0x1_0000_0000,
            out@ == (if keep_inside {
                inside_square(s@.take(i as int), center, r as int)
            } else {
                outside_square(s@.take(i as int), center, r as int)
            }),
        decreases s.len() - i,
    {
        assert(s@.take(i + 1).drop_last() =~= s@.take(i as int));
        assert(s@.take(i + 1).last() == s@[i as int]);
        let c = s[i];
        if in_square_exec(c, center, r) == keep_inside {
            out.push(c);
        }
        i = i + 1;
    }
    assert(s@.take(s.len() as int) =~= s@);
    out
}

/// The loaded chunks to unload: those beyond the view radius plus one
/// (the extra ring keeps a player on a chunk border from thrashing), in
/// order.
pub fn chunks_to_unload(center: (i32, i32), radius: i32, loaded: &[(i32, i32)]) -> (r: Vec<(i32, i32)>)
    ensures
        r@ == outside_square(loaded@, center, radius + 1),
{
    filter_square(loaded, center, radius as i64 + 1, false)
}

/// The in-flight mesh requests still wanted: those within the view
/// radius, in order.
pub fn wanted_in_flight(center: (i32, i32), radius: i32, in_flight: &[(i32, i32)]) -> (r: Vec<(i32, i32)>)
    ensures
        r@ == inside_square(in_flight@, center, radius as int),
{
    filter_square(in_flight, center, radius as i64, true)
}

fn dist2_exec(c: (i32, i32), center: (i32, i32), radius: i32) -> (d: i64)
    requires
        0 <= radius <= 1_000_000,
        in_square(c, center, radius as int),
    ensures
        d == dist2(c, center),
{
    let dx: i64 = c.0 as i64 - center.0 as i64;
    let dz: i64 = c.1 as i64 - center.1 as i64;
    assert(0 <= dx * dx <= 1_000_000_000_000 && 0 <= dz * dz <= 1_000_000_000_000) by (nonlinear_arith)
        requires
            -1_000_000 <= dx <= 1_000_000,
            -1_000_000 <= dz <= 1_000_000,
    ;
    dx * dx + dz * dz
}

fn contains_chunk(s: &[(i32, i32)], c: (i32, i32)) -> (b: bool)
    ensures
        b == s@.contains(c),
{
    let mut i: usize = 0;
    while i < s.len()
        invariant
            i <= s.len(),
            forall|j: int| 0 <= j < i ==> s@[j] != c,
        decreases s.len() - i,
    {
        let e = s[i];
        if e.0 == c.0 && e.1 == c.1 {
            return true;
        }
        i = i + 1;
    }
    false
}

/// Inserting `c` after every chunk no farther than it and before every
/// farther one keeps the order by distance, and keeps ties in scan order
/// when every chunk present comes before `c` in that order.
proof fn lemma_insert_keeps_order(before: Seq<(i32, i32)>, k: int, c: (i32, i32), center: (i32, i32))
    requires
        0 <= k <= before.len(),
        sorted_by_distance(before, center),
        ties_in_scan_order(before, center),
        forall|j: int| 0 <= j < k ==> dist2(#[trigger] before[j], center) <= dist2(c, center),
        k == before.len() || dist2(before[k], center) > dist2(c, center),
        forall|j: int| 0 <= j < before.len() ==> (#[trigger] before[j]).0 < c.0 || (before[j].0 == c.0
            && before[j].1 < c.1),
    ensures
        sorted_by_distance(before.insert(k, c), center),
        ties_in_scan_order(before.insert(k, c), center),
{
    let out = before.insert(k, c);
    assert forall|i: int, j: int| 0 <= i < j < out.len() implies dist2(out[i], center) <= dist2(out[j], center) && (dist2(
        out[i],
        center,
    ) == dist2(out[j], center) ==> out[i].0 < out[j].0 || (out[i].0 == out[j].0 && out[i].1 < out[j].1)) by {
        if j < k {
            assert(out[i] == before[i] && out[j] == before[j]);
        } else if j == k {
            assert(out[i] == before[i]);
        } else if i == k {
            assert(out[j] == before[j - 1]);
            assert(dist2(before[k], center) <= dist2(before[j - 1], center));
        } else if i < k {
            assert(out[i] == before[i] && out[j] == before[j - 1]);
        } else {
            assert(out[i] == before[i - 1] && out[j] == before[j - 1]);
        }
    }
}

/// Should chunk `c` be requested: within the view radius, and neither
/// loaded nor already requested?
pub open spec fn load_wanted(
    c: (i32, i32),
    center: (i32, i32),
    radius: int,
    loaded: Seq<(i32, i32)>,
    in_flight: Seq<(i32, i32)>,
) -> bool {
    in_square(c, center, radius) && !loaded.contains(c) && !in_flight.contains(c)
}

pub open spec fn sorted_by_distance(s: Seq<(i32, i32)>, center: (i32, i32)) -> bool {
    forall|i: int, j: int| 0 <= i < j < s.len() ==> dist2(s[i], center) <= dist2(s[j], center)
}

/// Chunks at equal distance keep the scan order: x first, then z.
pub open spec fn ties_in_scan_order(s: Seq<(i32, i32)>, center: (i32, i32)) -> bool {
    forall|i: int, j: int|
        0 <= i < j < s.len() && dist2(s[i], center) == dist2(s[j], center) ==> s[i].0 < s[j].0 || (s[i].0
            == s[j].0 && s[i].1 < s[j].1)
}

/// The chunks to request, nearest first: every chunk within the view
/// radius that is neither loaded nor in flight, each once, ordered by
/// squared distance from the center chunk (the terrain the player stands
/// in resolves first); chunks at equal distance in increasing x, then z.
pub fn chunks_to_load(center: (i32, i32), radius: i32, loaded: &[(i32, i32)], in_flight: &[(i32, i32)]) -> (r: Vec<
    (i32, i32),
>)
    requires
        radius <= 1_000_000,
        i32::MIN + 1_000_000 <= center.0 <= i32::MAX - 1_000_000,
        i32::MIN + 1_000_000 <= center.1 <= i32::MAX - 1_000_000,
    ensures
        r@.no_duplicates(),
        forall|c: (i32, i32)| r@.contains(c) <==> load_wanted(c, center, radius as int, loaded@, in_flight@),
        sorted_by_distance(r@, center),
        ties_in_scan_order(r@, center),
{
    let mut out: Vec<(i32, i32)> = Vec::new();
    if radius < 0 {
        assert forall|c: (i32, i32)| out@.contains(c) <==> load_wanted(c, center, radius as int, loaded@, in_flight@) by {}
        return out;
    }
    let mut dx: i32 = -radius;
    while dx <= radius
        invariant
            0 <= radius <= 1_000_000,
            -radius <= dx <= radius + 1,
            i32::MIN + 1_000_000 <= center.0 <= i32::MAX - 1_000_000,
            i32::MIN + 1_000_000 <= center.1 <= i32::MAX - 1_000_000,
            out@.no_duplicates(),
            sorted_by_distance(out@, center),
            ties_in_scan_order(out@, center),
            forall|c: (i32, i32)|
                out@.contains(c) <==> (load_wanted(c, center, radius as int, loaded@, in_flight@) && c.0 - center.0
                    < dx),
        decreases radius + 1 - dx,
    {
        let mut dz: i32 = -radius;
        while dz <= radius
            invariant
                0 <= radius <= 1_000_000,
                -radius <= dx <= radius,
                -radius <= dz <= radius + 1,
                i32::MIN + 1_000_000 <= center.0 <= i32::MAX - 1_000_000,
                i32::MIN + 1_000_000 <= center.1 <= i32::MAX - 1_000_000,
                out@.no_duplicates(),
                sorted_by_distance(out@, center),
                ties_in_scan_order(out@, center),
                forall|c: (i32, i32)|
                    out@.contains(c) <==> (load_wanted(c, center, radius as int, loaded@, in_flight@) && (c.0
                        - center.0 < dx || (c.0 - center.0 == dx && c.1 - center.1 < dz))),
            decreases radius + 1 - dz,
        {
            let c = (center.0 + dx, center.1 + dz);
            proof {
                assert forall|j: int| 0 <= j < out.len() implies in_square(#[trigger] out@[j], center, radius as int) by {
                    assert(out@.contains(out@[j]));
                }
            }
            if !contains_chunk(loaded, c) && !contains_chunk(in_flight, c) {
                let d: i64 = dist2_exec(c, center, radius);
                let mut k: usize = 0;
                while k < out.len() && dist2_exec(out[k], center, radius) <= d
                    invariant
                        k <= out.len(),
                        0 <= radius <= 1_000_000,
                        -radius <= dx <= radius,
                        -radius <= dz <= radius,
                        i32::MIN + 1_000_000 <= center.0 <= i32::MAX - 1_000_000,
                        i32::MIN + 1_000_000 <= center.1 <= i32::MAX - 1_000_000,
                        d == dist2(c, center),
                        forall|j: int| 0 <= j < k ==> dist2(#[trigger] out@[j], center) <= d,
                        forall|j: int| 0 <= j < out.len() ==> in_square(#[trigger] out@[j], center, radius as int),
                    decreases out.len() - k,
                {
                    k = k + 1;
                }
                proof {
                    assert(!out@.contains(c));
                    assert(k == out.len() || dist2(out@[k as int], center) > d);
                }
                let ghost before = out@;
                proof {
                    assert forall|j: int| 0 <= j < before.len() implies (#[trigger] before[j]).0 < c.0 || (before[j].0
                        == c.0 && before[j].1 < c.1) by {
                        assert(before.contains(before[j]));
                    }
                    lemma_insert_keeps_order(before, k as int, c, center);
                }
                out.insert(k, c);
                proof {
                    assert(out@ == before.insert(k as int, c));
                    assert forall|a: int, b: int| 0 <= a < out@.len() && 0 <= b < out@.len() && a != b implies out@[a] != out@[b] by {
                        if a != k && b != k {
                            let a1 = if a < k { a } else { a - 1 };
                            let b1 = if b < k { b } else { b - 1 };
                            assert(out@[a] == before[a1] && out@[b] == before[b1]);
                        } else if a == k {
                            let b1 = if b < k { b } else { b - 1 };
                            assert(out@[b] == before[b1]);
                        } else {
                            let a1 = if a < k { a } else { a - 1 };
                            assert(out@[a] == before[a1]);
                        }
                    }
                    assert forall|x: (i32, i32)| out@.contains(x) <==> (before.contains(x) || x == c) by {
                        if before.contains(x) {
                            let j = choose|j: int| 0 <= j < before.len() && before[j] == x;
                            if j < k {
                                assert(out@[j] == x);
                            } else {
                                assert(out@[j + 1] == x);
                            }
                        }
                        if out@.contains(x) {
                            let j = choose|j: int| 0 <= j < out@.len() && out@[j] == x;
                            if j < k {
                                assert(before[j] == x);
                            } else if j > k {
                                assert(before[j - 1] == x);
                            }
                        }
                        assert(out@[k as int] == c);
                    }
                    assert forall|x: (i32, i32)| out@.contains(x) <==> (load_wanted(x, center, radius as int, loaded@, in_flight@) && (x.0
                        - center.0 < dx || (x.0 - center.0 == dx && x.1 - center.1 < dz + 1))) by {
                        assert(out@.contains(x) == (before.contains(x) || x == c));
                        assert(before.contains(x) == (load_wanted(x, center, radius as int, loaded@, in_flight@) && (x.0
                            - center.0 < dx || (x.0 - center.0 == dx && x.1 - center.1 < dz))));
                        if x.0 - center.0 == dx && x.1 - center.1 == dz {
                            assert(x == c);
                        }
                        if x == c {
                            assert(load_wanted(c, center, radius as int, loaded@, in_flight@));
                        }
                    }
                }
            } else {
                proof {
                    assert forall|x: (i32, i32)| out@.contains(x) <==> (load_wanted(x, center, radius as int, loaded@, in_flight@) && (x.0
                        - center.0 < dx || (x.0 - center.0 == dx && x.1 - center.1 < dz + 1))) by {
                        if x.0 - center.0 == dx && x.1 - center.1 == dz {
                            assert(x == c);
                        }
                    }
                }
            }
            dz = dz + 1;
        }
        dx = dx + 1;
    }
    out
}

} // verus!
