//! Turning a world and a viewport into a row-major colour buffer.
use vstd::prelude::*;
use crate::fixed::{abs, div_trunc, div_trunc_i128, SCALE};
use crate::scene::{in_scene_range, intersect_spec, Color, Ray, Sphere, World};
use crate::algebra::vec3::{Triple, Vec3};

verus! {

/// The direction of the ray through the pixel in column `col` and row `row`:
/// `((col − width/2) / width, (row − height/2) / height, 1)`, a pinhole
/// camera looking down `+z` with the image plane at distance one.
pub open spec fn pixel_direction(width: int, height: int, col: int, row: int) -> Triple {
    (
        div_trunc((col - width / 2) * SCALE, width),
        div_trunc((row - height / 2) * SCALE, height),
        SCALE as int,
    )
}

/// A root is accepted when it lies at or beyond the image plane and
/// strictly nearer than the best hit so far.
pub open spec fn accepts(best: Option<(int, int)>, t: int) -> bool {
    SCALE <= t && (best.is_none() || t < best.unwrap().0)
}

/// The best hit after looking at root `t` of sphere `i`.
pub open spec fn consider(best: Option<(int, int)>, t: int, i: int) -> Option<(int, int)> {
    if accepts(best, t) { Some((t, i)) } else { best }
}

/// The nearest accepted hit among the first `n` spheres, as its ray
/// parameter and the index of its sphere. Both roots of each sphere are
/// looked at in turn; an exact tie keeps the earlier hit.
pub open spec fn closest_hit(spheres: Seq<Sphere>, origin: Triple, dir: Triple, n: nat) -> Option<(int, int)>
    decreases n,
{
    if n == 0 {
        None
    } else {
        let best = closest_hit(spheres, origin, dir, (n - 1) as nat);
        match intersect_spec(spheres[n - 1], dir, origin) {
            None => best,
            Some((t1, t2)) => consider(consider(best, t1, n - 1), t2, n - 1),
        }
    }
}

/// The colour of the nearest sphere that the ray along `dir` hits, or the
/// background when it hits none.
pub open spec fn pixel_color(world: World, dir: Triple) -> Color {
    match closest_hit(world.objects@, world.origin@, dir, world.objects@.len()) {
        Some((_, i)) => world.objects@[i].color,
        None => world.background,
    }
}

/// The frame: `width * height` colours in row-major order.
pub open spec fn render_spec(world: World, width: int, height: int) -> Seq<Color> {
    Seq::new(
        (width * height) as nat,
        |p: int| pixel_color(world, pixel_direction(width, height, p % width, p / width)),
    )
}

pub open spec fn hit_view(h: Option<(i128, usize)>) -> Option<(int, int)> {
    match h {
        Some((t, i)) => Some((t as int, i as int)),
        None => None,
    }
}

proof fn lemma_closest_hit_index(spheres: Seq<Sphere>, origin: Triple, dir: Triple, n: nat)
    ensures
        closest_hit(spheres, origin, dir, n) matches Some((_, i)) ==> 0 <= i < n,
    decreases n,
{
    if n > 0 {
        lemma_closest_hit_index(spheres, origin, dir, (n - 1) as nat);
    }
}

/// The ray from the world's origin along `dir` takes the colour of the
/// nearest sphere it hits, or the background.
pub fn trace(world: &World, dir: Vec3) -> (c: Color)
    requires
        world.wf(),
        in_scene_range(dir@),
    ensures
        c == pixel_color(*world, dir@),
{
    let ray = Ray { direction: dir };
    let mut best: Option<(i128, usize)> = None;
    let n = world.objects.len();
    let mut i: usize = 0;
    while i < n
        invariant
            world.wf(),
            in_scene_range(dir@),
            ray.direction == dir,
            n == world.objects@.len(),
            0 <= i <= n,
            hit_view(best) == closest_hit(world.objects@, world.origin@, dir@, i as nat),
        decreases n - i,
    {
        let sphere = world.objects[i];
        assert(world.objects@[i as int].wf());
        let roots = sphere.intersect(&ray, world.origin);
        match roots {
            None => {},
            Some((t1, t2)) => {
                if SCALE as i128 <= t1 && (best.is_none() || t1 < best.unwrap().0) {
                    best = Some((t1, i));
                }
                if SCALE as i128 <= t2 && (best.is_none() || t2 < best.unwrap().0) {
                    best = Some((t2, i));
                }
            },
        }
        i = i + 1;
    }
    proof {
        lemma_closest_hit_index(world.objects@, world.origin@, dir@, n as nat);
    }
    match best {
        Some((_, k)) => world.objects[k].color,
        None => world.background,
    }
}

/// The direction of the ray through one pixel.
pub fn pixel_ray(width: u32, height: u32, col: u32, row: u32) -> (d: Vec3)
    requires
        col < width,
        row < height,
    ensures
        d@ == pixel_direction(width as int, height as int, col as int, row as int),
        in_scene_range(d@),
{
    let ox: i128 = col as i128 - (width / 2) as i128;
    let oy: i128 = row as i128 - (height / 2) as i128;
    assert(abs(ox * SCALE) <= 0x1_0000_0000_0000 && abs(oy * SCALE) <= 0x1_0000_0000_0000)
        by (nonlinear_arith)
        requires
            abs(ox as int) <= 0x1_0000_0000,
            abs(oy as int) <= 0x1_0000_0000,
    ;
    let dx = ox * SCALE as i128;
    let dy = oy * SCALE as i128;
    let x = div_trunc_i128(dx, width as i128);
    let y = div_trunc_i128(dy, height as i128);
    proof {
        lemma_offset_bound(col as int, width as int);
        lemma_offset_bound(row as int, height as int);
    }
    Vec3 { x: x as i64, y: y as i64, z: SCALE }
}

proof fn lemma_offset_bound(col: int, width: int)
    requires
        0 <= col < width,
    ensures
        abs(div_trunc((col - width / 2) * SCALE, width)) <= SCALE,
{
    let n = (col - width / 2) * SCALE;
    assert(abs(n) <= width * SCALE) by (nonlinear_arith)
        requires
            n == (col - width / 2) * SCALE,
            0 <= col < width,
            0 <= width / 2 <= width,
            abs(n) == (if n < 0 { -n } else { n }),
    ;
    assert(abs(n) / width <= SCALE) by (nonlinear_arith)
        requires
            0 <= abs(n) <= width * SCALE,
            width > 0,
    ;
}

/// Casts one ray per pixel and returns the colours in row-major order.
pub fn render(world: &World, width: u32, height: u32) -> (frame: Vec<Color>)
    requires
        world.wf(),
        width as int * height as int <= usize::MAX,
    ensures
        frame@ == render_spec(*world, width as int, height as int),
{
    let mut frame: Vec<Color> = Vec::new();
    let ghost w = width as int;
    let mut row: u32 = 0;
    while row < height
        invariant
            world.wf(),
            w == width as int,
            w * height as int <= usize::MAX,
            0 <= row <= height,
            frame@.len() == row as int * w,
            forall|p: int|
                0 <= p < frame@.len() ==> #[trigger] frame@[p] == pixel_color(
                    *world,
                    pixel_direction(w, height as int, p % w, p / w),
                ),
        decreases height - row,
    {
        let mut col: u32 = 0;
        while col < width
            invariant
                world.wf(),
                w == width as int,
                w * height as int <= usize::MAX,
                0 <= row < height,
                0 <= col <= width,
                frame@.len() == row as int * w + col as int,
                forall|p: int|
                    0 <= p < frame@.len() ==> #[trigger] frame@[p] == pixel_color(
                        *world,
                        pixel_direction(w, height as int, p % w, p / w),
                    ),
            decreases width - col,
        {
            let d = pixel_ray(width, height, col, row);
            let c = trace(world, d);
            proof {
                let p = row as int * w + col as int;
                vstd::arithmetic::div_mod::lemma_fundamental_div_mod_converse(p, w, row as int, col as int);
            }
            frame.push(c);
            col = col + 1;
        }
        assert(frame@.len() == (row as int + 1) * w) by (nonlinear_arith)
            requires
                frame@.len() == row as int * w + w,
        ;
        row = row + 1;
    }
    assert(frame@.len() == w * height as int) by (nonlinear_arith)
        requires
            frame@.len() == height as int * w,
    ;
    assert(frame@ =~= render_spec(*world, width as int, height as int));
    frame
}

/// Lays the colours out as bytes, four channels per pixel in the order
/// red, green, blue, alpha.
pub fn to_rgba_bytes(frame: &Vec<Color>) -> (bytes: Vec<u8>)
    requires
        4 * frame@.len() <= usize::MAX,
    ensures
        bytes@.len() == 4 * frame@.len(),
        forall|i: int|
            0 <= i < frame@.len() ==> {
                &&& #[trigger] bytes@[4 * i] == frame@[i].r
                &&& bytes@[4 * i + 1] == frame@[i].g
                &&& bytes@[4 * i + 2] == frame@[i].b
                &&& bytes@[4 * i + 3] == frame@[i].a
            },
{
    let mut bytes: Vec<u8> = Vec::new();
    let mut i: usize = 0;
    while i < frame.len()
        invariant
            4 * frame@.len() <= usize::MAX,
            0 <= i <= frame@.len(),
            bytes@.len() == 4 * i,
            forall|j: int|
                0 <= j < i ==> {
                    &&& #[trigger] bytes@[4 * j] == frame@[j].r
                    &&& bytes@[4 * j + 1] == frame@[j].g
                    &&& bytes@[4 * j + 2] == frame@[j].b
                    &&& bytes@[4 * j + 3] == frame@[j].a
                },
        decreases frame@.len() - i,
    {
        let c = frame[i];
        let ghost before = bytes@;
        bytes.push(c.r);
        bytes.push(c.g);
        bytes.push(c.b);
        bytes.push(c.a);
        assert(bytes@ == before.push(c.r).push(c.g).push(c.b).push(c.a));
        assert forall|j: int| 0 <= j < i + 1 implies {
            &&& #[trigger] bytes@[4 * j] == frame@[j].r
            &&& bytes@[4 * j + 1] == frame@[j].g
            &&& bytes@[4 * j + 2] == frame@[j].b
            &&& bytes@[4 * j + 3] == frame@[j].a
        } by {
            if j < i {
                assert(bytes@[4 * j] == before[4 * j]);
                assert(bytes@[4 * j + 1] == before[4 * j + 1]);
                assert(bytes@[4 * j + 2] == before[4 * j + 2]);
                assert(bytes@[4 * j + 3] == before[4 * j + 3]);
            }
        }
        i = i + 1;
    }
    bytes
}

/// A world without spheres renders every pixel in the background colour.
pub proof fn lemma_empty_world_is_background(world: World, width: int, height: int)
    requires
        world.objects@.len() == 0,
        width >= 0,
        height >= 0,
    ensures
        forall|p: int|
            0 <= p < width * height ==> #[trigger] render_spec(world, width, height)[p]
                == world.background,
{
}

/// Root `t` of sphere `j` would be accepted on its own: it lies at or beyond
/// the image plane.
pub open spec fn is_hit(spheres: Seq<Sphere>, origin: Triple, dir: Triple, j: int, t: int) -> bool {
    &&& SCALE <= t
    &&& intersect_spec(spheres[j], dir, origin) matches Some((t1, t2))
    &&& (t == t1 || t == t2)
}

/// The scan finds the nearest hit: when it reports sphere `i` at `t`, that
/// is a hit, no hit of any sphere is nearer, and no earlier sphere has a hit
/// as near; when it reports none, no sphere is hit.
pub proof fn lemma_closest_hit_is_nearest(spheres: Seq<Sphere>, origin: Triple, dir: Triple, n: nat)
    requires
        n <= spheres.len(),
    ensures
        closest_hit(spheres, origin, dir, n) matches Some((t, i)) ==> {
            &&& 0 <= i < n
            &&& is_hit(spheres, origin, dir, i, t)
            &&& forall|j: int, u: int| 0 <= j < n && #[trigger] is_hit(spheres, origin, dir, j, u) ==> t <= u
            &&& forall|j: int, u: int| 0 <= j < i && #[trigger] is_hit(spheres, origin, dir, j, u) ==> t < u
        },
        closest_hit(spheres, origin, dir, n) is None ==> forall|j: int, u: int|
            0 <= j < n ==> !#[trigger] is_hit(spheres, origin, dir, j, u),
    decreases n,
{
    if n > 0 {
        lemma_closest_hit_is_nearest(spheres, origin, dir, (n - 1) as nat);
    }
}

/// A pixel takes the colour of the sphere with the nearest hit, the first
/// such sphere in scan order on a tie, and the background when no sphere
/// is hit.
pub proof fn lemma_nearest_sphere_wins(world: World, dir: Triple)
    ensures
        ({
            let spheres = world.objects@;
            let origin = world.origin@;
            let n = spheres.len() as int;
            ||| (exists|i: int, t: int|
                0 <= i < n && #[trigger] is_hit(spheres, origin, dir, i, t)
                && (forall|j: int, u: int| 0 <= j < n && #[trigger] is_hit(spheres, origin, dir, j, u) ==> t <= u)
                && (forall|j: int, u: int| 0 <= j < i && #[trigger] is_hit(spheres, origin, dir, j, u) ==> t < u)
                && pixel_color(world, dir) == spheres[i].color)
            ||| ((forall|j: int, u: int| 0 <= j < n ==> !#[trigger] is_hit(spheres, origin, dir, j, u))
                && pixel_color(world, dir) == world.background)
        }),
{
    let spheres = world.objects@;
    lemma_closest_hit_is_nearest(spheres, world.origin@, dir, spheres.len());
    match closest_hit(spheres, world.origin@, dir, spheres.len()) {
        Some((t, i)) => {
            assert(is_hit(spheres, world.origin@, dir, i, t));
        },
        None => {},
    }
}

/// Rendering is a function of the world and the viewport alone: two frames
/// rendered from the same world and size are equal, and so are their bytes.
pub proof fn lemma_render_deterministic(
    world: World,
    width: int,
    height: int,
    first: Seq<Color>,
    second: Seq<Color>,
)
    requires
        first == render_spec(world, width, height),
        second == render_spec(world, width, height),
    ensures
        first == second,
{
}

} // verus!
