use vstd::prelude::*;

verus! {

/// `zs` is an orbit of `c` from `start`: each entry after the first is a
/// possible result of `step` on the entry before it and `c`, and `escaped`
/// answered `false` on every entry but the last.
pub open spec fn is_orbit<Z, E: Fn(Z) -> bool, S: Fn(Z, Z) -> Z>(
    escaped: &E,
    step: &S,
    start: Z,
    c: Z,
    zs: Seq<Z>,
) -> bool {
    &&& zs.len() >= 1
    &&& zs[0] == start
    &&& forall|j: int|
        0 <= j < zs.len() - 1 ==> {
            &&& #[trigger] escaped.ensures((zs[j],), false)
            &&& step.ensures((zs[j], c), zs[j + 1])
        }
}

/// `count` is a possible answer of the escape test with check-then-update:
/// `Some(i)` when the orbit is tested `i` times without escaping and the test
/// at index `i < limit` reports escape; `None` when all `limit` tests passed.
pub open spec fn escape_outcome<Z, E: Fn(Z) -> bool, S: Fn(Z, Z) -> Z>(
    escaped: &E,
    step: &S,
    start: Z,
    c: Z,
    limit: u8,
    count: Option<u8>,
) -> bool {
    match count {
        Some(i) => {
            &&& i < limit
            &&& exists|zs: Seq<Z>|
                #[trigger] is_orbit(escaped, step, start, c, zs) && zs.len() == i + 1
                    && escaped.ensures((zs[i as int],), true)
        },
        None => exists|zs: Seq<Z>|
            #[trigger] is_orbit(escaped, step, start, c, zs) && zs.len() == limit + 1,
    }
}

/// Runs the orbit of `c` from `start` for at most `limit` tests: before each
/// update `z <- step(z, c)`, `escaped(z)` is asked, and the index of the first
/// test that reports escape is returned. `None` means the orbit stayed bounded.
pub fn escape_count<Z: Copy, E: Fn(Z) -> bool, S: Fn(Z, Z) -> Z>(
    c: Z,
    start: Z,
    limit: u8,
    escaped: &E,
    step: &S,
) -> (r: Option<u8>)
    requires
        forall|z: Z| escaped.requires((z,)),
        forall|z: Z, w: Z| step.requires((z, w)),
    ensures
        escape_outcome(escaped, step, start, c, limit, r),
{
    let mut z = start;
    let ghost mut zs: Seq<Z> = seq![start];
    let mut i: u8 = 0;
    while i < limit
        invariant
            i <= limit,
            zs.len() == i + 1,
            zs[i as int] == z,
            is_orbit(escaped, step, start, c, zs),
            forall|z: Z| escaped.requires((z,)),
            forall|z: Z, w: Z| step.requires((z, w)),
        decreases limit - i,
    {
        if escaped(z) {
            return Some(i);
        }
        let next = step(z, c);
        proof {
            let old_zs = zs;
            zs = zs.push(next);
            assert forall|j: int| 0 <= j < zs.len() - 1 implies {
                &&& #[trigger] escaped.ensures((zs[j],), false)
                &&& step.ensures((zs[j], c), zs[j + 1])
            } by {
                if j < old_zs.len() - 1 {
                    assert(zs[j] == old_zs[j]);
                    assert(zs[j + 1] == old_zs[j + 1]);
                }
            }
        }
        z = next;
        i = i + 1;
    }
    None
}

/// Intensity of a pixel: `limit - i` for an orbit that escaped at test `i`,
/// black for one that stayed bounded.
pub open spec fn shade_of(limit: u8, count: Option<u8>) -> int {
    match count {
        Some(i) => limit - i,
        None => 0,
    }
}

/// The byte that [`shade_of`] gives.
pub fn shade(limit: u8, count: Option<u8>) -> (r: u8)
    requires
        count matches Some(i) ==> i <= limit,
    ensures
        r == shade_of(limit, count),
{
    match count {
        Some(i) => limit - i,
        None => 0,
    }
}

/// `value` is a possible intensity of the pixel at (`row`, `column`): the
/// shade of an escape outcome of a point that `map` gives for that pixel.
pub open spec fn is_pixel_value<Z, M: Fn(usize, usize) -> Z, E: Fn(Z) -> bool, S: Fn(Z, Z) -> Z>(
    map: &M,
    start: Z,
    escaped: &E,
    step: &S,
    limit: u8,
    row: usize,
    column: usize,
    value: u8,
) -> bool {
    exists|c: Z, count: Option<u8>|
        #[trigger] map.ensures((row, column), c) && #[trigger] escape_outcome(
            escaped,
            step,
            start,
            c,
            limit,
            count,
        ) && value == shade_of(limit, count)
}

/// Row-major position of the pixel at (`row`, `column`) on a canvas `width` wide.
pub open spec fn pixel_index(width: usize, row: usize, column: usize) -> int {
    row * width + column
}

/// Fills `pixels`, a row-major raster of `canvas_size.0` columns and
/// `canvas_size.1` rows, with the escape-time shade of every pixel: the point
/// of the pixel comes from `map(row, column)`, its orbit from `start`,
/// `escaped` and `step` (see [`escape_count`]), and its byte from [`shade`].
pub fn render<Z: Copy, M: Fn(usize, usize) -> Z, E: Fn(Z) -> bool, S: Fn(Z, Z) -> Z>(
    pixels: &mut [u8],
    canvas_size: (usize, usize),
    map: &M,
    start: Z,
    escaped: &E,
    step: &S,
    limit: u8,
)
    requires
        old(pixels)@.len() == canvas_size.0 * canvas_size.1,
        forall|row: usize, column: usize| map.requires((row, column)),
        forall|z: Z| escaped.requires((z,)),
        forall|z: Z, w: Z| step.requires((z, w)),
    ensures
        final(pixels)@.len() == old(pixels)@.len(),
        forall|row: usize, column: usize|
            row < canvas_size.1 && column < canvas_size.0 ==> is_pixel_value(
                map,
                start,
                escaped,
                step,
                limit,
                row,
                column,
                #[trigger] final(pixels)@[pixel_index(canvas_size.0, row, column)],
            ),
{
    let (width, height) = canvas_size;
    let size = pixels.len();
    assert(size == width * height);
    let mut row: usize = 0;
    while row < height
        invariant
            pixels@.len() == width * height,
            width * height <= usize::MAX,
            row <= height,
            forall|row: usize, column: usize| map.requires((row, column)),
            forall|z: Z| escaped.requires((z,)),
            forall|z: Z, w: Z| step.requires((z, w)),
            forall|r: usize, c: usize|
                r < row && c < width ==> is_pixel_value(
                    map,
                    start,
                    escaped,
                    step,
                    limit,
                    r,
                    c,
                    #[trigger] pixels@[pixel_index(width, r, c)],
                ),
        decreases height - row,
    {
        let mut column: usize = 0;
        while column < width
            invariant
                pixels@.len() == width * height,
                width * height <= usize::MAX,
                row < height,
                column <= width,
                forall|row: usize, column: usize| map.requires((row, column)),
                forall|z: Z| escaped.requires((z,)),
                forall|z: Z, w: Z| step.requires((z, w)),
                forall|r: usize, c: usize|
                    (r < row && c < width) || (r == row && c < column) ==> is_pixel_value(
                        map,
                        start,
                        escaped,
                        step,
                        limit,
                        r,
                        c,
                        #[trigger] pixels@[pixel_index(width, r, c)],
                    ),
            decreases width - column,
        {
            proof {
                lemma_index_in_bounds(width, height, row, column);
            }
            let index = row * width + column;
            let point = map(row, column);
            let count = escape_count(point, start, limit, escaped, step);
            let value = shade(limit, count);
            let ghost before = pixels@;
            pixels[index] = value;
            proof {
                assert forall|r: usize, c: usize|
                    (r < row && c < width) || (r == row && c < column + 1) implies is_pixel_value(
                    map,
                    start,
                    escaped,
                    step,
                    limit,
                    r,
                    c,
                    #[trigger] pixels@[pixel_index(width, r, c)],
                ) by {
                    if r == row && c == column {
                        assert(map.ensures((row, column), point));
                        assert(escape_outcome(escaped, step, start, point, limit, count));
                    } else {
                        lemma_index_distinct(width, r, c, row, column);
                        lemma_index_in_bounds(width, height, r, c);
                        assert(pixels@[pixel_index(width, r, c)] == before[pixel_index(width, r, c)]);
                    }
                }
            }
            column = column + 1;
        }
        row = row + 1;
    }
}

proof fn lemma_index_in_bounds(width: usize, height: usize, row: usize, column: usize)
    requires
        row < height,
        column < width,
    ensures
        0 <= row * width + column < width * height,
{
    assert(row * width + column < width * height) by (nonlinear_arith)
        requires
            row < height,
            column < width,
    ;
}

proof fn lemma_index_distinct(width: usize, r: usize, c: usize, row: usize, column: usize)
    requires
        c < width,
        column < width,
        r != row || c != column,
    ensures
        pixel_index(width, r, c) != pixel_index(width, row, column),
{
    if r != row {
        assert(r * width + c != row * width + column) by (nonlinear_arith)
            requires
                r != row,
                c < width,
                column < width,
        ;
    }
}

/// A point whose orbit stays where it starts never escapes: where `escaped`
/// answers `false` on `start` and `step` takes `start` back to itself for
/// `c`, every escape outcome of `c` is "bounded".
pub proof fn lemma_fixed_point_bounded<Z, E: Fn(Z) -> bool, S: Fn(Z, Z) -> Z>(
    escaped: &E,
    step: &S,
    start: Z,
    c: Z,
    limit: u8,
    count: Option<u8>,
)
    requires
        forall|answer: bool| escaped.ensures((start,), answer) ==> !answer,
        forall|next: Z| step.ensures((start, c), next) ==> next == start,
        escape_outcome(escaped, step, start, c, limit, count),
    ensures
        count is None,
{
    if let Some(i) = count {
        let zs = choose|zs: Seq<Z>|
            is_orbit(escaped, step, start, c, zs) && zs.len() == i + 1 && escaped.ensures(
                (zs[i as int],),
                true,
            );
        lemma_orbit_stays(escaped, step, start, c, zs, i as int);
    }
}

proof fn lemma_orbit_stays<Z, E: Fn(Z) -> bool, S: Fn(Z, Z) -> Z>(
    escaped: &E,
    step: &S,
    start: Z,
    c: Z,
    zs: Seq<Z>,
    j: int,
)
    requires
        forall|next: Z| step.ensures((start, c), next) ==> next == start,
        is_orbit(escaped, step, start, c, zs),
        0 <= j < zs.len(),
    ensures
        zs[j] == start,
    decreases j,
{
    if j > 0 {
        lemma_orbit_stays(escaped, step, start, c, zs, j - 1);
        assert(escaped.ensures((zs[j - 1],), false));
        assert(step.ensures((zs[j - 1], c), zs[j]));
    }
}

/// `map` gives one point per pixel.
pub open spec fn map_is_function<Z, M: Fn(usize, usize) -> Z>(map: &M) -> bool {
    forall|row: usize, column: usize, a: Z, b: Z|
        #[trigger] map.ensures((row, column), a) && #[trigger] map.ensures((row, column), b) ==> a == b
}

/// `escaped` gives one answer per value.
pub open spec fn test_is_function<Z, E: Fn(Z) -> bool>(escaped: &E) -> bool {
    forall|z: Z, a: bool, b: bool|
        #[trigger] escaped.ensures((z,), a) && #[trigger] escaped.ensures((z,), b) ==> a == b
}

/// `step` gives one value per pair of arguments.
pub open spec fn step_is_function<Z, S: Fn(Z, Z) -> Z>(step: &S) -> bool {
    forall|z: Z, c: Z, a: Z, b: Z|
        #[trigger] step.ensures((z, c), a) && #[trigger] step.ensures((z, c), b) ==> a == b
}

proof fn lemma_orbits_agree<Z, E: Fn(Z) -> bool, S: Fn(Z, Z) -> Z>(
    escaped: &E,
    step: &S,
    start: Z,
    c: Z,
    xs: Seq<Z>,
    ys: Seq<Z>,
    j: int,
)
    requires
        step_is_function(step),
        is_orbit(escaped, step, start, c, xs),
        is_orbit(escaped, step, start, c, ys),
        0 <= j < xs.len(),
        j < ys.len(),
    ensures
        xs[j] == ys[j],
    decreases j,
{
    if j > 0 {
        lemma_orbits_agree(escaped, step, start, c, xs, ys, j - 1);
        assert(escaped.ensures((xs[j - 1],), false));
        assert(escaped.ensures((ys[j - 1],), false));
        assert(step.ensures((xs[j - 1], c), xs[j]));
        assert(step.ensures((ys[j - 1], c), ys[j]));
    }
}

proof fn lemma_escape_outcome_unique<Z, E: Fn(Z) -> bool, S: Fn(Z, Z) -> Z>(
    escaped: &E,
    step: &S,
    start: Z,
    c: Z,
    limit: u8,
    a: Option<u8>,
    b: Option<u8>,
)
    requires
        test_is_function(escaped),
        step_is_function(step),
        escape_outcome(escaped, step, start, c, limit, a),
        escape_outcome(escaped, step, start, c, limit, b),
    ensures
        a == b,
{
    let xs = choose|zs: Seq<Z>| is_orbit(escaped, step, start, c, zs) && match a {
        Some(i) => zs.len() == i + 1 && escaped.ensures((zs[i as int],), true),
        None => zs.len() == limit + 1,
    };
    let ys = choose|zs: Seq<Z>| is_orbit(escaped, step, start, c, zs) && match b {
        Some(i) => zs.len() == i + 1 && escaped.ensures((zs[i as int],), true),
        None => zs.len() == limit + 1,
    };
    match (a, b) {
        (Some(i), Some(k)) => {
            if i < k {
                lemma_orbits_agree(escaped, step, start, c, xs, ys, i as int);
                assert(escaped.ensures((ys[i as int],), false));
            } else if k < i {
                lemma_orbits_agree(escaped, step, start, c, xs, ys, k as int);
                assert(escaped.ensures((xs[k as int],), false));
            }
        },
        (Some(i), None) => {
            lemma_orbits_agree(escaped, step, start, c, xs, ys, i as int);
            assert(escaped.ensures((ys[i as int],), false));
        },
        (None, Some(k)) => {
            lemma_orbits_agree(escaped, step, start, c, xs, ys, k as int);
            assert(escaped.ensures((xs[k as int],), false));
        },
        (None, None) => {},
    }
}

/// Rendering is deterministic: where `map`, `escaped` and `step` each give one
/// result for each argument, two rasters that both meet the contract of
/// [`render`] for the same inputs are the same, byte for byte.
pub proof fn lemma_render_deterministic<Z, M: Fn(usize, usize) -> Z, E: Fn(Z) -> bool, S: Fn(Z, Z) -> Z>(
    first: Seq<u8>,
    second: Seq<u8>,
    canvas_size: (usize, usize),
    map: &M,
    start: Z,
    escaped: &E,
    step: &S,
    limit: u8,
)
    requires
        map_is_function(map),
        test_is_function(escaped),
        step_is_function(step),
        first.len() == canvas_size.0 * canvas_size.1,
        second.len() == canvas_size.0 * canvas_size.1,
        forall|row: usize, column: usize|
            row < canvas_size.1 && column < canvas_size.0 ==> is_pixel_value(
                map,
                start,
                escaped,
                step,
                limit,
                row,
                column,
                #[trigger] first[pixel_index(canvas_size.0, row, column)],
            ),
        forall|row: usize, column: usize|
            row < canvas_size.1 && column < canvas_size.0 ==> is_pixel_value(
                map,
                start,
                escaped,
                step,
                limit,
                row,
                column,
                #[trigger] second[pixel_index(canvas_size.0, row, column)],
            ),
    ensures
        first == second,
{
    let (width, height) = canvas_size;
    assert forall|k: int| 0 <= k < first.len() implies first[k] == second[k] by {
        let row = k / width as int;
        let column = k % width as int;
        assert(width > 0) by (nonlinear_arith)
            requires
                k < width * height,
                0 <= k,
        ;
        assert(k == row * width + column && 0 <= column < width && 0 <= row) by (nonlinear_arith)
            requires
                width > 0,
                row == k / width as int,
                column == k % width as int,
                0 <= k,
        ;
        assert(row < height) by (nonlinear_arith)
            requires
                k == row * width + column,
                0 <= column,
                k < width * height,
                width > 0,
        ;
        let (r, c) = (row as usize, column as usize);
        assert(pixel_index(width, r, c) == k);
        let v1 = first[k];
        let v2 = second[k];
        assert(is_pixel_value(map, start, escaped, step, limit, r, c, first[pixel_index(width, r, c)]));
        assert(is_pixel_value(map, start, escaped, step, limit, r, c, second[pixel_index(width, r, c)]));
        let (p1, n1) = choose|p: Z, n: Option<u8>|
            map.ensures((r, c), p) && escape_outcome(escaped, step, start, p, limit, n) && v1
                == shade_of(limit, n);
        let (p2, n2) = choose|p: Z, n: Option<u8>|
            map.ensures((r, c), p) && escape_outcome(escaped, step, start, p, limit, n) && v2
                == shade_of(limit, n);
        assert(p1 == p2);
        lemma_escape_outcome_unique(escaped, step, start, p1, limit, n1, n2);
    }
    assert(first =~= second);
}

} // verus!
