use vstd::prelude::*;

verus! {

/// The brightness of a pixel whose evaluation came back with `escape`.
pub open spec fn shade_of(escape: Option<usize>) -> u8 {
    match escape {
        None => 0u8,
        Some(k) => (255 - k) as u8,
    }
}

/// An escape count that a shade can be made of.
pub open spec fn shadeable(escape: Option<usize>) -> bool {
    match escape {
        None => true,
        Some(k) => k <= 255,
    }
}

/// Turns an escape count into a grey level: a point that never escaped is
/// black, and a point that escaped after `k` steps gets `255 - k`.
pub fn intensity(escape: Option<usize>) -> (r: u8)
    requires
        shadeable(escape),
    ensures
        r == shade_of(escape),
        escape is None ==> r == 0,
        escape matches Some(k) ==> r as int == 255 - k,
{
    match escape {
        None => 0,
        Some(k) => (255 - k) as u8,
    }
}

/// The (column, row) of linear index `i` in a row-major grid `width` wide.
pub open spec fn pixel_at(i: int, width: usize) -> (usize, usize) {
    ((i % width as int) as usize, (i / width as int) as usize)
}

/// `f` computes the escape count `esc` of every pixel.
pub open spec fn evaluates<F: Fn(usize, usize) -> Option<usize>>(
    f: F,
    esc: spec_fn(usize, usize) -> Option<usize>,
) -> bool {
    forall|c: usize, r: usize, e: Option<usize>| #[trigger] f.ensures((c, r), e) ==> e == esc(c, r)
}

/// `v` is the shade of some escape count that `f` may return for pixel `p`.
pub open spec fn shaded_by<F: Fn(usize, usize) -> Option<usize>>(f: F, p: (usize, usize), v: u8) -> bool {
    exists|e: Option<usize>| #[trigger] f.ensures(p, e) && v == shade_of(e)
}

/// `f` can be called on every pixel and always returns a count that shades.
pub open spec fn evaluator_ready<F: Fn(usize, usize) -> Option<usize>>(f: F) -> bool {
    &&& forall|c: usize, r: usize| #[trigger] f.requires((c, r))
    &&& forall|c: usize, r: usize, e: Option<usize>| #[trigger]
        f.ensures((c, r), e) ==> shadeable(e)
}

/// The grey levels of the pixels with linear indices in `[start, end)`.
pub open spec fn band_spec(
    width: usize,
    start: int,
    end: int,
    esc: spec_fn(usize, usize) -> Option<usize>,
) -> Seq<u8> {
    Seq::new(
        (end - start) as nat,
        |j: int| shade_of(esc(pixel_at(start + j, width).0, pixel_at(start + j, width).1)),
    )
}

/// The whole intensity buffer of a `bounds.0` by `bounds.1` grid.
pub open spec fn render_spec(
    bounds: (usize, usize),
    esc: spec_fn(usize, usize) -> Option<usize>,
) -> Seq<u8> {
    band_spec(bounds.0, 0, bounds.0 * bounds.1, esc)
}

/// The (column, row) of linear index `index` in a row-major grid.
pub fn pixel_of_index(index: usize, width: usize) -> (r: (usize, usize))
    requires
        width > 0,
    ensures
        r == pixel_at(index as int, width),
        r.0 == index % width,
        r.1 == index / width,
{
    (index % width, index / width)
}

/// Shades the pixels with linear indices in `[start, end)` of a grid
/// `width` wide, asking `escape` for the escape count of each.
pub fn render_band<F: Fn(usize, usize) -> Option<usize>>(
    width: usize,
    start: usize,
    end: usize,
    escape: &F,
) -> (r: Vec<u8>)
    requires
        width > 0,
        start <= end,
        evaluator_ready(*escape),
    ensures
        r@.len() == end - start,
        forall|j: int|
            0 <= j < r@.len() ==> shaded_by(*escape, pixel_at(start + j, width), #[trigger] r@[j]),
        forall|esc: spec_fn(usize, usize) -> Option<usize>| #[trigger]
            evaluates(*escape, esc) ==> r@ == band_spec(width, start as int, end as int, esc),
{
    let mut out: Vec<u8> = Vec::new();
    let ghost mut escs: Seq<Option<usize>> = Seq::empty();
    let mut i: usize = start;
    while i < end
        invariant
            width > 0,
            start <= i <= end,
            evaluator_ready(*escape),
            out@.len() == i - start,
            escs.len() == i - start,
            forall|j: int|
                0 <= j < i - start ==> #[trigger] escape.ensures(
                    pixel_at(start + j, width),
                    escs[j],
                ) && out@[j] == shade_of(escs[j]),
        decreases end - i,
    {
        let p = pixel_of_index(i, width);
        let e = escape(p.0, p.1);
        let v = intensity(e);
        out.push(v);
        proof {
            let ghost old_escs = escs;
            escs = escs.push(e);
            assert(pixel_at(start + (i - start), width) == (p.0, p.1));
            assert forall|j: int| 0 <= j < i + 1 - start implies #[trigger] escape.ensures(
                pixel_at(start + j, width),
                escs[j],
            ) && out@[j] == shade_of(escs[j]) by {
                if j < i - start {
                    assert(escs[j] == old_escs[j]);
                    assert(escape.ensures(pixel_at(start + j, width), old_escs[j]));
                }
            }
        }
        i = i + 1;
    }
    proof {
        assert forall|j: int| 0 <= j < out@.len() implies shaded_by(
            *escape,
            pixel_at(start + j, width),
            #[trigger] out@[j],
        ) by {
            assert(escape.ensures(pixel_at(start + j, width), escs[j]));
        }
        assert forall|esc: spec_fn(usize, usize) -> Option<usize>| #[trigger]
            evaluates(*escape, esc) implies out@ == band_spec(
                width,
                start as int,
                end as int,
                esc,
            ) by {
            let b = band_spec(width, start as int, end as int, esc);
            assert forall|j: int| 0 <= j < out@.len() implies out@[j] == b[j] by {
                let p = pixel_at(start + j, width);
                assert(escape.ensures((p.0, p.1), escs[j]));
            }
            assert(out@ =~= b);
        }
    }
    out
}

/// Shades every pixel of a `bounds.0` by `bounds.1` grid, row by row. A grid
/// with no pixels gives an empty buffer.
pub fn render<F: Fn(usize, usize) -> Option<usize>>(bounds: (usize, usize), escape: &F) -> (r:
    Vec<u8>)
    requires
        bounds.0 * bounds.1 <= usize::MAX,
        evaluator_ready(*escape),
    ensures
        r@.len() == bounds.0 * bounds.1,
        forall|j: int|
            0 <= j < r@.len() ==> shaded_by(*escape, pixel_at(j, bounds.0), #[trigger] r@[j]),
        forall|esc: spec_fn(usize, usize) -> Option<usize>| #[trigger]
            evaluates(*escape, esc) ==> r@ == render_spec(bounds, esc),
{
    if bounds.0 == 0 || bounds.1 == 0 {
        proof {
            assert(bounds.0 * bounds.1 == 0) by (nonlinear_arith)
                requires
                    bounds.0 == 0 || bounds.1 == 0,
            ;
            assert forall|esc: spec_fn(usize, usize) -> Option<usize>| #[trigger]
                evaluates(*escape, esc) implies Seq::<u8>::empty() == render_spec(bounds, esc) by {
                assert(Seq::<u8>::empty() =~= render_spec(bounds, esc));
            }
        }
        return Vec::new();
    }
    let n = bounds.0 * bounds.1;
    let r = render_band(bounds.0, 0, n, escape);
    proof {
        assert forall|j: int| 0 <= j < r@.len() implies shaded_by(
            *escape,
            pixel_at(j, bounds.0),
            #[trigger] r@[j],
        ) by {
            assert(0 + j == j);
            assert(shaded_by(*escape, pixel_at(0 + j, bounds.0), r@[j]));
        }
    }
    r
}

/// The bands between consecutive cut points, one after another.
pub open spec fn bands_spec(
    width: usize,
    cuts: Seq<int>,
    esc: spec_fn(usize, usize) -> Option<usize>,
) -> Seq<u8>
    decreases cuts.len(),
{
    if cuts.len() < 2 {
        Seq::empty()
    } else {
        bands_spec(width, cuts.drop_last(), esc) + band_spec(
            width,
            cuts[cuts.len() - 2],
            cuts[cuts.len() - 1],
            esc,
        )
    }
}

/// Two adjacent bands, one after the other, are the band that spans both.
pub proof fn lemma_bands_join(
    width: usize,
    a: int,
    b: int,
    c: int,
    esc: spec_fn(usize, usize) -> Option<usize>,
)
    requires
        a <= b <= c,
    ensures
        band_spec(width, a, b, esc) + band_spec(width, b, c, esc) == band_spec(width, a, c, esc),
{
    let l = band_spec(width, a, b, esc);
    let r = band_spec(width, b, c, esc);
    let w = band_spec(width, a, c, esc);
    assert forall|j: int| 0 <= j < w.len() implies (l + r)[j] == w[j] by {
        if j >= b - a {
            assert(b + (j - (b - a)) == a + j);
        }
    }
    assert(l + r =~= w);
}

/// Cutting the index range at any ordered points and shading the pieces
/// separately gives, byte for byte, the buffer of one pass over the range:
/// the order in which pieces are done and who does them does not matter.
pub proof fn lemma_bands_partition(
    width: usize,
    cuts: Seq<int>,
    esc: spec_fn(usize, usize) -> Option<usize>,
)
    requires
        cuts.len() >= 1,
        forall|k: int| 0 < k < cuts.len() ==> cuts[k - 1] <= #[trigger] cuts[k],
    ensures
        bands_spec(width, cuts, esc) == band_spec(width, cuts[0], cuts[cuts.len() - 1], esc),
    decreases cuts.len(),
{
    if cuts.len() == 1 {
        assert(band_spec(width, cuts[0], cuts[0], esc) =~= Seq::<u8>::empty());
    } else {
        let front = cuts.drop_last();
        assert forall|k: int| 0 < k < front.len() implies front[k - 1] <= #[trigger] front[k] by {
            assert(cuts[k - 1] <= cuts[k]);
        }
        lemma_bands_partition(width, front, esc);
        let n = cuts.len();
        assert forall|k: int| 0 <= k < n implies cuts[0] <= #[trigger] cuts[k] by {
            lemma_cuts_ordered(cuts, 0, k);
        }
        assert(cuts[n - 2] <= cuts[n - 1]);
        lemma_bands_join(width, cuts[0], cuts[n - 2], cuts[n - 1], esc);
    }
}

proof fn lemma_cuts_ordered(cuts: Seq<int>, i: int, k: int)
    requires
        0 <= i <= k < cuts.len(),
        forall|m: int| 0 < m < cuts.len() ==> cuts[m - 1] <= #[trigger] cuts[m],
    ensures
        cuts[i] <= cuts[k],
    decreases k - i,
{
    if i < k {
        lemma_cuts_ordered(cuts, i, k - 1);
        assert(cuts[k - 1] <= cuts[k]);
    }
}

/// Rendering the same grid twice with the same evaluator gives the same
/// buffer both times.
pub proof fn lemma_render_repeatable(
    bounds: (usize, usize),
    esc: spec_fn(usize, usize) -> Option<usize>,
    first: Seq<u8>,
    second: Seq<u8>,
)
    requires
        first == render_spec(bounds, esc),
        second == render_spec(bounds, esc),
    ensures
        first == second,
{
}

/// A one by one grid is a single byte: the shade of pixel (0, 0).
pub proof fn lemma_single_pixel(esc: spec_fn(usize, usize) -> Option<usize>)
    ensures
        render_spec((1, 1), esc).len() == 1,
        render_spec((1, 1), esc)[0] == shade_of(esc(0, 0)),
{
    let bounds: (usize, usize) = (1, 1);
    assert(bounds.0 * bounds.1 == 1);
    assert(pixel_at(0, 1) == (0usize, 0usize));
    assert(render_spec(bounds, esc) == band_spec(1, 0, 1, esc));
}

} // verus!
