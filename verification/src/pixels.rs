//! Sets of canvas pixels, and how two of them relate: equality, translation, difference.
use vstd::prelude::*;
use vstd::set_lib::{lemma_map_size, lemma_subset_equality};
use crate::token_map::TokenMap;

verus! {

broadcast use {vstd::set::group_set_axioms, vstd::set_lib::group_set_properties, vstd::seq_lib::group_seq_properties};

/// A pixel lies on a canvas: both of its coordinates are nonnegative.
pub open spec fn on_canvas(p: (i32, i32)) -> bool {
    p.0 >= 0 && p.1 >= 0
}

/// The pixels that a region covers on a canvas, as a set: each pixel once.
pub struct PixelSet {
    points: Vec<(i32, i32)>,
}

impl PixelSet {
    #[verifier::type_invariant]
    spec fn well_formed(self) -> bool {
        &&& self.points@.no_duplicates()
        &&& forall|i: int| 0 <= i < self.points@.len() ==> on_canvas(#[trigger] self.points@[i])
        &&& self.points@.len() <= usize::MAX / 2
    }
}

impl View for PixelSet {
    type V = Set<(i32, i32)>;

    closed spec fn view(&self) -> Set<(i32, i32)> {
        self.points@.to_set()
    }
}

/// The size bound of a pixel set: a count over two of them still fits in `usize`.
pub open spec fn max_pixels() -> nat {
    (usize::MAX / 2) as nat
}

/// What holds of the view of every pixel set.
pub open spec fn pixel_set_props(s: Set<(i32, i32)>) -> bool {
    &&& s.finite()
    &&& s.len() <= max_pixels()
    &&& forall|p: (i32, i32)| #[trigger] s.contains(p) ==> on_canvas(p)
}

impl PixelSet {
    proof fn lemma_props(&self)
        requires
            self.well_formed(),
        ensures
            pixel_set_props(self@),
            self@.len() == self.points@.len(),
    {
        self.points@.unique_seq_to_set();
        assert forall|p: (i32, i32)| #[trigger] self@.contains(p) implies on_canvas(p) by {
            let i = choose|i: int| 0 <= i < self.points@.len() && self.points@[i] == p;
        }
    }

    /// An empty set of pixels.
    pub fn new() -> (s: Self)
        ensures
            s@ == Set::<(i32, i32)>::empty(),
    {
        let s = PixelSet { points: Vec::new() };
        assert(s@ =~= Set::<(i32, i32)>::empty());
        s
    }

    fn index_of(&self, x: i32, y: i32) -> (r: Option<usize>)
        ensures
            match r {
                Some(i) => i < self.points@.len() && self.points@[i as int] == (x, y),
                None => !self@.contains((x, y)),
            },
    {
        let n = self.points.len();
        let mut i: usize = 0;
        while i < n
            invariant
                n == self.points@.len(),
                i <= n,
                forall|j: int| 0 <= j < i ==> self.points@[j] != (x, y),
            decreases n - i,
        {
            let p = self.points[i];
            if p.0 == x && p.1 == y {
                return Some(i);
            }
            i = i + 1;
        }
        None
    }

    /// Whether the pixel `(x, y)` is in the set.
    pub fn contains(&self, x: i32, y: i32) -> (r: bool)
        ensures
            r == self@.contains((x, y)),
    {
        self.index_of(x, y).is_some()
    }

    /// The number of pixels in the set.
    pub fn len(&self) -> (r: usize)
        ensures
            r == self@.len(),
            pixel_set_props(self@),
    {
        proof {
            use_type_invariant(self);
            self.lemma_props();
        }
        self.points.len()
    }

    /// Whether the set holds no pixel.
    pub fn is_empty(&self) -> (r: bool)
        ensures
            r == (self@.len() == 0),
            pixel_set_props(self@),
    {
        self.len() == 0
    }

    /// Adds the pixel `(x, y)`.
    pub fn insert(&mut self, x: i32, y: i32)
        requires
            x >= 0,
            y >= 0,
            old(self)@.len() < max_pixels(),
        ensures
            final(self)@ == old(self)@.insert((x, y)),
    {
        proof {
            use_type_invariant(&*self);
            self.lemma_props();
        }
        if self.index_of(x, y).is_none() {
            let mut points: Vec<(i32, i32)> = Vec::new();
            std::mem::swap(&mut points, &mut self.points);
            let ghost before = points@;
            points.push((x, y));
            proof {
                assert(points@.to_set() =~= before.to_set().insert((x, y)));
                assert forall|i: int, j: int| 0 <= i < points@.len() && 0 <= j < points@.len() && i != j
                    implies points@[i] != points@[j] by {
                    if j == before.len() {
                        assert(before.to_set().contains(before[i]));
                    } else if i == before.len() {
                        assert(before.to_set().contains(before[j]));
                    }
                }
            }
            self.points = points;
        } else {
            assert(old(self)@.insert((x, y)) =~= old(self)@);
        }
    }
}

/// Every pixel set is finite.
pub proof fn lemma_pixel_set_finite(s: PixelSet)
    ensures
        s@.finite(),
{
}

/// Every region of a map of pixel sets is a finite set.
pub proof fn lemma_regions_finite(m: TokenMap<PixelSet>)
    ensures
        forall|t: Seq<char>| #[trigger] m@.contains_key(t) ==> m@[t].finite(),
{
    let p = |s: Set<(i32, i32)>| s.finite();
    assert forall|v: PixelSet| #[trigger] p(v@) by {
        lemma_pixel_set_finite(v);
    }
    m.lemma_values_satisfy(p);
}

/// The least first coordinate of a set of pixels.
pub open spec fn is_min_x(s: Set<(i32, i32)>, m: int) -> bool {
    &&& exists|p: (i32, i32)| #[trigger] s.contains(p) && p.0 == m
    &&& forall|p: (i32, i32)| #[trigger] s.contains(p) ==> m <= p.0
}

/// The least second coordinate of a set of pixels.
pub open spec fn is_min_y(s: Set<(i32, i32)>, m: int) -> bool {
    &&& exists|p: (i32, i32)| #[trigger] s.contains(p) && p.1 == m
    &&& forall|p: (i32, i32)| #[trigger] s.contains(p) ==> m <= p.1
}

pub open spec fn min_x(s: Set<(i32, i32)>) -> int {
    choose|m: int| is_min_x(s, m)
}

pub open spec fn min_y(s: Set<(i32, i32)>) -> int {
    choose|m: int| is_min_y(s, m)
}

/// Whether an integer is a value of `i32`.
pub open spec fn fits_i32(v: int) -> bool {
    i32::MIN <= v <= i32::MAX
}

/// The pixel `p` moved by `(dx, dy)`.
pub open spec fn moved(p: (i32, i32), dx: int, dy: int) -> (i32, i32) {
    ((p.0 + dx) as i32, (p.1 + dy) as i32)
}

/// Every pixel of `a`, moved by `(dx, dy)`, is a pixel of `b`.
pub open spec fn moves_into(a: Set<(i32, i32)>, b: Set<(i32, i32)>, dx: int, dy: int) -> bool {
    forall|p: (i32, i32)| #[trigger] a.contains(p) ==> fits_i32(p.0 + dx) && fits_i32(p.1 + dy)
        && b.contains(moved(p, dx, dy))
}

/// The offset by which `b` is `a` translated as a unit: the two sets have the same size,
/// are not empty, the offset is that of their least coordinates and is not zero, and it
/// moves every pixel of `a` onto a pixel of `b`.
pub open spec fn shift_of(a: Set<(i32, i32)>, b: Set<(i32, i32)>) -> Option<(int, int)> {
    if a.len() != b.len() || a.len() == 0 {
        None
    } else {
        let dx = min_x(b) - min_x(a);
        let dy = min_y(b) - min_y(a);
        if dx == 0 && dy == 0 {
            None
        } else if moves_into(a, b, dx, dy) {
            Some((dx, dy))
        } else {
            None
        }
    }
}

/// The number of pixels in exactly one of the two sets.
pub open spec fn symmetric_difference_len(a: Set<(i32, i32)>, b: Set<(i32, i32)>) -> nat {
    a.difference(b).len() + b.difference(a).len()
}

impl PixelSet {
    fn least_coordinates(&self) -> (r: (i32, i32))
        requires
            self@.len() > 0,
        ensures
            is_min_x(self@, r.0 as int),
            is_min_y(self@, r.1 as int),
            r.0 >= 0,
            r.1 >= 0,
    {
        proof {
            use_type_invariant(self);
            self.lemma_props();
        }
        let n = self.points.len();
        let first = self.points[0];
        let mut mx: i32 = first.0;
        let mut my: i32 = first.1;
        let mut i: usize = 1;
        let ghost s = self.points@;
        assert(self@.contains(s[0]));
        while i < n
            invariant
                n == s.len(),
                s == self.points@,
                1 <= i <= n,
                mx >= 0,
                my >= 0,
                exists|j: int| 0 <= j < i && #[trigger] s[j].0 == mx,
                exists|j: int| 0 <= j < i && #[trigger] s[j].1 == my,
                forall|j: int| 0 <= j < i ==> mx <= #[trigger] s[j].0,
                forall|j: int| 0 <= j < i ==> my <= #[trigger] s[j].1,
                forall|j: int| 0 <= j < n ==> on_canvas(#[trigger] s[j]),
            decreases n - i,
        {
            let p = self.points[i];
            if p.0 < mx {
                mx = p.0;
            }
            if p.1 < my {
                my = p.1;
            }
            i = i + 1;
        }
        proof {
            let jx = choose|j: int| 0 <= j < i && #[trigger] s[j].0 == mx;
            let jy = choose|j: int| 0 <= j < i && #[trigger] s[j].1 == my;
            assert(self@.contains(s[jx]));
            assert(self@.contains(s[jy]));
            assert forall|p: (i32, i32)| #[trigger] self@.contains(p) implies mx <= p.0 && my <= p.1 by {
                let j = choose|j: int| 0 <= j < s.len() && s[j] == p;
                assert(mx <= s[j].0);
                assert(my <= s[j].1);
            }
        }
        (mx, my)
    }
}

proof fn lemma_min_x_is(s: Set<(i32, i32)>, m: int)
    requires
        is_min_x(s, m),
    ensures
        min_x(s) == m,
{
    let c = min_x(s);
    assert(is_min_x(s, c));
    let p = choose|p: (i32, i32)| #[trigger] s.contains(p) && p.0 == m;
    let q = choose|p: (i32, i32)| #[trigger] s.contains(p) && p.0 == c;
    assert(c <= p.0);
    assert(m <= q.0);
}

proof fn lemma_min_y_is(s: Set<(i32, i32)>, m: int)
    requires
        is_min_y(s, m),
    ensures
        min_y(s) == m,
{
    let c = min_y(s);
    assert(is_min_y(s, c));
    let p = choose|p: (i32, i32)| #[trigger] s.contains(p) && p.1 == m;
    let q = choose|p: (i32, i32)| #[trigger] s.contains(p) && p.1 == c;
    assert(c <= p.1);
    assert(m <= q.1);
}

/// If `b` is exactly `a` translated by a nonzero offset, that offset.
pub fn detect_shift(a: &PixelSet, b: &PixelSet) -> (r: Option<(i32, i32)>)
    ensures
        match r {
            Some((dx, dy)) => shift_of(a@, b@) == Some((dx as int, dy as int)),
            None => shift_of(a@, b@) is None,
        },
{
    let la = a.len();
    let lb = b.len();
    if la != lb || la == 0 {
        return None;
    }
    let min_a = a.least_coordinates();
    let min_b = b.least_coordinates();
    proof {
        lemma_min_x_is(a@, min_a.0 as int);
        lemma_min_y_is(a@, min_a.1 as int);
        lemma_min_x_is(b@, min_b.0 as int);
        lemma_min_y_is(b@, min_b.1 as int);
    }
    let dx: i32 = min_b.0 - min_a.0;
    let dy: i32 = min_b.1 - min_a.1;
    if dx == 0 && dy == 0 {
        return None;
    }
    proof {
        use_type_invariant(a);
    }
    let n = a.points.len();
    let ghost s = a.points@;
    let mut i: usize = 0;
    while i < n
        invariant
            n == s.len(),
            s == a.points@,
            i <= n,
            a@ == s.to_set(),
            a@.len() == b@.len(),
            a@.len() > 0,
            dx as int == min_x(b@) - min_x(a@),
            dy as int == min_y(b@) - min_y(a@),
            !(dx == 0 && dy == 0),
            forall|j: int| 0 <= j < i ==> fits_i32(#[trigger] s[j].0 + dx) && fits_i32(s[j].1 + dy)
                && b@.contains(moved(s[j], dx as int, dy as int)),
        decreases n - i,
    {
        let p = a.points[i];
        let x: i64 = p.0 as i64 + dx as i64;
        let y: i64 = p.1 as i64 + dy as i64;
        if x < i32::MIN as i64 || x > i32::MAX as i64 || y < i32::MIN as i64 || y > i32::MAX as i64 {
            proof {
                assert(a@.contains(s[i as int]));
            }
            return None;
        }
        if !b.contains(x as i32, y as i32) {
            proof {
                assert(a@.contains(s[i as int]));
            }
            return None;
        }
        assert(moved(s[i as int], dx as int, dy as int) == (x as i32, y as i32));
        i = i + 1;
    }
    proof {
        assert forall|p: (i32, i32)| #[trigger] a@.contains(p) implies fits_i32(p.0 + dx) && fits_i32(p.1 + dy)
            && b@.contains(moved(p, dx as int, dy as int)) by {
            let j = choose|j: int| 0 <= j < s.len() && s[j] == p;
            assert(fits_i32(s[j].0 + dx));
        }
    }
    Some((dx, dy))
}

/// Whether the two sets hold the same pixels.
pub fn same_pixels(a: &PixelSet, b: &PixelSet) -> (r: bool)
    ensures
        r == (a@ == b@),
{
    let la = a.len();
    let lb = b.len();
    if la != lb {
        return false;
    }
    proof {
        use_type_invariant(a);
    }
    let n = a.points.len();
    let ghost s = a.points@;
    let mut i: usize = 0;
    while i < n
        invariant
            n == s.len(),
            s == a.points@,
            i <= n,
            forall|j: int| 0 <= j < i ==> b@.contains(#[trigger] s[j]),
        decreases n - i,
    {
        let p = a.points[i];
        if !b.contains(p.0, p.1) {
            proof {
                assert(a@.contains(s[i as int]));
            }
            return false;
        }
        i = i + 1;
    }
    proof {
        assert forall|p: (i32, i32)| #[trigger] a@.contains(p) implies b@.contains(p) by {
            let j = choose|j: int| 0 <= j < s.len() && s[j] == p;
        }
        lemma_subset_equality(a@, b@);
    }
    true
}

/// The number of pixels of `a` that are not in `b`.
fn count_missing(a: &PixelSet, b: &PixelSet) -> (r: usize)
    ensures
        r == a@.difference(b@).len(),
        r <= a@.len(),
{
    let la = a.len();
    proof {
        use_type_invariant(a);
        a.lemma_props();
    }
    let n = a.points.len();
    let ghost s = a.points@;
    let mut count: usize = 0;
    let mut i: usize = 0;
    assert(s.take(0).to_set() =~= Set::<(i32, i32)>::empty());
    while i < n
        invariant
            n == s.len(),
            n == la,
            s == a.points@,
            s.no_duplicates(),
            i <= n,
            count <= i,
            count == s.take(i as int).to_set().difference(b@).len(),
        decreases n - i,
    {
        let p = a.points[i];
        let ghost before = s.take(i as int).to_set();
        assert(s.take(i + 1).to_set() =~= before.insert(p)) by {
            assert(s.take(i + 1) =~= s.take(i as int).push(p));
        }
        assert(!before.contains(p)) by {
            if before.contains(p) {
                let j = choose|j: int| 0 <= j < i && s.take(i as int)[j] == p;
                assert(s[j] == s[i as int]);
            }
        }
        if !b.contains(p.0, p.1) {
            assert(before.insert(p).difference(b@) =~= before.difference(b@).insert(p));
            count = count + 1;
        } else {
            assert(before.insert(p).difference(b@) =~= before.difference(b@));
        }
        i = i + 1;
    }
    assert(s.take(n as int) =~= s);
    count
}

/// The number of pixels that are in exactly one of the two sets.
pub fn count_symmetric_difference(a: &PixelSet, b: &PixelSet) -> (r: usize)
    ensures
        r == symmetric_difference_len(a@, b@),
{
    let la = a.len();
    let lb = b.len();
    let x = count_missing(a, b);
    let y = count_missing(b, a);
    x + y
}

/// A nonzero offset found by `shift_of` moves `a` exactly onto `b`: `b` is `a` translated.
pub proof fn lemma_shift_is_translation(a: Set<(i32, i32)>, b: Set<(i32, i32)>)
    requires
        a.finite(),
        b.finite(),
        shift_of(a, b) is Some,
    ensures
        ({
            let (dx, dy) = shift_of(a, b)->0;
            &&& (dx, dy) != (0int, 0int)
            &&& b == a.map(|p: (i32, i32)| moved(p, dx, dy))
        }),
{
    let (dx, dy) = shift_of(a, b)->0;
    let f = |p: (i32, i32)| moved(p, dx, dy);
    let image = a.map(f);
    assert(vstd::relations::injective_on(f, a)) by {
        assert forall|p: (i32, i32), q: (i32, i32)| a.contains(p) && a.contains(q) && #[trigger] f(p) == #[trigger] f(q)
            implies p == q by {
            assert(fits_i32(p.0 + dx) && fits_i32(q.0 + dx));
            assert(fits_i32(p.1 + dy) && fits_i32(q.1 + dy));
        }
    }
    lemma_map_size(a, image, f);
    assert forall|q: (i32, i32)| #[trigger] image.contains(q) implies b.contains(q) by {
        let p = choose|p: (i32, i32)| a.contains(p) && f(p) == q;
    }
    lemma_subset_equality(image, b);
}

/// A finite set of pixels that is not empty has least coordinates.
pub proof fn lemma_min_exists(s: Set<(i32, i32)>)
    requires
        s.finite(),
        s.len() > 0,
    ensures
        is_min_x(s, min_x(s)),
        is_min_y(s, min_y(s)),
    decreases s.len(),
{
    let p = s.choose();
    let r = s.remove(p);
    if r.len() == 0 {
        assert(r =~= Set::<(i32, i32)>::empty()) by {
            if !(r =~= Set::<(i32, i32)>::empty()) {
                let q = choose|q: (i32, i32)| r.contains(q);
                assert(r.contains(q));
            }
        }
        assert forall|q: (i32, i32)| #[trigger] s.contains(q) implies q == p by {
            if q != p {
                assert(r.contains(q));
            }
        }
        assert(is_min_x(s, p.0 as int));
        assert(is_min_y(s, p.1 as int));
    } else {
        lemma_min_exists(r);
        let mx = min_x(r);
        let my = min_y(r);
        if (p.0 as int) < mx {
            assert(is_min_x(s, p.0 as int));
        } else {
            let w = choose|w: (i32, i32)| #[trigger] r.contains(w) && w.0 == mx;
            assert(s.contains(w));
            assert(is_min_x(s, mx));
        }
        if (p.1 as int) < my {
            assert(is_min_y(s, p.1 as int));
        } else {
            let w = choose|w: (i32, i32)| #[trigger] r.contains(w) && w.1 == my;
            assert(s.contains(w));
            assert(is_min_y(s, my));
        }
    }
}

/// If `b` is exactly `a` translated by a nonzero offset (every pixel of `a` moved by it
/// still being a pixel), and `a` is not empty, `shift_of` finds that offset.
pub proof fn lemma_translation_is_found(a: Set<(i32, i32)>, b: Set<(i32, i32)>, dx: int, dy: int)
    requires
        a.finite(),
        a.len() > 0,
        (dx, dy) != (0int, 0int),
        forall|p: (i32, i32)| #[trigger] a.contains(p) ==> fits_i32(p.0 + dx) && fits_i32(p.1 + dy),
        b == a.map(|p: (i32, i32)| moved(p, dx, dy)),
    ensures
        shift_of(a, b) == Some((dx, dy)),
{
    let f = |p: (i32, i32)| moved(p, dx, dy);
    assert(vstd::relations::injective_on(f, a)) by {
        assert forall|p: (i32, i32), q: (i32, i32)| a.contains(p) && a.contains(q) && #[trigger] f(p) == #[trigger] f(q)
            implies p == q by {
            assert(fits_i32(p.0 + dx) && fits_i32(q.0 + dx));
            assert(fits_i32(p.1 + dy) && fits_i32(q.1 + dy));
        }
    }
    lemma_map_size(a, b, f);
    lemma_min_exists(a);
    let mx = min_x(a);
    let my = min_y(a);
    assert(is_min_x(b, mx + dx)) by {
        let w = choose|w: (i32, i32)| #[trigger] a.contains(w) && w.0 == mx;
        assert(b.contains(f(w)));
        assert forall|q: (i32, i32)| #[trigger] b.contains(q) implies mx + dx <= q.0 by {
            let p = choose|p: (i32, i32)| a.contains(p) && f(p) == q;
        }
    }
    assert(is_min_y(b, my + dy)) by {
        let w = choose|w: (i32, i32)| #[trigger] a.contains(w) && w.1 == my;
        assert(b.contains(f(w)));
        assert forall|q: (i32, i32)| #[trigger] b.contains(q) implies my + dy <= q.1 by {
            let p = choose|p: (i32, i32)| a.contains(p) && f(p) == q;
        }
    }
    lemma_min_x_is(b, mx + dx);
    lemma_min_y_is(b, my + dy);
    assert(moves_into(a, b, dx, dy)) by {
        assert forall|p: (i32, i32)| #[trigger] a.contains(p) implies b.contains(moved(p, dx, dy)) by {
            assert(b.contains(f(p)));
        }
    }
}

} // verus!
