//! The board: resource kinds, tiles and the toroidal map.

use vstd::prelude::*;

verus! {

/// Number of resource kinds.
pub const RESOURCE_COUNT: usize = 7;

/// A collectable resource. The order of the variants is the order of the
/// counters in a tile or an inventory.
#[derive(Clone, Copy, Debug, PartialEq, Eq, Structural)]
pub enum Resource {
    Food,
    Linemate,
    Deraumere,
    Sibur,
    Mendiane,
    Phiras,
    Thystame,
}

/// Position of a resource's counter, `0..RESOURCE_COUNT`.
pub open spec fn res_index(r: Resource) -> nat {
    match r {
        Resource::Food => 0,
        Resource::Linemate => 1,
        Resource::Deraumere => 2,
        Resource::Sibur => 3,
        Resource::Mendiane => 4,
        Resource::Phiras => 5,
        Resource::Thystame => 6,
    }
}

/// The resource whose counter sits at position `i`.
pub open spec fn res_at(i: nat) -> Resource {
    if i == 0 {
        Resource::Food
    } else if i == 1 {
        Resource::Linemate
    } else if i == 2 {
        Resource::Deraumere
    } else if i == 3 {
        Resource::Sibur
    } else if i == 4 {
        Resource::Mendiane
    } else if i == 5 {
        Resource::Phiras
    } else {
        Resource::Thystame
    }
}

/// Protocol name of a resource.
pub open spec fn res_name(r: Resource) -> Seq<char> {
    match r {
        Resource::Food => "food"@,
        Resource::Linemate => "linemate"@,
        Resource::Deraumere => "deraumere"@,
        Resource::Sibur => "sibur"@,
        Resource::Mendiane => "mendiane"@,
        Resource::Phiras => "phiras"@,
        Resource::Thystame => "thystame"@,
    }
}

/// The resource a protocol name designates, if any.
pub open spec fn res_from_name(s: Seq<char>) -> Option<Resource> {
    if s == "food"@ {
        Some(Resource::Food)
    } else if s == "linemate"@ {
        Some(Resource::Linemate)
    } else if s == "deraumere"@ {
        Some(Resource::Deraumere)
    } else if s == "sibur"@ {
        Some(Resource::Sibur)
    } else if s == "mendiane"@ {
        Some(Resource::Mendiane)
    } else if s == "phiras"@ {
        Some(Resource::Phiras)
    } else if s == "thystame"@ {
        Some(Resource::Thystame)
    } else {
        None
    }
}

impl Resource {
    /// Position of this resource's counter.
    pub fn index(self) -> (r: usize)
        ensures
            r == res_index(self),
            r < RESOURCE_COUNT,
    {
        match self {
            Resource::Food => 0,
            Resource::Linemate => 1,
            Resource::Deraumere => 2,
            Resource::Sibur => 3,
            Resource::Mendiane => 4,
            Resource::Phiras => 5,
            Resource::Thystame => 6,
        }
    }

    /// The resource whose counter sits at position `i`.
    pub fn from_index(i: usize) -> (r: Resource)
        requires
            i < RESOURCE_COUNT,
        ensures
            r == res_at(i as nat),
            res_index(r) == i,
    {
        if i == 0 {
            Resource::Food
        } else if i == 1 {
            Resource::Linemate
        } else if i == 2 {
            Resource::Deraumere
        } else if i == 3 {
            Resource::Sibur
        } else if i == 4 {
            Resource::Mendiane
        } else if i == 5 {
            Resource::Phiras
        } else {
            Resource::Thystame
        }
    }

    /// The resource a protocol name designates, if any.
    pub fn from_name(name: &str) -> (r: Option<Resource>)
        ensures
            r == res_from_name(name@),
    {
        let v = crate::text::chars_of(name);
        if crate::text::chars_are(&v, "food") {
            Some(Resource::Food)
        } else if crate::text::chars_are(&v, "linemate") {
            Some(Resource::Linemate)
        } else if crate::text::chars_are(&v, "deraumere") {
            Some(Resource::Deraumere)
        } else if crate::text::chars_are(&v, "sibur") {
            Some(Resource::Sibur)
        } else if crate::text::chars_are(&v, "mendiane") {
            Some(Resource::Mendiane)
        } else if crate::text::chars_are(&v, "phiras") {
            Some(Resource::Phiras)
        } else if crate::text::chars_are(&v, "thystame") {
            Some(Resource::Thystame)
        } else {
            None
        }
    }

    /// Protocol name of this resource.
    pub fn name(self) -> (r: &'static str)
        ensures
            r@ == res_name(self),
    {
        match self {
            Resource::Food => "food",
            Resource::Linemate => "linemate",
            Resource::Deraumere => "deraumere",
            Resource::Sibur => "sibur",
            Resource::Mendiane => "mendiane",
            Resource::Phiras => "phiras",
            Resource::Thystame => "thystame",
        }
    }
}

/// Reading a resource's name back gives the resource.
pub proof fn law_name_from_name(r: Resource)
    ensures
        res_from_name(res_name(r)) == Some(r),
{
    reveal_strlit("food");
    reveal_strlit("linemate");
    reveal_strlit("deraumere");
    reveal_strlit("sibur");
    reveal_strlit("mendiane");
    reveal_strlit("phiras");
    reveal_strlit("thystame");
    assert("food"@[0] == 'f');
    assert("linemate"@[0] == 'l');
    assert("deraumere"@[0] == 'd');
    assert("sibur"@[0] == 's');
    assert("mendiane"@[0] == 'm');
    assert("phiras"@[0] == 'p');
    assert("thystame"@[0] == 't');
}

/// The counter positions and the resources correspond one to one.
pub proof fn law_res_index_roundtrip(r: Resource, i: nat)
    ensures
        res_at(res_index(r)) == r,
        i < RESOURCE_COUNT ==> res_index(res_at(i)) == i,
{
}

/// Whether a tile holds nothing.
pub open spec fn is_empty_tile(t: Tile) -> bool {
    forall|r: int| 0 <= r < RESOURCE_COUNT ==> #[trigger] t.resources@[r] == 0
}

/// One square of the board: a counter per resource.
#[derive(Clone, Copy, Debug)]
pub struct Tile {
    pub resources: [u32; RESOURCE_COUNT],
}

impl Default for Tile {
    fn default() -> (t: Tile)
        ensures
            is_empty_tile(t),
    {
        Tile { resources: [0u32; RESOURCE_COUNT] }
    }
}

impl Tile {
    /// How many units of `res` lie here.
    pub fn count(&self, res: Resource) -> (r: u32)
        ensures
            r == self.resources@[res_index(res) as int],
    {
        self.resources[res.index()]
    }

    /// Drops `n` units of `res` here.
    pub fn add(&mut self, res: Resource, n: u32)
        requires
            old(self).resources@[res_index(res) as int] + n <= u32::MAX,
        ensures
            final(self).resources@ == old(self).resources@.update(
                res_index(res) as int,
                (old(self).resources@[res_index(res) as int] + n) as u32,
            ),
    {
        let i = res.index();
        self.resources[i] = self.resources[i] + n;
    }

    /// Removes `n` units of `res` from here.
    pub fn take(&mut self, res: Resource, n: u32)
        requires
            old(self).resources@[res_index(res) as int] >= n,
        ensures
            final(self).resources@ == old(self).resources@.update(
                res_index(res) as int,
                (old(self).resources@[res_index(res) as int] - n) as u32,
            ),
    {
        let i = res.index();
        self.resources[i] = self.resources[i] - n;
    }

    /// Removes one unit of `res` if there is one; says whether it did.
    pub fn take_one(&mut self, res: Resource) -> (taken: bool)
        ensures
            taken == (old(self).resources@[res_index(res) as int] > 0),
            taken ==> final(self).resources@ == old(self).resources@.update(
                res_index(res) as int,
                (old(self).resources@[res_index(res) as int] - 1) as u32,
            ),
            !taken ==> final(self).resources@ == old(self).resources@,
    {
        let i = res.index();
        if self.resources[i] == 0 {
            return false;
        }
        self.resources[i] = self.resources[i] - 1;
        true
    }
}

/// `|x|`.
pub open spec fn abs_int(x: int) -> int {
    if x < 0 {
        -x
    } else {
        x
    }
}

/// Signed shortest step from `a` to `b` on a ring of `n` cells, in
/// `(-n/2, n/2]`.
pub open spec fn ring_delta_spec(a: int, b: int, n: int) -> int {
    let m = (b - a) % n;
    if m * 2 > n {
        m - n
    } else {
        m
    }
}

/// Signed shortest step from `a` to `b` on a ring of `n` cells, in
/// `(-n/2, n/2]`.
pub fn ring_delta(a: usize, b: usize, n: usize) -> (r: isize)
    requires
        0 < n <= isize::MAX,
        a <= isize::MAX,
        b <= isize::MAX,
    ensures
        r == ring_delta_spec(a as int, b as int, n as int),
{
    let m: usize = if b >= a {
        (b - a) % n
    } else {
        let k = (a - b) % n;
        if k == 0 {
            0
        } else {
            n - k
        }
    };
    proof {
        let ai = a as int;
        let bi = b as int;
        let ni = n as int;
        if b >= a {
            assert((bi - ai) % ni == m);
        } else {
            let k = (ai - bi) % ni;
            assert(0 <= k < ni) by (nonlinear_arith)
                requires
                    ni > 0,
                    k == (ai - bi) % ni,
            ;
            vstd::arithmetic::div_mod::lemma_fundamental_div_mod(ai - bi, ni);
            let q = (ai - bi) / ni;
            assert(ai - bi == ni * q + k);
            if k == 0 {
                assert(bi - ai == ni * (-q)) by (nonlinear_arith)
                    requires
                        ai - bi == ni * q + k,
                        k == 0,
                ;
                vstd::arithmetic::div_mod::lemma_mod_multiples_basic(-q, ni);
                assert((ni * (-q)) % ni == 0) by (nonlinear_arith)
                    requires
                        ((-q) * ni) % ni == 0,
                ;
            } else {
                assert(bi - ai == (-q - 1) * ni + (ni - k)) by (nonlinear_arith)
                    requires
                        ai - bi == ni * q + k,
                ;
                assert(0 <= ni - k < ni);
                vstd::arithmetic::div_mod::lemma_fundamental_div_mod_converse(
                    bi - ai,
                    ni,
                    -q - 1,
                    ni - k,
                );
            }
        }
    }
    if m > n - m {
        (m as isize) - (n as isize)
    } else {
        m as isize
    }
}

/// Cell reached on a ring of `n` cells from the signed coordinate `x`.
pub fn wrap_axis(x: isize, n: usize) -> (r: usize)
    requires
        0 < n <= isize::MAX,
    ensures
        r == x as int % n as int,
        r < n,
{
    if x >= 0 {
        (x as usize) % n
    } else {
        let k = ((-(x + 1)) as usize) % n;
        proof {
            let xi = x as int;
            let ni = n as int;
            let ki = (-(xi + 1)) % ni;
            assert(k == ki);
            vstd::arithmetic::div_mod::lemma_fundamental_div_mod(-(xi + 1), ni);
            let q = (-(xi + 1)) / ni;
            assert(0 <= ki < ni) by (nonlinear_arith)
                requires
                    ni > 0,
                    ki == (-(xi + 1)) % ni,
            ;
            assert(xi == ni * (-q - 1) + (ni - 1 - ki)) by (nonlinear_arith)
                requires
                    -(xi + 1) == ni * q + ki,
            ;
            vstd::arithmetic::div_mod::lemma_fundamental_div_mod_converse(
                xi,
                ni,
                -q - 1,
                ni - 1 - ki,
            );
        }
        n - 1 - k
    }
}

/// Sum of the counters of `res` over the first `k` tiles of `tiles`.
pub open spec fn sum_counts(tiles: Seq<Tile>, res: Resource, k: int) -> nat
    decreases k,
{
    if k <= 0 {
        0
    } else {
        sum_counts(tiles, res, k - 1) + tiles[k - 1].resources@[res_index(res) as int] as nat
    }
}

/// The board: `width * height` tiles stored row by row (`wf`).
pub struct TileMap {
    pub width: usize,
    pub height: usize,
    pub tiles: Vec<Tile>,
}

impl TileMap {
    /// The tiles, row by row.
    pub open spec fn cells(&self) -> Seq<Tile> {
        self.tiles@
    }

    /// The tile store holds exactly one tile per square.
    pub open spec fn wf(&self) -> bool {
        self.cells().len() == self.width * self.height
    }

    /// Position of square `(x, y)` in the tile store.
    pub open spec fn cell_index(&self, x: int, y: int) -> int {
        y * self.width + x
    }

    /// The tile at square `(x, y)`.
    pub open spec fn tile_at(&self, x: int, y: int) -> Tile {
        self.cells()[self.cell_index(x, y)]
    }

    /// An empty board of `width * height` tiles.
    pub fn new(width: usize, height: usize) -> (m: TileMap)
        requires
            width * height <= usize::MAX,
        ensures
            m.wf(),
            m.width == width,
            m.height == height,
            forall|i: int| 0 <= i < width * height ==> is_empty_tile(#[trigger] m.cells()[i]),
    {
        let n = width * height;
        let mut tiles: Vec<Tile> = Vec::new();
        let mut i: usize = 0;
        while i < n
            invariant
                i <= n,
                tiles@.len() == i,
                forall|j: int| 0 <= j < i ==> is_empty_tile(#[trigger] tiles@[j]),
            decreases n - i,
        {
            tiles.push(Tile::default());
            i += 1;
        }
        TileMap { width, height, tiles }
    }

    /// Position of square `(x, y)` in the tile store.
    fn index(&self, x: usize, y: usize) -> (r: usize)
        requires
            y * self.width + x <= usize::MAX,
        ensures
            r == self.cell_index(x as int, y as int),
    {
        y * self.width + x
    }

    /// The square a signed position lands on, the board wrapping around
    /// at its edges.
    pub fn wrap(&self, x: isize, y: isize) -> (r: (usize, usize))
        requires
            0 < self.width <= isize::MAX,
            0 < self.height <= isize::MAX,
        ensures
            r.0 == x as int % self.width as int,
            r.1 == y as int % self.height as int,
            r.0 < self.width,
            r.1 < self.height,
    {
        (wrap_axis(x, self.width), wrap_axis(y, self.height))
    }

    /// Shortest signed offset from `from` to `to` on the torus, each
    /// component in `(-n/2, n/2]`; `(0, 0)` means the same tile.
    pub fn shortest_offset(&self, from: (usize, usize), to: (usize, usize)) -> (r: (isize, isize))
        requires
            0 < self.width <= isize::MAX,
            0 < self.height <= isize::MAX,
            from.0 <= isize::MAX,
            from.1 <= isize::MAX,
            to.0 <= isize::MAX,
            to.1 <= isize::MAX,
        ensures
            r.0 == ring_delta_spec(from.0 as int, to.0 as int, self.width as int),
            r.1 == ring_delta_spec(from.1 as int, to.1 as int, self.height as int),
    {
        (ring_delta(from.0, to.0, self.width), ring_delta(from.1, to.1, self.height))
    }

    /// The tile at square `(x, y)`.
    pub fn tile(&self, x: usize, y: usize) -> (t: &Tile)
        requires
            self.wf(),
            self.cell_index(x as int, y as int) < self.width * self.height,
        ensures
            *t == self.tile_at(x as int, y as int),
    {
        assert(self.tiles@.len() == self.tiles.len());
        let i = self.index(x, y);
        &self.tiles[i]
    }

    /// The tile at square `(x, y)`, for changing it.
    pub fn tile_mut(&mut self, x: usize, y: usize) -> (t: &mut Tile)
        requires
            old(self).wf(),
            old(self).cell_index(x as int, y as int) < old(self).width * old(self).height,
        ensures
            *t == old(self).tile_at(x as int, y as int),
            final(self).width == old(self).width,
            final(self).height == old(self).height,
            final(self).cells() == old(self).cells().update(
                old(self).cell_index(x as int, y as int),
                *final(t),
            ),
    {
        assert(self.tiles@.len() == self.tiles.len());
        let i = self.index(x, y);
        &mut self.tiles[i]
    }

    /// Units of `res` over the whole board, in a type wide enough for any
    /// board that fits in memory.
    pub fn total_wide(&self, res: Resource) -> (r: u128)
        requires
            self.cells().len() <= usize::MAX,
        ensures
            r == sum_counts(self.cells(), res, self.cells().len() as int),
    {
        let mut sum: u128 = 0;
        let mut i: usize = 0;
        while i < self.tiles.len()
            invariant
                i <= self.tiles@.len(),
                self.tiles@ == self.cells(),
                self.cells().len() <= usize::MAX,
                sum == sum_counts(self.cells(), res, i as int),
            decreases self.tiles@.len() - i,
        {
            proof {
                lemma_sum_counts_bound(self.cells(), res, i + 1);
                assert((i + 1) * 0xffff_ffffint <= 0x1_0000_0000_0000_0000 * 0x1_0000_0000int) by (nonlinear_arith)
                    requires
                        i + 1 <= 0x1_0000_0000_0000_0000int;
            }
            sum = sum + self.tiles[i].count(res) as u128;
            i += 1;
        }
        sum
    }

    /// Units of `res` over the whole board.
    pub fn total(&self, res: Resource) -> (r: u32)
        requires
            sum_counts(self.cells(), res, self.cells().len() as int) <= u32::MAX,
        ensures
            r == sum_counts(self.cells(), res, self.cells().len() as int),
    {
        let mut sum: u32 = 0;
        let mut i: usize = 0;
        while i < self.tiles.len()
            invariant
                i <= self.tiles@.len(),
                self.tiles@ == self.cells(),
                sum == sum_counts(self.cells(), res, i as int),
                sum_counts(self.cells(), res, self.cells().len() as int) <= u32::MAX,
            decreases self.tiles@.len() - i,
        {
            proof {
                lemma_sum_counts_monotone(self.cells(), res, i + 1, self.cells().len() as int);
            }
            sum = sum + self.tiles[i].count(res);
            i += 1;
        }
        sum
    }
}

/// A partial sum over `k` tiles is at most `k` full counters.
pub proof fn lemma_sum_counts_bound(tiles: Seq<Tile>, res: Resource, k: int)
    requires
        0 <= k,
    ensures
        sum_counts(tiles, res, k) <= k * 0xffff_ffffint,
    decreases k,
{
    if k > 0 {
        lemma_sum_counts_bound(tiles, res, k - 1);
    }
}

/// Partial sums grow with the number of tiles counted.
pub proof fn lemma_sum_counts_monotone(tiles: Seq<Tile>, res: Resource, j: int, k: int)
    requires
        j <= k,
    ensures
        sum_counts(tiles, res, j) <= sum_counts(tiles, res, k),
    decreases k - j,
{
    if j < k {
        lemma_sum_counts_monotone(tiles, res, j, k - 1);
    }
}


/// The step `ring_delta` gives on a ring of `n` cells lies in `(-n/2, n/2]`,
/// leads from `a` to `b`, and no step `d` leading from `a` to `b` is
/// shorter.
pub proof fn law_ring_delta_shortest(a: int, b: int, n: int, d: int)
    requires
        n > 0,
    ensures
        -n < 2 * ring_delta_spec(a, b, n) <= n,
        (a + ring_delta_spec(a, b, n)) % n == b % n,
        (a + d) % n == b % n ==> abs_int(ring_delta_spec(a, b, n)) <= abs_int(d),
{
    let r = ring_delta_spec(a, b, n);
    let m = (b - a) % n;
    let q = (b - a) / n;
    vstd::arithmetic::div_mod::lemma_fundamental_div_mod(b - a, n);
    assert(a + m == n * (-q) + b) by (nonlinear_arith)
        requires
            b - a == n * q + m;
    vstd::arithmetic::div_mod::lemma_mod_multiples_vanish(-q, b, n);
    assert((a + m) % n == b % n);
    if m * 2 > n {
        assert(a + r == n * (-q - 1) + b) by (nonlinear_arith)
            requires
                b - a == n * q + m,
                r == m - n;
        vstd::arithmetic::div_mod::lemma_mod_multiples_vanish(-q - 1, b, n);
    }
    assert((a + r) % n == b % n);
    if (a + d) % n == b % n {
        vstd::arithmetic::div_mod::lemma_mod_equivalence(a + d, a + r, n);
        vstd::arithmetic::div_mod::lemma_fundamental_div_mod(d - r, n);
        let k = (d - r) / n;
        assert(d == r + n * k);
        assert(abs_int(r) <= abs_int(d)) by (nonlinear_arith)
            requires
                d == r + n * k,
                n > 0,
                -n < 2 * r <= n;
    }
}

/// On the board, the shortest offset from one square to another lies
/// within half the board on each axis, leads from the first square to the
/// second, and is zero exactly from a square to itself.
pub proof fn law_shortest_offset(m: TileMap, from: (usize, usize), to: (usize, usize))
    requires
        from.0 < m.width,
        to.0 < m.width,
        from.1 < m.height,
        to.1 < m.height,
    ensures
        ({
            let w = m.width as int;
            let h = m.height as int;
            let dx = ring_delta_spec(from.0 as int, to.0 as int, w);
            let dy = ring_delta_spec(from.1 as int, to.1 as int, h);
            &&& -w < 2 * dx <= w
            &&& -h < 2 * dy <= h
            &&& (from.0 + dx) % w == to.0
            &&& (from.1 + dy) % h == to.1
            &&& (dx == 0 && dy == 0) == (from == to)
        }),
{
    let w = m.width as int;
    let h = m.height as int;
    law_ring_delta_shortest(from.0 as int, to.0 as int, w, 0);
    law_ring_delta_shortest(from.1 as int, to.1 as int, h, 0);
    vstd::arithmetic::div_mod::lemma_small_mod(to.0 as nat, w as nat);
    vstd::arithmetic::div_mod::lemma_small_mod(to.1 as nat, h as nat);
    vstd::arithmetic::div_mod::lemma_small_mod(from.0 as nat, w as nat);
    vstd::arithmetic::div_mod::lemma_small_mod(from.1 as nat, h as nat);
    if from.0 == to.0 {
        assert((to.0 as int - from.0 as int) % w == 0);
    }
    if from.1 == to.1 {
        assert((to.1 as int - from.1 as int) % h == 0);
    }
}

/// Wrapping on a side of `n` squares (what `wrap` does on each axis) keeps
/// squares already on the board, and going once more around the board
/// lands on the same square.
pub proof fn law_wrap_axis(x: int, k: int, n: int)
    requires
        n > 0,
    ensures
        0 <= x < n ==> x % n == x,
        (x + k * n) % n == x % n,
        0 <= x % n < n,
{
    if 0 <= x < n {
        vstd::arithmetic::div_mod::lemma_small_mod(x as nat, n as nat);
    }
    assert(x + k * n == n * k + x) by (nonlinear_arith);
    vstd::arithmetic::div_mod::lemma_mod_multiples_vanish(k, x, n);
}

} // verus!
