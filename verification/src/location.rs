//! Tile locations on the map pyramid: each layer doubles the resolution of the
//! one above it, so a tile at layer `l` covers four tiles at layer `l + 1`.

use vstd::prelude::*;
use vstd::arithmetic::power2::{pow2, lemma_pow2, lemma_pow2_unfold, lemma_pow2_pos, lemma_pow2_adds};
use vstd::arithmetic::power::lemma_pow0;
use vstd::arithmetic::div_mod::{lemma_div_denominator, lemma_fundamental_div_mod};
use vstd::string::StringExecFns;
use crate::text::{decimal, push_decimal, lemma_decimal_digits, lemma_decimal_injective, lemma_split_at_separator};

verus! {

/// The shallowest layer of the tile pyramid.
pub const MIN_LAYER: u8 = 1;

/// The deepest layer of the tile pyramid.
pub const MAX_LAYER: u8 = 16;

/// Whether `layer` names a layer of the tile pyramid.
pub open spec fn valid_layer(layer: int) -> bool {
    MIN_LAYER <= layer <= MAX_LAYER
}

/// One tile of the map: its column, row and pyramid layer.
#[derive(Default, Hash, Clone, Copy, PartialEq, Eq, Structural, Debug)]
pub struct Location {
    pub x: u16,
    pub y: u16,
    pub layer: u8,
}

/// A coordinate moved from layer `from` to layer `to`: doubled once per layer
/// going deeper, halved (rounding down) once per layer going shallower.
pub open spec fn scale_coord(v: int, from: int, to: int) -> int {
    if from <= to {
        v * pow2((to - from) as nat)
    } else {
        v / (pow2((from - to) as nat) as int)
    }
}

/// The address of the tile service that all tile requests go to.
pub open spec fn tile_server_prefix() -> Seq<char> {
    "https://tiles.dnr.state.mn.us/mapcache/gmaps/compass@mn_google/"@
}

impl Location {
    /// The URL of the PNG image of this tile: the server prefix, then the layer,
    /// the column and the row in decimal, separated by slashes, then `.png`.
    pub open spec fn url(self) -> Seq<char> {
        tile_server_prefix() + decimal(self.layer as nat) + "/"@ + decimal(self.x as nat) + "/"@
            + decimal(self.y as nat) + ".png"@
    }

    /// The human-readable form `Location[x:X, y:Y, layer: L]`.
    pub open spec fn display_text(self) -> Seq<char> {
        "Location[x:"@ + decimal(self.x as nat) + ", y:"@ + decimal(self.y as nat) + ", layer: "@
            + decimal(self.layer as nat) + "]"@
    }

    /// The location at `layer` that corresponds to `self`, as a `Location`.
    pub open spec fn translated_loc(self, layer: int) -> Location {
        Location {
            x: self.translated(layer).0 as u16,
            y: self.translated(layer).1 as u16,
            layer: layer as u8,
        }
    }

    /// The tile that covers `self` (or that `self` covers) at `layer`.
    pub open spec fn translated(self, layer: int) -> (int, int) {
        (scale_coord(self.x as int, self.layer as int, layer),
         scale_coord(self.y as int, self.layer as int, layer))
    }

    /// Moving `self` to `layer` keeps both coordinates within `u16`.
    pub open spec fn fits_at(self, layer: int) -> bool {
        let (x, y) = self.translated(layer);
        x <= u16::MAX && y <= u16::MAX
    }

    /// Makes a location; the layer must lie in the pyramid.
    pub fn new(x: u16, y: u16, layer: u8) -> (loc: Location)
        requires
            valid_layer(layer as int),
        ensures
            loc == (Location { x, y, layer }),
    {
        Location { x, y, layer }
    }

    /// The location at `layer` that corresponds to `self`.
    pub fn translate_layer(&self, layer: u8) -> (loc: Location)
        requires
            valid_layer(layer as int),
            self.fits_at(layer as int),
        ensures
            loc.layer == layer,
            (loc.x as int, loc.y as int) == self.translated(layer as int),
            loc == self.translated_loc(layer as int),
    {
        let mut new = *self;
        if new.layer < layer {
            proof {
                lemma_pow2_zero();
                assert(((new.layer - self.layer) as nat) == 0);
                lemma_scale_up_bound(self.x as int, (layer - self.layer) as nat);
                lemma_scale_up_bound(self.y as int, (layer - self.layer) as nat);
            }
            while new.layer != layer
                invariant
                    self.layer <= new.layer <= layer,
                    new.x == self.x * pow2((new.layer - self.layer) as nat),
                    new.y == self.y * pow2((new.layer - self.layer) as nat),
                    forall|k: nat| k <= (layer - self.layer) ==> #[trigger] (self.x * pow2(k)) <= u16::MAX,
                    forall|k: nat| k <= (layer - self.layer) ==> #[trigger] (self.y * pow2(k)) <= u16::MAX,
                decreases layer - new.layer,
            {
                let ghost k: nat = (new.layer - self.layer + 1) as nat;
                proof {
                    lemma_pow2_unfold(k);
                    assert(self.x * pow2(k) == 2 * (self.x * pow2((k - 1) as nat))) by (nonlinear_arith)
                        requires pow2(k) == 2 * pow2((k - 1) as nat);
                    assert(self.y * pow2(k) == 2 * (self.y * pow2((k - 1) as nat))) by (nonlinear_arith)
                        requires pow2(k) == 2 * pow2((k - 1) as nat);
                    assert(self.x * pow2(k) <= u16::MAX);
                    assert(self.y * pow2(k) <= u16::MAX);
                }
                new.x = new.x * 2;
                new.y = new.y * 2;
                new.layer = new.layer + 1;
            }
        } else if new.layer > layer {
            proof {
                lemma_pow2_zero();
                assert(((self.layer - new.layer) as nat) == 0);
                assert(self.x as int / 1 == self.x);
                assert(self.y as int / 1 == self.y);
            }
            while new.layer != layer
                invariant
                    layer <= new.layer <= self.layer,
                    new.x == self.x as int / (pow2((self.layer - new.layer) as nat) as int),
                    new.y == self.y as int / (pow2((self.layer - new.layer) as nat) as int),
                decreases new.layer - layer,
            {
                let ghost k: nat = (self.layer - new.layer) as nat;
                proof {
                    lemma_pow2_pos(k);
                    lemma_pow2_unfold(k + 1);
                    lemma_div_denominator(self.x as int, pow2(k) as int, 2);
                    lemma_div_denominator(self.y as int, pow2(k) as int, 2);
                }
                new.x = new.x / 2;
                new.y = new.y / 2;
                new.layer = new.layer - 1;
            }
        } else {
            proof {
                lemma_pow2_zero();
                assert(self.x * pow2(0) == self.x * 1);
                assert(self.y * pow2(0) == self.y * 1);
            }
        }
        new
    }

    /// The URL of this tile on the tile server.
    pub fn get_url(&self) -> (url: String)
        ensures
            url@ == self.url(),
    {
        let mut url = String::from_str("https://tiles.dnr.state.mn.us/mapcache/gmaps/compass@mn_google/");
        push_decimal(&mut url, self.layer as u64);
        url.append("/");
        push_decimal(&mut url, self.x as u64);
        url.append("/");
        push_decimal(&mut url, self.y as u64);
        url.append(".png");
        url
    }

    /// The human-readable form of this location.
    pub fn to_display_string(&self) -> (text: String)
        ensures
            text@ == self.display_text(),
    {
        let mut text = String::from_str("Location[x:");
        push_decimal(&mut text, self.x as u64);
        text.append(", y:");
        push_decimal(&mut text, self.y as u64);
        text.append(", layer: ");
        push_decimal(&mut text, self.layer as u64);
        text.append("]");
        text
    }
}

/// Moving a location to its own layer leaves it unchanged.
pub proof fn lemma_translate_same_layer(loc: Location)
    ensures
        loc.fits_at(loc.layer as int),
        loc.translated_loc(loc.layer as int) == loc,
{
    lemma_pow2_zero();
    assert(loc.x * pow2(0) == loc.x * 1);
    assert(loc.y * pow2(0) == loc.y * 1);
}

/// Moving a location to a deeper layer and back to its own layer returns it.
pub proof fn lemma_translate_deeper_and_back(loc: Location, layer: int)
    requires
        valid_layer(layer),
        loc.layer <= layer,
        loc.fits_at(layer),
    ensures
        loc.translated_loc(layer).fits_at(loc.layer as int),
        loc.translated_loc(layer).translated_loc(loc.layer as int) == loc,
{
    let d = (layer - loc.layer) as nat;
    lemma_pow2_pos(d);
    let p = pow2(d) as int;
    assert((loc.x * p) / p == loc.x) by {
        vstd::arithmetic::div_mod::lemma_div_multiples_vanish(loc.x as int, p);
        assert(loc.x * p == p * loc.x) by (nonlinear_arith);
    }
    assert((loc.y * p) / p == loc.y) by {
        vstd::arithmetic::div_mod::lemma_div_multiples_vanish(loc.y as int, p);
        assert(loc.y * p == p * loc.y) by (nonlinear_arith);
    }
    if loc.layer == layer {
        lemma_pow2_zero();
        assert(loc.x * pow2(0) == loc.x * 1);
        assert(loc.y * pow2(0) == loc.y * 1);
    }
}

/// Moving a location in two steps in one direction (first to layer `a`, then
/// on to layer `b`) lands where moving it directly to `b` does.
pub proof fn lemma_translate_compose(loc: Location, a: int, b: int)
    requires
        valid_layer(a),
        valid_layer(b),
        loc.layer <= a <= b || b <= a <= loc.layer,
        loc.fits_at(b),
    ensures
        loc.fits_at(a),
        loc.translated_loc(a).fits_at(b),
        loc.translated_loc(a).translated_loc(b) == loc.translated_loc(b),
{
    if loc.layer <= a && a <= b {
        let d1 = (a - loc.layer) as nat;
        let d2 = (b - a) as nat;
        lemma_pow2_adds(d1, d2);
        lemma_pow2_pos(d1);
        lemma_pow2_pos(d2);
        assert(d1 + d2 == (b - loc.layer) as nat);
        let p1 = pow2(d1) as int;
        let p2 = pow2(d2) as int;
        assert(loc.x * p1 <= loc.x * (p1 * p2)) by (nonlinear_arith)
            requires p1 > 0, p2 >= 1;
        assert(loc.y * p1 <= loc.y * (p1 * p2)) by (nonlinear_arith)
            requires p1 > 0, p2 >= 1;
        assert((loc.x * p1) * p2 == loc.x * (p1 * p2)) by (nonlinear_arith);
        assert((loc.y * p1) * p2 == loc.y * (p1 * p2)) by (nonlinear_arith);
        assert(loc.translated(b) == (loc.x * (p1 * p2), loc.y * (p1 * p2)));
        assert(loc.translated(a) == (loc.x * p1, loc.y * p1));
        assert(loc.fits_at(a));
        let m = loc.translated_loc(a);
        assert(m.x == loc.x * p1);
        assert(m.y == loc.y * p1);
        assert(m.layer == a);
        assert(m.translated(b) == (m.x * p2, m.y * p2));
    } else {
        let d1 = (loc.layer - a) as nat;
        let d2 = (a - b) as nat;
        lemma_pow2_adds(d1, d2);
        lemma_pow2_pos(d1);
        lemma_pow2_pos(d2);
        assert(d1 + d2 == (loc.layer - b) as nat);
        let p1 = pow2(d1) as int;
        let p2 = pow2(d2) as int;
        lemma_div_denominator(loc.x as int, p1, p2);
        lemma_div_denominator(loc.y as int, p1, p2);
        vstd::arithmetic::div_mod::lemma_div_is_ordered_by_denominator(loc.x as int, 1, p1);
        vstd::arithmetic::div_mod::lemma_div_is_ordered_by_denominator(loc.y as int, 1, p1);
        vstd::arithmetic::div_mod::lemma_div_is_ordered_by_denominator(loc.x as int, 1, p2);
        vstd::arithmetic::div_mod::lemma_div_is_ordered_by_denominator(loc.y as int, 1, p2);
        vstd::arithmetic::div_mod::lemma_div_is_ordered_by_denominator(loc.x as int / p1, 1, p2);
        vstd::arithmetic::div_mod::lemma_div_is_ordered_by_denominator(loc.y as int / p1, 1, p2);
        vstd::arithmetic::div_mod::lemma_div_pos_is_pos(loc.x as int, p1);
        vstd::arithmetic::div_mod::lemma_div_pos_is_pos(loc.y as int, p1);
        lemma_pow2_zero();
        assert(loc.x * pow2(0) == loc.x * 1);
        assert(loc.y * pow2(0) == loc.y * 1);
        assert(loc.x as int / 1 == loc.x);
        assert(loc.y as int / 1 == loc.y);
        assert(loc.translated(a) == (loc.x as int / p1, loc.y as int / p1));
        assert(loc.fits_at(a));
        let m = loc.translated_loc(a);
        assert(m.x == loc.x as int / p1);
        assert(m.y == loc.y as int / p1);
        assert(m.layer == a);
        assert((m.x as int / p2) * pow2(0) == (m.x as int / p2) * 1);
        assert((m.y as int / p2) * pow2(0) == (m.y as int / p2) * 1);
        assert(m.x * pow2(0) == m.x * 1);
        assert(m.y * pow2(0) == m.y * 1);
        assert(m.translated(b) == (m.x as int / p2, m.y as int / p2));
        assert(loc.translated(b) == (loc.x as int / (p1 * p2), loc.y as int / (p1 * p2)));
    }
}

/// Moving a location to a shallower layer and back down to its own layer gives
/// the corner of the block of tiles that the shallower tile covers, and that
/// block contains the location.
pub proof fn lemma_translate_shallower_covers(loc: Location, layer: int)
    requires
        valid_layer(layer),
        layer <= loc.layer,
    ensures
        loc.fits_at(layer),
        loc.translated_loc(layer).fits_at(loc.layer as int),
        ({
            let back = loc.translated_loc(layer).translated_loc(loc.layer as int);
            let size = pow2((loc.layer - layer) as nat);
            &&& back.layer == loc.layer
            &&& back.x <= loc.x < back.x + size
            &&& back.y <= loc.y < back.y + size
        }),
{
    let d = (loc.layer - layer) as nat;
    lemma_pow2_pos(d);
    let p = pow2(d) as int;
    lemma_fundamental_div_mod(loc.x as int, p);
    lemma_fundamental_div_mod(loc.y as int, p);
    vstd::arithmetic::div_mod::lemma_mod_bound(loc.x as int, p);
    vstd::arithmetic::div_mod::lemma_mod_bound(loc.y as int, p);
    vstd::arithmetic::div_mod::lemma_div_pos_is_pos(loc.x as int, p);
    vstd::arithmetic::div_mod::lemma_div_pos_is_pos(loc.y as int, p);
    vstd::arithmetic::div_mod::lemma_div_is_ordered_by_denominator(loc.x as int, 1, p);
    vstd::arithmetic::div_mod::lemma_div_is_ordered_by_denominator(loc.y as int, 1, p);
    assert((loc.x as int / p) * p == p * (loc.x as int / p)) by (nonlinear_arith);
    assert((loc.y as int / p) * p == p * (loc.y as int / p)) by (nonlinear_arith);
    if d == 0 {
        lemma_pow2_zero();
        assert(loc.x * pow2(0) == loc.x * 1);
        assert(loc.y * pow2(0) == loc.y * 1);
    }
}

/// The part of the URL of `l` after the server prefix, split at its first slash.
spec fn url_tail(l: Location) -> Seq<char> {
    decimal(l.layer as nat) + seq!['/'] + (decimal(l.x as nat) + seq!['/'] + (decimal(l.y as nat) + ".png"@))
}

proof fn lemma_url_split(l: Location)
    ensures
        l.url() =~= tile_server_prefix() + url_tail(l),
        url_tail(l) =~= l.url().subrange(tile_server_prefix().len() as int, l.url().len() as int),
{
    reveal_strlit("/");
}

/// The tile URL of every location is the server address, then the layer,
/// the column (`x`) and the row (`y`) in decimal, in that order, separated by
/// slashes, then `.png`; the column is always the second number and the
/// row the third, whatever the layer.
pub proof fn lemma_url_fields(l: Location)
    ensures
        l.url() == "https://tiles.dnr.state.mn.us/mapcache/gmaps/compass@mn_google/"@ + decimal(l.layer as nat)
            + "/"@ + decimal(l.x as nat) + "/"@ + decimal(l.y as nat) + ".png"@,
{
}

/// The text of every location names its column after `x:`, its row after
/// `y:` and its layer after `layer: `, whatever the layer.
pub proof fn lemma_display_fields(l: Location)
    ensures
        l.display_text() == "Location[x:"@ + decimal(l.x as nat) + ", y:"@ + decimal(l.y as nat)
            + ", layer: "@ + decimal(l.layer as nat) + "]"@,
{
}

/// Distinct locations have distinct tile URLs.
pub proof fn lemma_url_injective(a: Location, b: Location)
    ensures
        a.url() == b.url() <==> a == b,
{
    if a.url() == b.url() {
        lemma_url_split(a);
        lemma_url_split(b);
        assert(url_tail(a) == url_tail(b));
        lemma_decimal_digits(a.layer as nat);
        lemma_decimal_digits(b.layer as nat);
        lemma_decimal_digits(a.x as nat);
        lemma_decimal_digits(b.x as nat);
        lemma_split_at_separator(
            decimal(a.layer as nat),
            decimal(a.x as nat) + seq!['/'] + (decimal(a.y as nat) + ".png"@),
            decimal(b.layer as nat),
            decimal(b.x as nat) + seq!['/'] + (decimal(b.y as nat) + ".png"@),
            '/',
        );
        lemma_split_at_separator(
            decimal(a.x as nat),
            decimal(a.y as nat) + ".png"@,
            decimal(b.x as nat),
            decimal(b.y as nat) + ".png"@,
            '/',
        );
        let ya = decimal(a.y as nat) + ".png"@;
        let yb = decimal(b.y as nat) + ".png"@;
        assert(ya == yb);
        assert(decimal(a.y as nat) =~= ya.subrange(0, ya.len() - ".png"@.len()));
        assert(decimal(b.y as nat) =~= yb.subrange(0, yb.len() - ".png"@.len()));
        lemma_decimal_injective(a.layer as nat, b.layer as nat);
        lemma_decimal_injective(a.x as nat, b.x as nat);
        lemma_decimal_injective(a.y as nat, b.y as nat);
    }
}

/// Two to the power zero is one.
proof fn lemma_pow2_zero()
    ensures
        pow2(0) == 1,
{
    lemma_pow2(0);
    lemma_pow0(2);
}

/// If `v * 2^n` fits, so does `v * 2^k` for every `k <= n`.
proof fn lemma_scale_up_bound(v: int, n: nat)
    requires
        v >= 0,
        v * pow2(n) <= u16::MAX,
    ensures
        forall|k: nat| k <= n ==> #[trigger] (v * pow2(k)) <= u16::MAX,
{
    assert forall|k: nat| k <= n implies #[trigger] (v * pow2(k)) <= u16::MAX by {
        lemma_pow2_adds(k, (n - k) as nat);
        lemma_pow2_pos((n - k) as nat);
        lemma_pow2_pos(k);
        assert(v * pow2(k) <= v * (pow2(k) * pow2((n - k) as nat))) by (nonlinear_arith)
            requires v >= 0, pow2(k) > 0, pow2((n - k) as nat) >= 1;
        assert(k + (n - k) == n);
    }
}


/// A rectangle of tiles of one layer, walked row by row from its top-left
/// tile; `idx` counts the tiles handed out so far.
#[derive(Copy, Clone)]
pub struct MapRectView {
    top_l: Location,
    width: u16,
    height: u16,
    idx: u32,
}

impl MapRectView {
    /// The top-left tile of the rectangle.
    pub closed spec fn top_left(self) -> Location {
        self.top_l
    }

    /// The number of tiles in each row.
    pub closed spec fn columns(self) -> nat {
        self.width as nat
    }

    /// The number of rows.
    pub closed spec fn rows(self) -> nat {
        self.height as nat
    }

    /// How many tiles of the walk have been handed out.
    pub closed spec fn position(self) -> nat {
        self.idx as nat
    }

    /// The number of tiles in the rectangle.
    pub open spec fn total(self) -> nat {
        self.columns() * self.rows()
    }

    /// Width and height are 16-bit.
    pub proof fn lemma_size_bounds(self)
        ensures
            self.columns() <= u16::MAX,
            self.rows() <= u16::MAX,
    {
    }

    /// The view after one call of `next`: one tile further on, unless the
    /// walk is over.
    pub closed spec fn stepped(self) -> MapRectView {
        if self.position() < self.total() {
            MapRectView { idx: (self.idx + 1) as u32, ..self }
        } else {
            self
        }
    }

    /// The view after `n` calls of `next`.
    pub open spec fn advanced(self, n: nat) -> MapRectView
        decreases n,
    {
        if n == 0 {
            self
        } else {
            self.advanced((n - 1) as nat).stepped()
        }
    }

    /// A call of `next` keeps the rectangle and moves the walk one tile on,
    /// up to its end.
    pub proof fn lemma_stepped(self)
        ensures
            self.stepped().top_left() == self.top_left(),
            self.stepped().columns() == self.columns(),
            self.stepped().rows() == self.rows(),
            self.stepped().position() == if self.position() < self.total() {
                self.position() + 1
            } else {
                self.position()
            },
    {
        if self.position() < self.total() {
            assert(self.idx < self.width as int * self.height as int);
            assert(self.width as int * self.height as int <= 65535 * 65535) by (nonlinear_arith)
                requires self.height <= 65535, self.width <= 65535;
        }
    }

    /// Any number of calls of `next` keeps the rectangle, its width and its
    /// height: the walk only moves on, and stops at its end.
    pub proof fn lemma_walk_keeps_rectangle(self, n: nat)
        ensures
            self.advanced(n).top_left() == self.top_left(),
            self.advanced(n).columns() == self.columns(),
            self.advanced(n).rows() == self.rows(),
            self.advanced(n).position() == if self.position() + n <= self.total() {
                self.position() + n
            } else if self.position() <= self.total() {
                self.total()
            } else {
                self.position()
            },
        decreases n,
    {
        if n > 0 {
            self.lemma_walk_keeps_rectangle((n - 1) as nat);
            self.advanced((n - 1) as nat).lemma_stepped();
        }
    }

    /// The number of tiles that the walk has still to hand out.
    pub open spec fn remaining(self) -> nat {
        if self.position() < self.total() {
            (self.total() - self.position()) as nat
        } else {
            0
        }
    }

    /// The `i`-th tile of the walk: rows top to bottom, each row left to right.
    pub open spec fn location_at(self, i: int) -> Location {
        Location {
            x: (self.top_left().x + i % (self.columns() as int)) as u16,
            y: (self.top_left().y + i / (self.columns() as int)) as u16,
            layer: self.top_left().layer,
        }
    }

    /// The `i`-th tile of the walk has coordinates within `u16`.
    pub open spec fn fits_at(self, i: int) -> bool {
        &&& self.top_left().x + i % (self.columns() as int) <= u16::MAX
        &&& self.top_left().y + i / (self.columns() as int) <= u16::MAX
    }

    /// Every tile of the rectangle has coordinates within `u16`.
    pub open spec fn fits(self) -> bool {
        self.total() > 0 ==> {
            &&& self.top_left().x + self.columns() - 1 <= u16::MAX
            &&& self.top_left().y + self.rows() - 1 <= u16::MAX
        }
    }

    /// A walk over the `width` by `height` rectangle whose top-left tile is `top_l`.
    pub fn new(top_l: Location, width: u16, height: u16) -> (view: MapRectView)
        ensures
            view.top_left() == top_l,
            view.columns() == width,
            view.rows() == height,
            view.position() == 0,
    {
        MapRectView { top_l, width, height, idx: 0 }
    }

    /// The walk over the square of side `2 * radius + 1` centred on `center`.
    pub fn around(center: Location, radius: u8) -> (view: MapRectView)
        requires
            valid_layer(center.layer as int),
            center.x >= radius,
            center.y >= radius,
        ensures
            view.top_left() == (Location {
                x: (center.x - radius) as u16,
                y: (center.y - radius) as u16,
                layer: center.layer,
            }),
            view.columns() == 2 * radius + 1,
            view.rows() == 2 * radius + 1,
            view.position() == 0,
            view.location_at(radius * (2 * radius + 1) + radius) == center,
    {
        let radius = radius as u16;
        let top_l = Location::new(center.x - radius, center.y - radius, center.layer);
        let side = (radius * 2) + 1;
        let view = MapRectView::new(top_l, side, side);
        proof {
            let w = side as int;
            let i = radius * w + radius;
            vstd::arithmetic::div_mod::lemma_fundamental_div_mod_converse(i, w, radius as int, radius as int);
        }
        view
    }

    /// The number of tiles in each row.
    pub fn width(&self) -> (w: u16)
        ensures
            w == self.columns(),
    {
        self.width
    }

    /// The number of rows.
    pub fn height(&self) -> (h: u16)
        ensures
            h == self.rows(),
    {
        self.height
    }

    /// The number of tiles in the rectangle.
    pub fn num_imgs(&self) -> (n: u32)
        ensures
            n == self.total(),
    {
        proof {
            assert(self.height as int * self.width as int <= 65535 * 65535) by (nonlinear_arith)
                requires self.height <= 65535, self.width <= 65535;
            assert(self.height as int * self.width as int == self.width as int * self.height as int) by (nonlinear_arith);
        }
        self.height() as u32 * self.width() as u32
    }

    /// Hands out the next tile of the walk, or `None` once all have been.
    pub fn next(&mut self) -> (item: Option<Location>)
        requires
            old(self).position() < old(self).total() ==> old(self).fits_at(old(self).position() as int),
        ensures
            final(self).top_left() == old(self).top_left(),
            final(self).columns() == old(self).columns(),
            final(self).rows() == old(self).rows(),
            old(self).position() < old(self).total() ==> {
                &&& item == Some(old(self).location_at(old(self).position() as int))
                &&& final(self).position() == old(self).position() + 1
            },
            old(self).position() >= old(self).total() ==> {
                &&& item.is_none()
                &&& final(self).position() == old(self).position()
            },
            *final(self) == old(self).stepped(),
    {
        proof {
            assert(self.width as int * self.height as int <= 65535 * 65535) by (nonlinear_arith)
                requires self.height <= 65535, self.width <= 65535;
        }
        if self.idx >= self.width as u32 * self.height as u32 {
            None
        } else {
            proof {
                if self.width == 0 {
                    assert(self.width as int * self.height as int == 0);
                }
            }
            let dx = (self.idx % self.width as u32) as u16;
            let dy = (self.idx / self.width as u32) as u16;
            let l = Location {
                x: self.top_l.x + dx,
                y: self.top_l.y + dy,
                layer: self.top_l.layer,
            };
            self.idx = self.idx + 1;
            Some(l)
        }
    }

    /// Walks the rest of the rectangle and returns how many tiles it handed out.
    pub fn count(self) -> (n: usize)
        requires
            self.position() < self.total() ==> self.fits(),
        ensures
            n == self.remaining(),
    {
        let mut walk = self;
        let mut n: usize = 0;
        loop
            invariant
                walk.top_left() == self.top_left(),
                walk.columns() == self.columns(),
                walk.rows() == self.rows(),
                self.position() <= walk.position(),
                self.position() < self.total() ==> walk.position() <= self.total(),
                self.position() >= self.total() ==> walk.position() == self.position(),
                n + walk.remaining() == self.remaining(),
                self.position() < self.total() ==> self.fits(),
            ensures
                n == self.remaining(),
            decreases walk.remaining(),
        {
            proof {
                if walk.position() < walk.total() {
                    walk.lemma_fits_at(walk.position() as int);
                }
            }
            match walk.next() {
                Some(_) => {
                    n = n + 1;
                },
                None => {
                    break;
                },
            }
        }
        n
    }

    /// The walk hands out each tile of the rectangle exactly once, row by row:
    /// every step gives a tile of the rectangle, the tile `dx` columns right of
    /// and `dy` rows below the top-left one is given at step `dy * width + dx`,
    /// and no two steps give the same tile.
    pub proof fn lemma_walk_covers_rectangle(self)
        requires
            self.fits(),
        ensures
            forall|i: int|
                0 <= i < self.total() ==> {
                    let l = #[trigger] self.location_at(i);
                    &&& l.layer == self.top_left().layer
                    &&& self.top_left().x <= l.x < self.top_left().x + self.columns()
                    &&& self.top_left().y <= l.y < self.top_left().y + self.rows()
                },
            forall|dx: int, dy: int|
                0 <= dx < self.columns() && 0 <= dy < self.rows() ==> #[trigger] self.location_at(
                    self.step_of(dx, dy),
                ) == (Location {
                    x: (self.top_left().x + dx) as u16,
                    y: (self.top_left().y + dy) as u16,
                    layer: self.top_left().layer,
                }),
            forall|i: int, j: int|
                0 <= i < self.total() && 0 <= j < self.total() && i != j ==> #[trigger] self.location_at(i)
                    != #[trigger] self.location_at(j),
            forall|i: int, j: int|
                0 <= i < j < self.total() ==> {
                    let a = #[trigger] self.location_at(i);
                    let b = #[trigger] self.location_at(j);
                    a.y < b.y || (a.y == b.y && a.x < b.x)
                },
    {
        let w = self.columns() as int;
        let h = self.rows() as int;
        assert forall|i: int| 0 <= i < self.total() implies {
            let l = #[trigger] self.location_at(i);
            &&& l.layer == self.top_left().layer
            &&& self.top_left().x <= l.x < self.top_left().x + self.columns()
            &&& self.top_left().y <= l.y < self.top_left().y + self.rows()
        } by {
            self.lemma_fits_at(i);
            self.lemma_step_bounds(i);
        }
        assert forall|dx: int, dy: int| 0 <= dx < self.columns() && 0 <= dy < self.rows() implies #[trigger] self.location_at(
            self.step_of(dx, dy),
        ) == (Location {
            x: (self.top_left().x + dx) as u16,
            y: (self.top_left().y + dy) as u16,
            layer: self.top_left().layer,
        }) by {
            vstd::arithmetic::div_mod::lemma_fundamental_div_mod_converse(dy * w + dx, w, dy, dx);
        }
        assert forall|i: int, j: int| 0 <= i < self.total() && 0 <= j < self.total() && i != j implies #[trigger] self.location_at(i)
            != #[trigger] self.location_at(j) by {
            self.lemma_fits_at(i);
            self.lemma_fits_at(j);
            self.lemma_step_bounds(i);
            self.lemma_step_bounds(j);
            vstd::arithmetic::div_mod::lemma_fundamental_div_mod(i, w);
            vstd::arithmetic::div_mod::lemma_fundamental_div_mod(j, w);
            if self.location_at(i) == self.location_at(j) {
                assert(i % w == j % w);
                assert(i / w == j / w);
                assert(w * (i / w) == w * (j / w));
            }
        }
        assert forall|i: int, j: int| 0 <= i < j < self.total() implies {
            let a = #[trigger] self.location_at(i);
            let b = #[trigger] self.location_at(j);
            a.y < b.y || (a.y == b.y && a.x < b.x)
        } by {
            self.lemma_fits_at(i);
            self.lemma_fits_at(j);
            self.lemma_step_bounds(i);
            self.lemma_step_bounds(j);
            vstd::arithmetic::div_mod::lemma_fundamental_div_mod(i, w);
            vstd::arithmetic::div_mod::lemma_fundamental_div_mod(j, w);
            if i / w > j / w {
                assert(w * (i / w) >= w * (j / w) + w) by (nonlinear_arith)
                    requires i / w > j / w, w > 0;
            }
            if i / w == j / w {
                assert(w * (i / w) == w * (j / w));
            }
        }
    }

    /// A fresh walk hands out exactly `num_imgs` tiles: as many as the
    /// rectangle holds.
    pub proof fn lemma_fresh_walk_count(self)
        requires
            self.position() == 0,
        ensures
            self.remaining() == self.total(),
    {
    }

    /// The step of the walk at which the tile `dx` columns right of and `dy`
    /// rows below the top-left one is handed out.
    pub open spec fn step_of(self, dx: int, dy: int) -> int {
        dy * (self.columns() as int) + dx
    }

    /// Column and row offsets of a step of the walk lie within the rectangle.
    proof fn lemma_step_bounds(self, i: int)
        requires
            0 <= i < self.total(),
        ensures
            self.columns() > 0,
            0 <= i % (self.columns() as int) < self.columns(),
            0 <= i / (self.columns() as int) < self.rows(),
    {
        let w = self.columns() as int;
        let h = self.rows() as int;
        if w == 0 {
            assert(w * h == 0);
        }
        vstd::arithmetic::div_mod::lemma_mod_bound(i, w);
        vstd::arithmetic::div_mod::lemma_div_pos_is_pos(i, w);
        vstd::arithmetic::div_mod::lemma_fundamental_div_mod(i, w);
        if i / w >= h {
            assert(w * (i / w) >= w * h) by (nonlinear_arith)
                requires i / w >= h, w > 0;
        }
    }

    /// Walks the rest of the rectangle, handing out tile after tile with
    /// `next` until it gives `None`, and returns the tiles in that order. The
    /// rectangle and its size stay as they were; the walk ends exhausted.
    pub fn collect_locations(&mut self) -> (tiles: Vec<Location>)
        requires
            old(self).position() < old(self).total() ==> old(self).fits(),
        ensures
            final(self).top_left() == old(self).top_left(),
            final(self).columns() == old(self).columns(),
            final(self).rows() == old(self).rows(),
            final(self).remaining() == 0,
            tiles@.len() == old(self).remaining(),
            forall|i: int|
                0 <= i < tiles@.len() ==> #[trigger] tiles@[i] == old(self).location_at(old(self).position() + i),
    {
        let ghost start = *self;
        let mut tiles: Vec<Location> = Vec::new();
        loop
            invariant
                self.top_left() == start.top_left(),
                self.columns() == start.columns(),
                self.rows() == start.rows(),
                start.position() <= self.position(),
                start.position() < start.total() ==> self.position() <= start.total(),
                start.position() >= start.total() ==> self.position() == start.position(),
                tiles@.len() + self.remaining() == start.remaining(),
                tiles@.len() == self.position() - start.position(),
                start.position() < start.total() ==> start.fits(),
                forall|i: int|
                    0 <= i < tiles@.len() ==> #[trigger] tiles@[i] == start.location_at(start.position() + i),
            ensures
                self.top_left() == start.top_left(),
                self.columns() == start.columns(),
                self.rows() == start.rows(),
                self.remaining() == 0,
                tiles@.len() == start.remaining(),
                forall|i: int|
                    0 <= i < tiles@.len() ==> #[trigger] tiles@[i] == start.location_at(start.position() + i),
            decreases self.remaining(),
        {
            proof {
                if self.position() < self.total() {
                    self.lemma_fits_at(self.position() as int);
                }
            }
            match self.next() {
                Some(l) => {
                    tiles.push(l);
                },
                None => {
                    break;
                },
            }
        }
        tiles
    }

    /// Every tile of a rectangle whose tiles fit in `u16` fits.
    proof fn lemma_fits_at(self, i: int)
        requires
            self.fits(),
            0 <= i < self.total(),
        ensures
            self.fits_at(i),
    {
        let w = self.columns() as int;
        let h = self.rows() as int;
        if w == 0 {
            assert(w * h == 0);
        }
        vstd::arithmetic::div_mod::lemma_mod_bound(i, w);
        vstd::arithmetic::div_mod::lemma_div_pos_is_pos(i, w);
        assert(i / w < h) by {
            vstd::arithmetic::div_mod::lemma_fundamental_div_mod(i, w);
            vstd::arithmetic::div_mod::lemma_mod_bound(i, w);
            if i / w >= h {
                assert(w * (i / w) >= w * h) by (nonlinear_arith)
                    requires i / w >= h, w > 0;
            }
        }
    }
}


#[verifier::external_type_specification]
#[verifier::external_body]
pub struct ExReqwestError(reqwest::Error);

/// Why fetching a tile failed: the HTTP client failed, or the server answered
/// with a status other than 200 (OK).
#[derive(Debug)]
pub enum LocationError {
    ReqwestErr(reqwest::Error),
    ResponceCode(u16),
}

impl From<u16> for LocationError {
    fn from(value: u16) -> (err: LocationError) {
        LocationError::ResponceCode(value)
    }
}

impl vstd::std_specs::convert::FromSpecImpl<u16> for LocationError {
    open spec fn obeys_from_spec() -> bool {
        true
    }

    open spec fn from_spec(v: u16) -> LocationError {
        LocationError::ResponceCode(v)
    }
}

impl From<reqwest::Error> for LocationError {
    fn from(value: reqwest::Error) -> (err: LocationError) {
        LocationError::ReqwestErr(value)
    }
}

impl vstd::std_specs::convert::FromSpecImpl<reqwest::Error> for LocationError {
    open spec fn obeys_from_spec() -> bool {
        true
    }

    open spec fn from_spec(v: reqwest::Error) -> LocationError {
        LocationError::ReqwestErr(v)
    }
}

/// The HTTP status of a successful tile response.
pub const STATUS_OK: u16 = 200;

/// What a tile response with HTTP status `status` means: go on and read the
/// body when it is 200 (OK); otherwise the request failed with that status.
pub fn check_status(status: u16) -> (r: Result<(), LocationError>)
    ensures
        status == STATUS_OK ==> r == Ok::<(), LocationError>(()),
        status != STATUS_OK ==> r == Err::<(), LocationError>(LocationError::ResponceCode(status)),
{
    match status {
        200 => Ok(()),
        value => Err(LocationError::from(value)),
    }
}

} // verus!
