//! The geohash codec: coordinates to base-32 cell keys, and cell adjacency.
//!
//! Coordinates are fixed-point integers in units of 10^-7 degree, so that the
//! bisection that defines a geohash is carried out exactly.
use vstd::prelude::*;

use crate::text::push_char;
use vstd::arithmetic::power2::{lemma_pow2_pos, lemma_pow2_unfold, pow2};
use vstd::string::*;

verus! {

/// Units of a fixed-point coordinate per degree.
pub const UNITS_PER_DEGREE: i64 = 10_000_000;

/// Largest latitude, in fixed-point units.
pub const MAX_LAT: i64 = 900_000_000;

/// Largest longitude, in fixed-point units.
pub const MAX_LON: i64 = 1_800_000_000;

/// Width of the latitude range [-90, 90], in fixed-point units.
pub const LAT_SPAN: u64 = 1_800_000_000;

/// Width of the longitude range [-180, 180], in fixed-point units.
pub const LON_SPAN: u64 = 3_600_000_000;

/// Reasons for which a coordinate or a waypoint is refused.
#[derive(Clone, Copy, Debug, PartialEq, Eq, Structural)]
pub enum GeoError {
    /// Latitude outside [-90, 90] or longitude outside [-180, 180].
    InvalidCoordinate,
    /// A waypoint index that the dataset does not hold.
    WaypointNotFound,
}

/// A compass direction in which a neighbouring cell lies.
#[derive(Clone, Copy, Debug, PartialEq, Eq, Structural)]
pub enum Direction {
    North,
    East,
    South,
    West,
}

pub open spec fn opposite(d: Direction) -> Direction {
    match d {
        Direction::North => Direction::South,
        Direction::East => Direction::West,
        Direction::South => Direction::North,
        Direction::West => Direction::East,
    }
}

/// The geohash alphabet, in order of value.
pub open spec fn alphabet() -> Seq<char> {
    seq!['0', '1', '2', '3', '4', '5', '6', '7', '8', '9', 'b', 'c', 'd', 'e', 'f', 'g', 'h', 'j',
        'k', 'm', 'n', 'p', 'q', 'r', 's', 't', 'u', 'v', 'w', 'x', 'y', 'z']
}

/// The character of the geohash alphabet with value `v` (0 to 31).
pub open spec fn base32(v: int) -> char {
    alphabet()[v]
}

/// Whether `c` belongs to the geohash alphabet "0123456789bcdefghjkmnpqrstuvwxyz".
pub open spec fn is_base32(c: char) -> bool {
    alphabet().contains(c)
}

/// A geohash key: every character is in the geohash alphabet.
pub open spec fn is_geohash(s: Seq<char>) -> bool {
    forall|i: int| 0 <= i < s.len() ==> is_base32(#[trigger] s[i])
}

fn base32_char(v: usize) -> (c: char)
    requires
        v < 32,
    ensures
        c == base32(v as int),
{
    match v {
        0 => '0', 1 => '1', 2 => '2', 3 => '3', 4 => '4', 5 => '5', 6 => '6', 7 => '7',
        8 => '8', 9 => '9', 10 => 'b', 11 => 'c', 12 => 'd', 13 => 'e', 14 => 'f', 15 => 'g',
        16 => 'h', 17 => 'j', 18 => 'k', 19 => 'm', 20 => 'n', 21 => 'p', 22 => 'q', 23 => 'r',
        24 => 's', 25 => 't', 26 => 'u', 27 => 'v', 28 => 'w', 29 => 'x', 30 => 'y', _ => 'z',
    }
}

// ---------------------------------------------------------------- encoding

/// One bisection of an axis. `r` is the coordinate's offset from the lower
/// bound of the current cell, scaled so that the cell is `span` wide; the
/// coordinate lies above the midpoint exactly when `2 * r > span`. Returns the
/// bit and the offset within the chosen half, scaled the same way.
pub open spec fn bisect(r: int, span: int) -> (bool, int) {
    if 2 * r > span {
        (true, 2 * r - span)
    } else {
        (false, 2 * r)
    }
}

/// Takes `n` more bits, alternating between longitude and latitude, into the
/// accumulator `acc`; returns the accumulated value and the state after it.
pub open spec fn take_bits(rlon: int, rlat: int, lon_turn: bool, n: nat, acc: int) -> (
    int,
    int,
    int,
    bool,
)
    decreases n,
{
    if n == 0 {
        (acc, rlon, rlat, lon_turn)
    } else if lon_turn {
        let (b, r) = bisect(rlon, LON_SPAN as int);
        take_bits(r, rlat, false, (n - 1) as nat, 2 * acc + if b { 1int } else { 0int })
    } else {
        let (b, r) = bisect(rlat, LAT_SPAN as int);
        take_bits(rlon, r, true, (n - 1) as nat, 2 * acc + if b { 1int } else { 0int })
    }
}

/// The next `p` geohash characters from a bisection state: each character
/// encodes five bits, most significant first.
pub open spec fn geohash_from(rlon: int, rlat: int, lon_turn: bool, p: nat) -> Seq<char>
    decreases p,
{
    if p == 0 {
        Seq::empty()
    } else {
        let (v, rlon2, rlat2, turn2) = take_bits(rlon, rlat, lon_turn, 5, 0);
        seq![base32(v)] + geohash_from(rlon2, rlat2, turn2, (p - 1) as nat)
    }
}

/// The geohash of precision `p` of a point: bisection of [-180, 180] and
/// [-90, 90] starting with longitude.
pub open spec fn geohash_of(lat: int, lon: int, p: nat) -> Seq<char> {
    geohash_from(lon + MAX_LON, lat + MAX_LAT, true, p)
}

pub open spec fn valid_coordinate(lat: int, lon: int) -> bool {
    -MAX_LAT <= lat <= MAX_LAT && -MAX_LON <= lon <= MAX_LON
}

proof fn lemma_take_bits_value(rlon: int, rlat: int, lon_turn: bool, n: nat, acc: int)
    requires
        0 <= acc,
    ensures
        0 <= take_bits(rlon, rlat, lon_turn, n, acc).0 < (acc + 1) * pow2(n),
    decreases n,
{
    lemma_pow2_pos(n);
    if n > 0 {
        let r = if lon_turn {
            bisect(rlon, LON_SPAN as int)
        } else {
            bisect(rlat, LAT_SPAN as int)
        };
        let acc2 = 2 * acc + if r.0 { 1int } else { 0int };
        if lon_turn {
            lemma_take_bits_value(r.1, rlat, false, (n - 1) as nat, acc2);
        } else {
            lemma_take_bits_value(rlon, r.1, true, (n - 1) as nat, acc2);
        }
        lemma_pow2_unfold(n);
        lemma_pow2_pos((n - 1) as nat);
        assert((acc2 + 1) * pow2((n - 1) as nat) <= (2 * acc + 2) * pow2((n - 1) as nat)) by
            (nonlinear_arith)
            requires
                acc2 + 1 <= 2 * acc + 2,
                pow2((n - 1) as nat) > 0,
        ;
        assert((2 * acc + 2) * pow2((n - 1) as nat) == (acc + 1) * (2 * pow2((n - 1) as nat))) by
            (nonlinear_arith);
    } else {
        assert(pow2(0) == 1) by {
            vstd::arithmetic::power2::lemma2_to64();
        }
    }
}

proof fn lemma_geohash_from_chars(rlon: int, rlat: int, lon_turn: bool, p: nat)
    ensures
        is_geohash(geohash_from(rlon, rlat, lon_turn, p)),
        geohash_from(rlon, rlat, lon_turn, p).len() == p,
    decreases p,
{
    if p > 0 {
        let (v, rlon2, rlat2, turn2) = take_bits(rlon, rlat, lon_turn, 5, 0);
        lemma_take_bits_value(rlon, rlat, lon_turn, 5, 0);
        vstd::arithmetic::power2::lemma2_to64();
        lemma_geohash_from_chars(rlon2, rlat2, turn2, (p - 1) as nat);
        let g = geohash_from(rlon, rlat, lon_turn, p);
        let tail = geohash_from(rlon2, rlat2, turn2, (p - 1) as nat);
        assert(alphabet().contains(base32(v))) by {
            assert(alphabet()[v] == base32(v));
        }
        assert forall|i: int| 0 <= i < g.len() implies is_base32(#[trigger] g[i]) by {
            if i > 0 {
                assert(g[i] == tail[i - 1]);
            }
        }
    }
}

/// A geohash of precision `p` has `p` characters, all in the alphabet.
pub proof fn lemma_geohash_of_is_geohash(lat: int, lon: int, p: nat)
    ensures
        is_geohash(geohash_of(lat, lon, p)),
        geohash_of(lat, lon, p).len() == p,
{
    lemma_geohash_from_chars(lon + MAX_LON, lat + MAX_LAT, true, p);
}

/// Encodes a point given in fixed-point units (10^-7 degree) as a geohash of
/// `precision` characters.
pub fn encode(lat: i64, lon: i64, precision: usize) -> (r: Result<String, GeoError>)
    ensures
        valid_coordinate(lat as int, lon as int) ==> r is Ok && r->Ok_0@ == geohash_of(
            lat as int,
            lon as int,
            precision as nat,
        ),
        !valid_coordinate(lat as int, lon as int) ==> r == Err::<String, GeoError>(
            GeoError::InvalidCoordinate,
        ),
{
    if lat < -MAX_LAT || lat > MAX_LAT || lon < -MAX_LON || lon > MAX_LON {
        return Err(GeoError::InvalidCoordinate);
    }
    let mut geohash = String::new();
    let mut rlon: u64 = (lon + MAX_LON) as u64;
    let mut rlat: u64 = (lat + MAX_LAT) as u64;
    let mut lon_turn = true;
    let mut i: usize = 0;
    while i < precision
        invariant
            i <= precision,
            rlon <= LON_SPAN,
            rlat <= LAT_SPAN,
            geohash@.len() == i,
            geohash@ + geohash_from(rlon as int, rlat as int, lon_turn, (precision - i) as nat)
                == geohash_of(lat as int, lon as int, precision as nat),
        decreases precision - i,
    {
        let ghost start = (rlon as int, rlat as int, lon_turn);
        let mut bits: usize = 0;
        let mut bit: usize = 0;
        while bit < 5
            invariant
                bit <= 5,
                rlon <= LON_SPAN,
                rlat <= LAT_SPAN,
                bit == 0 ==> bits < 1,
                bit == 1 ==> bits < 2,
                bit == 2 ==> bits < 4,
                bit == 3 ==> bits < 8,
                bit == 4 ==> bits < 16,
                bit == 5 ==> bits < 32,
                take_bits(rlon as int, rlat as int, lon_turn, (5 - bit) as nat, bits as int)
                    == take_bits(start.0, start.1, start.2, 5, 0),
            decreases 5 - bit,
        {
            let b: bool;
            if lon_turn {
                if 2 * rlon > LON_SPAN {
                    b = true;
                    rlon = 2 * rlon - LON_SPAN;
                } else {
                    b = false;
                    rlon = 2 * rlon;
                }
            } else {
                if 2 * rlat > LAT_SPAN {
                    b = true;
                    rlat = 2 * rlat - LAT_SPAN;
                } else {
                    b = false;
                    rlat = 2 * rlat;
                }
            }
            bits = 2 * bits + if b { 1usize } else { 0usize };
            bit = bit + 1;
            lon_turn = !lon_turn;
        }
        proof {
            reveal_with_fuel(take_bits, 1);
            let ghost tail = geohash_from(rlon as int, rlat as int, lon_turn,
                (precision - i - 1) as nat);
            assert(geohash_from(start.0, start.1, start.2, (precision - i) as nat)
                == seq![base32(bits as int)] + tail);
            assert(geohash@.push(base32(bits as int)) + tail =~= geohash@ + (seq![base32(bits as
                int)] + tail));
        }
        push_char(&mut geohash, base32_char(bits));
        i = i + 1;
    }
    assert(geohash@ + geohash_from(rlon as int, rlat as int, lon_turn, 0) =~= geohash@);
    Ok(geohash)
}

// ---------------------------------------------------------------- adjacency

/// The four lookup tables of the neighbour algorithm, named after the
/// direction in which a cell of even length uses them. A cell of odd length
/// is transposed: it uses the East table to go North, and so on.
#[derive(Clone, Copy, Debug, PartialEq, Eq, Structural)]
pub enum ShiftTable {
    EvenNorth,
    EvenEast,
    EvenSouth,
    EvenWest,
}

/// The table that a cell whose key has `len` characters uses for `d`.
pub open spec fn table_for(d: Direction, len: nat) -> ShiftTable {
    if len % 2 == 0 {
        match d {
            Direction::North => ShiftTable::EvenNorth,
            Direction::East => ShiftTable::EvenEast,
            Direction::South => ShiftTable::EvenSouth,
            Direction::West => ShiftTable::EvenWest,
        }
    } else {
        match d {
            Direction::North => ShiftTable::EvenEast,
            Direction::East => ShiftTable::EvenNorth,
            Direction::South => ShiftTable::EvenWest,
            Direction::West => ShiftTable::EvenSouth,
        }
    }
}

/// The last character of the neighbouring cell, inside the same parent or,
/// from a border character, wrapped round to the far side of the next parent.
pub open spec fn shift(t: ShiftTable, c: char) -> char {
    match t {
        ShiftTable::EvenNorth => match c {
            '0' => '1', '1' => '4', '2' => '3', '3' => '6', '4' => '5', '5' => 'h', '6' => '7',
                '7' => 'k',
            '8' => '9', '9' => 'd', 'b' => 'c', 'c' => 'f', 'd' => 'e', 'e' => 's', 'f' => 'g',
                'g' => 'u',
            'h' => 'j', 'j' => 'n', 'k' => 'm', 'm' => 'q', 'n' => 'p', 'p' => '0', 'q' => 'r',
                'r' => '2',
            's' => 't', 't' => 'w', 'u' => 'v', 'v' => 'y', 'w' => 'x', 'x' => '8', 'y' => 'z',
                'z' => 'b',
            _ => c,
        },
        ShiftTable::EvenEast => match c {
            '0' => '2', '1' => '3', '2' => '8', '3' => '9', '4' => '6', '5' => '7', '6' => 'd',
                '7' => 'e',
            '8' => 'b', '9' => 'c', 'b' => '0', 'c' => '1', 'd' => 'f', 'e' => 'g', 'f' => '4',
                'g' => '5',
            'h' => 'k', 'j' => 'm', 'k' => 's', 'm' => 't', 'n' => 'q', 'p' => 'r', 'q' => 'w',
                'r' => 'x',
            's' => 'u', 't' => 'v', 'u' => 'h', 'v' => 'j', 'w' => 'y', 'x' => 'z', 'y' => 'n',
                'z' => 'p',
            _ => c,
        },
        ShiftTable::EvenSouth => match c {
            '0' => 'p', '1' => '0', '2' => 'r', '3' => '2', '4' => '1', '5' => '4', '6' => '3',
                '7' => '6',
            '8' => 'x', '9' => '8', 'b' => 'z', 'c' => 'b', 'd' => '9', 'e' => 'd', 'f' => 'c',
                'g' => 'f',
            'h' => '5', 'j' => 'h', 'k' => '7', 'm' => 'k', 'n' => 'j', 'p' => 'n', 'q' => 'm',
                'r' => 'q',
            's' => 'e', 't' => 's', 'u' => 'g', 'v' => 'u', 'w' => 't', 'x' => 'w', 'y' => 'v',
                'z' => 'y',
            _ => c,
        },
        ShiftTable::EvenWest => match c {
            '0' => 'b', '1' => 'c', '2' => '0', '3' => '1', '4' => 'f', '5' => 'g', '6' => '4',
                '7' => '5',
            '8' => '2', '9' => '3', 'b' => '8', 'c' => '9', 'd' => '6', 'e' => '7', 'f' => 'd',
                'g' => 'e',
            'h' => 'u', 'j' => 'v', 'k' => 'h', 'm' => 'j', 'n' => 'y', 'p' => 'z', 'q' => 'n',
                'r' => 'p',
            's' => 'k', 't' => 'm', 'u' => 's', 'v' => 't', 'w' => 'q', 'x' => 'r', 'y' => 'w',
                'z' => 'x',
            _ => c,
        },
    }
}

/// Whether the cell named by `c` lies on the parent's border that `t` crosses.
pub open spec fn on_border(t: ShiftTable, c: char) -> bool {
    match t {
        ShiftTable::EvenNorth => c == 'p' || c == 'r' || c == 'x' || c == 'z',
        ShiftTable::EvenEast => c == 'b' || c == 'c' || c == 'f' || c == 'g' || c == 'u'
            || c == 'v' || c == 'y' || c == 'z',
        ShiftTable::EvenSouth => c == '0' || c == '2' || c == '8' || c == 'b',
        ShiftTable::EvenWest => c == '0' || c == '1' || c == '4' || c == '5' || c == 'h'
            || c == 'j' || c == 'n' || c == 'p',
    }
}

/// The cell that shares the edge in direction `d` with cell `g`. Crossing the
/// parent's border moves the parent too; the whole globe has no neighbour, so
/// the empty key stays empty and the top level wraps round.
pub open spec fn adjacent(g: Seq<char>, d: Direction) -> Seq<char>
    decreases g.len(),
{
    if g.len() == 0 {
        g
    } else {
        let parent = g.drop_last();
        let t = table_for(d, g.len());
        let moved = if on_border(t, g.last()) && parent.len() > 0 {
            adjacent(parent, d)
        } else {
            parent
        };
        moved.push(shift(t, g.last()))
    }
}

fn table_of(d: Direction, len: usize) -> (t: ShiftTable)
    ensures
        t == table_for(d, len as nat),
{
    if len % 2 == 0 {
        match d {
            Direction::North => ShiftTable::EvenNorth,
            Direction::East => ShiftTable::EvenEast,
            Direction::South => ShiftTable::EvenSouth,
            Direction::West => ShiftTable::EvenWest,
        }
    } else {
        match d {
            Direction::North => ShiftTable::EvenEast,
            Direction::East => ShiftTable::EvenNorth,
            Direction::South => ShiftTable::EvenWest,
            Direction::West => ShiftTable::EvenSouth,
        }
    }
}

fn shift_char(t: ShiftTable, c: char) -> (r: char)
    ensures
        r == shift(t, c),
{
    match t {
        ShiftTable::EvenNorth => match c {
            '0' => '1', '1' => '4', '2' => '3', '3' => '6', '4' => '5', '5' => 'h', '6' => '7',
                '7' => 'k',
            '8' => '9', '9' => 'd', 'b' => 'c', 'c' => 'f', 'd' => 'e', 'e' => 's', 'f' => 'g',
                'g' => 'u',
            'h' => 'j', 'j' => 'n', 'k' => 'm', 'm' => 'q', 'n' => 'p', 'p' => '0', 'q' => 'r',
                'r' => '2',
            's' => 't', 't' => 'w', 'u' => 'v', 'v' => 'y', 'w' => 'x', 'x' => '8', 'y' => 'z',
                'z' => 'b',
            _ => c,
        },
        ShiftTable::EvenEast => match c {
            '0' => '2', '1' => '3', '2' => '8', '3' => '9', '4' => '6', '5' => '7', '6' => 'd',
                '7' => 'e',
            '8' => 'b', '9' => 'c', 'b' => '0', 'c' => '1', 'd' => 'f', 'e' => 'g', 'f' => '4',
                'g' => '5',
            'h' => 'k', 'j' => 'm', 'k' => 's', 'm' => 't', 'n' => 'q', 'p' => 'r', 'q' => 'w',
                'r' => 'x',
            's' => 'u', 't' => 'v', 'u' => 'h', 'v' => 'j', 'w' => 'y', 'x' => 'z', 'y' => 'n',
                'z' => 'p',
            _ => c,
        },
        ShiftTable::EvenSouth => match c {
            '0' => 'p', '1' => '0', '2' => 'r', '3' => '2', '4' => '1', '5' => '4', '6' => '3',
                '7' => '6',
            '8' => 'x', '9' => '8', 'b' => 'z', 'c' => 'b', 'd' => '9', 'e' => 'd', 'f' => 'c',
                'g' => 'f',
            'h' => '5', 'j' => 'h', 'k' => '7', 'm' => 'k', 'n' => 'j', 'p' => 'n', 'q' => 'm',
                'r' => 'q',
            's' => 'e', 't' => 's', 'u' => 'g', 'v' => 'u', 'w' => 't', 'x' => 'w', 'y' => 'v',
                'z' => 'y',
            _ => c,
        },
        ShiftTable::EvenWest => match c {
            '0' => 'b', '1' => 'c', '2' => '0', '3' => '1', '4' => 'f', '5' => 'g', '6' => '4',
                '7' => '5',
            '8' => '2', '9' => '3', 'b' => '8', 'c' => '9', 'd' => '6', 'e' => '7', 'f' => 'd',
                'g' => 'e',
            'h' => 'u', 'j' => 'v', 'k' => 'h', 'm' => 'j', 'n' => 'y', 'p' => 'z', 'q' => 'n',
                'r' => 'p',
            's' => 'k', 't' => 'm', 'u' => 's', 'v' => 't', 'w' => 'q', 'x' => 'r', 'y' => 'w',
                'z' => 'x',
            _ => c,
        },
    }
}

fn crosses_border(t: ShiftTable, c: char) -> (r: bool)
    ensures
        r == on_border(t, c),
{
    match t {
        ShiftTable::EvenNorth => c == 'p' || c == 'r' || c == 'x' || c == 'z',
        ShiftTable::EvenEast => c == 'b' || c == 'c' || c == 'f' || c == 'g' || c == 'u'
            || c == 'v' || c == 'y' || c == 'z',
        ShiftTable::EvenSouth => c == '0' || c == '2' || c == '8' || c == 'b',
        ShiftTable::EvenWest => c == '0' || c == '1' || c == '4' || c == '5' || c == 'h'
            || c == 'j' || c == 'n' || c == 'p',
    }
}

/// The geohash of the cell adjacent to `geohash` in `direction`.
pub fn get_adjacent_cell(geohash: &str, direction: Direction) -> (r: String)
    requires
        is_geohash(geohash@),
    ensures
        r@ == adjacent(geohash@, direction),
    decreases geohash@.len(),
{
    let len = geohash.unicode_len();
    if len == 0 {
        return String::new();
    }
    let parent = geohash.substring_char(0, len - 1);
    let last = geohash.get_char(len - 1);
    let t = table_of(direction, len);
    assert(parent@ == geohash@.drop_last());
    let mut cell = if crosses_border(t, last) && len > 1 {
        get_adjacent_cell(parent, direction)
    } else {
        String::from_str(parent)
    };
    push_char(&mut cell, shift_char(t, last));
    cell
}

/// Facts about each character's shifts that follow from the four tables.
proof fn lemma_shift_facts(c: char)
    requires
        alphabet().contains(c),
    ensures
        alphabet().contains(shift(ShiftTable::EvenNorth, c)),
        alphabet().contains(shift(ShiftTable::EvenEast, c)),
        alphabet().contains(shift(ShiftTable::EvenSouth, c)),
        alphabet().contains(shift(ShiftTable::EvenWest, c)),
        shift(ShiftTable::EvenNorth, c) != c,
        shift(ShiftTable::EvenEast, c) != c,
        shift(ShiftTable::EvenSouth, c) != c,
        shift(ShiftTable::EvenWest, c) != c,
        shift(ShiftTable::EvenSouth, shift(ShiftTable::EvenNorth, c)) == c,
        shift(ShiftTable::EvenNorth, shift(ShiftTable::EvenSouth, c)) == c,
        shift(ShiftTable::EvenWest, shift(ShiftTable::EvenEast, c)) == c,
        shift(ShiftTable::EvenEast, shift(ShiftTable::EvenWest, c)) == c,
        on_border(ShiftTable::EvenNorth, c) == on_border(ShiftTable::EvenSouth,
            shift(ShiftTable::EvenNorth, c)),
        on_border(ShiftTable::EvenSouth, c) == on_border(ShiftTable::EvenNorth,
            shift(ShiftTable::EvenSouth, c)),
        on_border(ShiftTable::EvenEast, c) == on_border(ShiftTable::EvenWest,
            shift(ShiftTable::EvenEast, c)),
        on_border(ShiftTable::EvenWest, c) == on_border(ShiftTable::EvenEast,
            shift(ShiftTable::EvenWest, c)),
        shift(ShiftTable::EvenEast, shift(ShiftTable::EvenNorth, c)) != c,
        shift(ShiftTable::EvenWest, shift(ShiftTable::EvenNorth, c)) != c,
        shift(ShiftTable::EvenEast, shift(ShiftTable::EvenSouth, c)) != c,
        shift(ShiftTable::EvenWest, shift(ShiftTable::EvenSouth, c)) != c,
        shift(ShiftTable::EvenNorth, shift(ShiftTable::EvenEast, c)) != c,
        shift(ShiftTable::EvenSouth, shift(ShiftTable::EvenEast, c)) != c,
        shift(ShiftTable::EvenNorth, shift(ShiftTable::EvenWest, c)) != c,
        shift(ShiftTable::EvenSouth, shift(ShiftTable::EvenWest, c)) != c,
{
    let i = choose|i: int| 0 <= i < alphabet().len() && alphabet()[i] == c;
    assert(c == '0' || c == '1' || c == '2' || c == '3' || c == '4' || c == '5' || c == '6'
        || c == '7' || c == '8' || c == '9' || c == 'b' || c == 'c' || c == 'd' || c == 'e'
        || c == 'f' || c == 'g' || c == 'h' || c == 'j' || c == 'k' || c == 'm' || c == 'n'
        || c == 'p' || c == 'q' || c == 'r' || c == 's' || c == 't' || c == 'u' || c == 'v'
        || c == 'w' || c == 'x' || c == 'y' || c == 'z');
    assert(alphabet()[0] == '0');
    assert(alphabet()[1] == '1');
    assert(alphabet()[2] == '2');
    assert(alphabet()[3] == '3');
    assert(alphabet()[4] == '4');
    assert(alphabet()[5] == '5');
    assert(alphabet()[6] == '6');
    assert(alphabet()[7] == '7');
    assert(alphabet()[8] == '8');
    assert(alphabet()[9] == '9');
    assert(alphabet()[10] == 'b');
    assert(alphabet()[11] == 'c');
    assert(alphabet()[12] == 'd');
    assert(alphabet()[13] == 'e');
    assert(alphabet()[14] == 'f');
    assert(alphabet()[15] == 'g');
    assert(alphabet()[16] == 'h');
    assert(alphabet()[17] == 'j');
    assert(alphabet()[18] == 'k');
    assert(alphabet()[19] == 'm');
    assert(alphabet()[20] == 'n');
    assert(alphabet()[21] == 'p');
    assert(alphabet()[22] == 'q');
    assert(alphabet()[23] == 'r');
    assert(alphabet()[24] == 's');
    assert(alphabet()[25] == 't');
    assert(alphabet()[26] == 'u');
    assert(alphabet()[27] == 'v');
    assert(alphabet()[28] == 'w');
    assert(alphabet()[29] == 'x');
    assert(alphabet()[30] == 'y');
    assert(alphabet()[31] == 'z');
}

/// Adjacent cells have keys of the same length.
pub proof fn lemma_adjacent_len(g: Seq<char>, d: Direction)
    ensures
        adjacent(g, d).len() == g.len(),
    decreases g.len(),
{
    if g.len() > 0 {
        lemma_adjacent_len(g.drop_last(), d);
    }
}

/// An adjacent cell is again a geohash key.
pub proof fn lemma_adjacent_is_geohash(g: Seq<char>, d: Direction)
    requires
        is_geohash(g),
    ensures
        is_geohash(adjacent(g, d)),
    decreases g.len(),
{
    if g.len() > 0 {
        let parent = g.drop_last();
        assert(is_geohash(parent));
        lemma_adjacent_is_geohash(parent, d);
        assert(is_base32(g.last()));
        lemma_shift_facts(g.last());
        lemma_adjacent_len(parent, d);
    }
}

/// Stepping to the adjacent cell and back in the opposite direction returns
/// to the starting cell.
pub proof fn lemma_adjacent_round_trip(g: Seq<char>, d: Direction)
    requires
        is_geohash(g),
    ensures
        adjacent(adjacent(g, d), opposite(d)) == g,
    decreases g.len(),
{
    if g.len() > 0 {
        let parent = g.drop_last();
        let a = adjacent(g, d);
        assert(is_geohash(parent));
        assert(is_base32(g.last()));
        lemma_shift_facts(g.last());
        lemma_adjacent_len(g, d);
        lemma_adjacent_len(parent, d);
        lemma_adjacent_round_trip(parent, d);
        let t = table_for(d, g.len());
        let t2 = table_for(opposite(d), g.len());
        let last = g.last();
        assert(shift(t2, shift(t, last)) == last && on_border(t2, shift(t, last)) == on_border(
            t,
            last,
        )) by {
            if g.len() % 2 == 0 {
                match d {
                    Direction::North => {},
                    Direction::East => {},
                    Direction::South => {},
                    Direction::West => {},
                }
            } else {
                match d {
                    Direction::North => {},
                    Direction::East => {},
                    Direction::South => {},
                    Direction::West => {},
                }
            }
        }
        let moved = if on_border(t, last) && parent.len() > 0 {
            adjacent(parent, d)
        } else {
            parent
        };
        assert(a == moved.push(shift(t, last)));
        assert(a.drop_last() =~= moved);
        assert(a.len() == g.len());
        let back = if on_border(t2, a.last()) && moved.len() > 0 {
            adjacent(moved, opposite(d))
        } else {
            moved
        };
        assert(back == parent);
        assert(adjacent(a, opposite(d)) == back.push(shift(t2, a.last())));
        assert(parent.push(g.last()) =~= g);
    }
}

/// The eight cells around `g`: for North and for South, that cell's East and
/// West neighbours and then the cell itself; East and West between them.
pub open spec fn surrounding(g: Seq<char>) -> Seq<Seq<char>> {
    let n = adjacent(g, Direction::North);
    let s = adjacent(g, Direction::South);
    seq![
        adjacent(n, Direction::East),
        adjacent(n, Direction::West),
        n,
        adjacent(g, Direction::East),
        adjacent(s, Direction::East),
        adjacent(s, Direction::West),
        s,
        adjacent(g, Direction::West),
    ]
}

/// The geohashes of the eight cells that surround `geohash`: the four that
/// share an edge with it and the four that share a corner.
pub fn get_surrounding_cells(geohash: &str) -> (r: Vec<String>)
    requires
        is_geohash(geohash@),
    ensures
        r@.len() == 8,
        forall|i: int| 0 <= i < 8 ==> (#[trigger] r@[i])@ == surrounding(geohash@)[i],
{
    let mut cells: Vec<String> = Vec::with_capacity(8);
    let north = get_adjacent_cell(geohash, Direction::North);
    let south = get_adjacent_cell(geohash, Direction::South);
    proof {
        lemma_adjacent_is_geohash(geohash@, Direction::North);
        lemma_adjacent_is_geohash(geohash@, Direction::South);
    }
    cells.push(get_adjacent_cell(north.as_str(), Direction::East));
    cells.push(get_adjacent_cell(north.as_str(), Direction::West));
    cells.push(north);
    cells.push(get_adjacent_cell(geohash, Direction::East));
    cells.push(get_adjacent_cell(south.as_str(), Direction::East));
    cells.push(get_adjacent_cell(south.as_str(), Direction::West));
    cells.push(south);
    cells.push(get_adjacent_cell(geohash, Direction::West));
    cells
}

/// The last character of the cell adjacent to `g`.
proof fn lemma_adjacent_last(g: Seq<char>, d: Direction)
    requires
        g.len() > 0,
    ensures
        adjacent(g, d).last() == shift(table_for(d, g.len()), g.last()),
        adjacent(g, d).len() == g.len(),
{
    lemma_adjacent_len(g, d);
}

/// Each of the eight surrounding cells of a non-empty key has a key of the
/// same length, and none of them is the cell itself.
pub proof fn lemma_surrounding(g: Seq<char>)
    requires
        is_geohash(g),
        g.len() > 0,
    ensures
        surrounding(g).len() == 8,
        forall|i: int|
            0 <= i < 8 ==> (#[trigger] surrounding(g)[i]).len() == g.len() && surrounding(g)[i]
                != g,
{
    let n = adjacent(g, Direction::North);
    let s = adjacent(g, Direction::South);
    assert(is_base32(g.last()));
    lemma_shift_facts(g.last());
    lemma_adjacent_last(g, Direction::North);
    lemma_adjacent_last(g, Direction::South);
    lemma_adjacent_last(g, Direction::East);
    lemma_adjacent_last(g, Direction::West);
    lemma_adjacent_last(n, Direction::East);
    lemma_adjacent_last(n, Direction::West);
    lemma_adjacent_last(s, Direction::East);
    lemma_adjacent_last(s, Direction::West);
    let sr = surrounding(g);
    assert forall|i: int| 0 <= i < 8 implies (#[trigger] sr[i]).len() == g.len() && sr[i] != g by {
        assert(sr[i].last() != g.last());
    }
}

} // verus!
