//! The text map format: one row per line, whitespace-separated two-letter codes.
use vstd::prelude::*;
use vstd::string::StringSliceAdditionalSpecFns;

use crate::environment::{AgentModel, CellType, Environment};
use crate::map::Grid;
use crate::{DoorKeyType, Item, Position};

verus! {

/// What one map code stands for.
#[derive(Debug, Clone, Copy, PartialEq, Eq, Structural)]
pub enum Tile {
    Start,
    Floor,
    Wall,
    Goal,
    Chip,
    Door(DoorKeyType),
    Key(DoorKeyType),
}

/// Why a map text was rejected.
#[derive(Debug, Clone, Copy, PartialEq, Eq, Structural)]
pub enum LoadError {
    Empty,
    ZeroWidth,
    InconsistentWidth { row: usize, expected: usize, found: usize },
    UnknownCode { x: usize, y: usize },
    MultipleStart,
    NoStart,
    TooLarge,
}

pub open spec fn is_ws(b: u8) -> bool {
    b == 32 || (9 <= b && b <= 13)
}

pub open spec fn colour_of(b: u8) -> Option<DoorKeyType> {
    if b == 71 {
        Some(DoorKeyType::Green)
    } else if b == 89 {
        Some(DoorKeyType::Yellow)
    } else if b == 66 {
        Some(DoorKeyType::Blue)
    } else if b == 82 {
        Some(DoorKeyType::Red)
    } else {
        None
    }
}

/// The tile a code names: ST, BL, DP, WL, WA, PL, CH, D?, K? with ? one of G, Y, B, R.
pub open spec fn tile_of(tok: Seq<u8>) -> Option<Tile> {
    if tok.len() != 2 {
        None
    } else {
        let (a, b) = (tok[0], tok[1]);
        if a == 83 && b == 84 {
            Some(Tile::Start)
        } else if (a == 66 && b == 76) || (a == 68 && b == 80) {
            Some(Tile::Floor)
        } else if a == 87 && (b == 76 || b == 65) {
            Some(Tile::Wall)
        } else if a == 80 && b == 76 {
            Some(Tile::Goal)
        } else if a == 67 && b == 72 {
            Some(Tile::Chip)
        } else if a == 68 && colour_of(b).is_some() {
            Some(Tile::Door(colour_of(b).unwrap()))
        } else if a == 75 && colour_of(b).is_some() {
            Some(Tile::Key(colour_of(b).unwrap()))
        } else {
            None
        }
    }
}

pub open spec fn tile_cell(t: Tile) -> CellType {
    match t {
        Tile::Wall => CellType::Wall,
        Tile::Door(k) => CellType::Door { open: false, door_type: Some(k) },
        _ => CellType::Floor,
    }
}

pub open spec fn tile_item(t: Tile) -> Option<Item> {
    match t {
        Tile::Goal => Some(Item::Goal),
        Tile::Chip => Some(Item::Chip),
        Tile::Key(k) => Some(Item::Key { key_type: k }),
        _ => None,
    }
}

/// The scanner's state: finished rows, the tokens of the current row, the current token.
pub struct ScanState {
    pub rows: Seq<Seq<Option<Tile>>>,
    pub row: Seq<Option<Tile>>,
    pub tok: Seq<u8>,
}

pub open spec fn close_tok(row: Seq<Option<Tile>>, tok: Seq<u8>) -> Seq<Option<Tile>> {
    if tok.len() == 0 {
        row
    } else {
        row.push(tile_of(tok))
    }
}

pub open spec fn scan_step(st: ScanState, b: u8) -> ScanState {
    if b == 10 {
        ScanState { rows: st.rows.push(close_tok(st.row, st.tok)), row: seq![], tok: seq![] }
    } else if is_ws(b) {
        ScanState { row: close_tok(st.row, st.tok), tok: seq![], ..st }
    } else {
        ScanState { tok: st.tok.push(b), ..st }
    }
}

pub open spec fn scan(bs: Seq<u8>) -> ScanState
    decreases bs.len(),
{
    if bs.len() == 0 {
        ScanState { rows: seq![], row: seq![], tok: seq![] }
    } else {
        scan_step(scan(bs.drop_last()), bs.last())
    }
}

/// Every line of the text, as the tiles of its codes.
pub open spec fn all_rows(bs: Seq<u8>) -> Seq<Seq<Option<Tile>>> {
    let st = scan(bs);
    st.rows.push(close_tok(st.row, st.tok))
}

pub open spec fn strip_front(rows: Seq<Seq<Option<Tile>>>) -> Seq<Seq<Option<Tile>>>
    decreases rows.len(),
{
    if rows.len() > 0 && rows[0].len() == 0 {
        strip_front(rows.drop_first())
    } else {
        rows
    }
}

pub open spec fn strip_back(rows: Seq<Seq<Option<Tile>>>) -> Seq<Seq<Option<Tile>>>
    decreases rows.len(),
{
    if rows.len() > 0 && rows.last().len() == 0 {
        strip_back(rows.drop_last())
    } else {
        rows
    }
}

/// The lines of a text, without the blank ones at either end.
pub open spec fn trimmed_rows(bs: Seq<u8>) -> Seq<Seq<Option<Tile>>> {
    strip_back(strip_front(all_rows(bs)))
}

/// The length of the UTF-8 encoding of a non-ASCII whitespace character
/// (in the sense of `char::is_whitespace`) at the front of `bs`, or 0:
/// U+0085, U+00A0, U+1680, U+2000..=U+200A, U+2028, U+2029, U+202F, U+205F, U+3000.
pub open spec fn wide_ws_len(bs: Seq<u8>) -> nat {
    if bs.len() >= 2 && bs[0] == 0xC2 && (bs[1] == 0x85 || bs[1] == 0xA0) {
        2
    } else if bs.len() >= 3 && bs[0] == 0xE1 && bs[1] == 0x9A && bs[2] == 0x80 {
        3
    } else if bs.len() >= 3 && bs[0] == 0xE2 && bs[1] == 0x80 && ((0x80 <= bs[2] && bs[2] <= 0x8A) || bs[2] == 0xA8
        || bs[2] == 0xA9 || bs[2] == 0xAF) {
        3
    } else if bs.len() >= 3 && bs[0] == 0xE2 && bs[1] == 0x81 && bs[2] == 0x9F {
        3
    } else if bs.len() >= 3 && bs[0] == 0xE3 && bs[1] == 0x80 && bs[2] == 0x80 {
        3
    } else {
        0
    }
}

/// The text with every non-ASCII whitespace character replaced by a space.
pub open spec fn spaced(bs: Seq<u8>) -> Seq<u8>
    decreases bs.len(),
{
    if bs.len() == 0 {
        bs
    } else if wide_ws_len(bs) > 0 {
        seq![32u8] + spaced(bs.skip(wide_ws_len(bs) as int))
    } else {
        seq![bs[0]] + spaced(bs.skip(1))
    }
}

/// The rows of a map text: its lines, split into codes at whitespace, without
/// the blank lines at either end.
pub open spec fn map_rows(bs: Seq<u8>) -> Seq<Seq<Option<Tile>>> {
    trimmed_rows(spaced(bs))
}

fn wide_ws_at(bs: &[u8], i: usize) -> (r: usize)
    requires
        i <= bs@.len(),
    ensures
        r == wide_ws_len(bs@.skip(i as int)),
{
    let n = bs.len();
    let ghost t = bs@.skip(i as int);
    if n - i >= 2 && bs[i] == 0xC2 && (bs[i + 1] == 0x85 || bs[i + 1] == 0xA0) {
        assert(t[0] == bs@[i as int] && t[1] == bs@[i + 1]);
        2
    } else if n - i >= 3 && bs[i] == 0xE1 && bs[i + 1] == 0x9A && bs[i + 2] == 0x80 {
        assert(t[0] == bs@[i as int] && t[1] == bs@[i + 1] && t[2] == bs@[i + 2]);
        3
    } else if n - i >= 3 && bs[i] == 0xE2 && bs[i + 1] == 0x80 && ((0x80 <= bs[i + 2] && bs[i + 2] <= 0x8A) || bs[i + 2]
        == 0xA8 || bs[i + 2] == 0xA9 || bs[i + 2] == 0xAF) {
        assert(t[0] == bs@[i as int] && t[1] == bs@[i + 1] && t[2] == bs@[i + 2]);
        3
    } else if n - i >= 3 && bs[i] == 0xE2 && bs[i + 1] == 0x81 && bs[i + 2] == 0x9F {
        assert(t[0] == bs@[i as int] && t[1] == bs@[i + 1] && t[2] == bs@[i + 2]);
        3
    } else if n - i >= 3 && bs[i] == 0xE3 && bs[i + 1] == 0x80 && bs[i + 2] == 0x80 {
        assert(t[0] == bs@[i as int] && t[1] == bs@[i + 1] && t[2] == bs@[i + 2]);
        3
    } else {
        proof {
            if n - i >= 2 {
                assert(t[0] == bs@[i as int] && t[1] == bs@[i + 1]);
            }
            if n - i >= 3 {
                assert(t[0] == bs@[i as int] && t[1] == bs@[i + 1] && t[2] == bs@[i + 2]);
            }
        }
        0
    }
}

/// Replaces every non-ASCII whitespace character of a text by a space.
pub fn space_wide_whitespace(bs: &[u8]) -> (r: Vec<u8>)
    ensures
        r@ == spaced(bs@),
{
    let mut out: Vec<u8> = Vec::new();
    let mut i: usize = 0;
    assert(bs@.skip(0) =~= bs@);
    while i < bs.len()
        invariant
            i <= bs@.len(),
            out@ + spaced(bs@.skip(i as int)) == spaced(bs@),
        decreases bs.len() - i,
    {
        let k = wide_ws_at(bs, i);
        let ghost t = bs@.skip(i as int);
        let ghost before = out@;
        if k > 0 {
            out.push(32);
            proof {
                assert(t.skip(k as int) =~= bs@.skip(i + k));
                assert(out@ =~= before + seq![32u8]);
                assert(before + (seq![32u8] + spaced(t.skip(k as int))) =~= out@ + spaced(bs@.skip(i + k)));
            }
            i = i + k;
        } else {
            out.push(bs[i]);
            proof {
                assert(t.skip(1) =~= bs@.skip(i + 1));
                assert(t[0] == bs@[i as int]);
                assert(out@ =~= before + seq![t[0]]);
                assert(before + (seq![t[0]] + spaced(t.skip(1))) =~= out@ + spaced(bs@.skip(i + 1)));
            }
            i = i + 1;
        }
    }
    proof {
        assert(bs@.skip(i as int) =~= Seq::<u8>::empty());
        assert(out@ + Seq::<u8>::empty() =~= out@);
    }
    out
}

pub open spec fn rows_view(rows: Seq<Vec<Option<Tile>>>) -> Seq<Seq<Option<Tile>>> {
    rows.map_values(|r: Vec<Option<Tile>>| r@)
}

/// (x1, y1) comes before (x2, y2) in row-major order.
pub open spec fn before(x1: int, y1: int, x2: int, y2: int) -> bool {
    y1 < y2 || (y1 == y2 && x1 < x2)
}

pub open spec fn in_rect(r: Seq<Seq<Option<Tile>>>, x: int, y: int) -> bool {
    0 <= y < r.len() && 0 <= x < r[y].len()
}

pub open spec fn is_start(r: Seq<Seq<Option<Tile>>>, x: int, y: int) -> bool {
    r[y][x] == Some(Tile::Start)
}

/// Cell (x, y) holds an unknown code, or a start after an earlier start.
pub open spec fn bad_at(r: Seq<Seq<Option<Tile>>>, x: int, y: int) -> bool {
    r[y][x].is_none() || (is_start(r, x, y) && exists|x2: int, y2: int|
        in_rect(r, x2, y2) && before(x2, y2, x, y) && #[trigger] is_start(r, x2, y2))
}

pub open spec fn first_bad(r: Seq<Seq<Option<Tile>>>, x: int, y: int) -> bool {
    &&& in_rect(r, x, y)
    &&& bad_at(r, x, y)
    &&& forall|x2: int, y2: int| in_rect(r, x2, y2) && before(x2, y2, x, y) ==> !#[trigger] bad_at(r, x2, y2)
}

pub open spec fn rectangular(r: Seq<Seq<Option<Tile>>>) -> bool {
    r.len() > 0 && r[0].len() > 0 && forall|y: int| 0 <= y < r.len() ==> #[trigger] r[y].len() == r[0].len()
}

pub open spec fn no_bad(r: Seq<Seq<Option<Tile>>>) -> bool {
    forall|x: int, y: int| in_rect(r, x, y) ==> !#[trigger] bad_at(r, x, y)
}

pub open spec fn has_start(r: Seq<Seq<Option<Tile>>>) -> bool {
    exists|x: int, y: int| in_rect(r, x, y) && #[trigger] is_start(r, x, y)
}

fn colour(b: u8) -> (r: Option<DoorKeyType>)
    ensures
        r == colour_of(b),
{
    if b == 71 {
        Some(DoorKeyType::Green)
    } else if b == 89 {
        Some(DoorKeyType::Yellow)
    } else if b == 66 {
        Some(DoorKeyType::Blue)
    } else if b == 82 {
        Some(DoorKeyType::Red)
    } else {
        None
    }
}

/// The tile a code names, or `None` for an unknown code.
pub fn classify(tok: &Vec<u8>) -> (r: Option<Tile>)
    ensures
        r == tile_of(tok@),
{
    if tok.len() != 2 {
        return None;
    }
    let a = tok[0];
    let b = tok[1];
    if a == 83 && b == 84 {
        Some(Tile::Start)
    } else if (a == 66 && b == 76) || (a == 68 && b == 80) {
        Some(Tile::Floor)
    } else if a == 87 && (b == 76 || b == 65) {
        Some(Tile::Wall)
    } else if a == 80 && b == 76 {
        Some(Tile::Goal)
    } else if a == 67 && b == 72 {
        Some(Tile::Chip)
    } else if a == 68 && colour(b).is_some() {
        Some(Tile::Door(colour(b).unwrap()))
    } else if a == 75 && colour(b).is_some() {
        Some(Tile::Key(colour(b).unwrap()))
    } else {
        None
    }
}

fn cell_of_tile(t: Tile) -> (r: CellType)
    ensures
        r == tile_cell(t),
{
    match t {
        Tile::Wall => CellType::Wall,
        Tile::Door(k) => CellType::Door { open: false, door_type: Some(k) },
        _ => CellType::Floor,
    }
}

fn item_of_tile(t: Tile) -> (r: Option<Item>)
    ensures
        r == tile_item(t),
{
    match t {
        Tile::Goal => Some(Item::Goal),
        Tile::Chip => Some(Item::Chip),
        Tile::Key(k) => Some(Item::Key { key_type: k }),
        _ => None,
    }
}

/// Splits a map text into rows of tiles, dropping blank lines at either end.
#[verifier::rlimit(100)]
pub fn split_rows(bs: &[u8]) -> (r: Vec<Vec<Option<Tile>>>)
    ensures
        rows_view(r@) == trimmed_rows(bs@),
{
    let mut rows: Vec<Vec<Option<Tile>>> = Vec::new();
    let mut row: Vec<Option<Tile>> = Vec::new();
    let mut tok: Vec<u8> = Vec::new();
    let mut i: usize = 0;
    assert(bs@.take(0) =~= Seq::<u8>::empty());
    assert(rows_view(rows@) =~= Seq::<Seq<Option<Tile>>>::empty());
    while i < bs.len()
        invariant
            i <= bs@.len(),
            rows_view(rows@) == scan(bs@.take(i as int)).rows,
            row@ == scan(bs@.take(i as int)).row,
            tok@ == scan(bs@.take(i as int)).tok,
        decreases bs.len() - i,
    {
        let b = bs[i];
        proof {
            assert(bs@.take(i + 1).drop_last() =~= bs@.take(i as int));
            assert(bs@.take(i + 1).last() == b);
        }
        if b == 10 || b == 32 || (9 <= b && b <= 13) {
            if tok.len() > 0 {
                let t = classify(&tok);
                row.push(t);
                tok = Vec::new();
            }
            if b == 10 {
                let ghost before_push = rows@;
                rows.push(row);
                row = Vec::new();
                proof {
                    assert(rows_view(rows@) =~= rows_view(before_push).push(rows@.last()@));
                }
            }
        } else {
            tok.push(b);
        }
        i = i + 1;
    }
    assert(bs@.take(bs@.len() as int) =~= bs@);
    if tok.len() > 0 {
        let t = classify(&tok);
        row.push(t);
    }
    let ghost before_push = rows@;
    rows.push(row);
    proof {
        assert(rows_view(rows@) =~= rows_view(before_push).push(rows@.last()@));
    }
    let ghost all = rows_view(rows@);
    while rows.len() > 0 && rows[0].len() == 0
        invariant
            strip_front(rows_view(rows@)) == strip_front(all),
        decreases rows.len(),
    {
        let ghost prev = rows@;
        rows.remove(0);
        proof {
            assert(rows_view(rows@) =~= rows_view(prev).drop_first());
        }
    }
    let ghost front = rows_view(rows@);
    while rows.len() > 0 && rows[rows.len() - 1].len() == 0
        invariant
            front == strip_front(all),
            strip_back(rows_view(rows@)) == strip_back(front),
        decreases rows.len(),
    {
        let ghost prev = rows@;
        rows.pop();
        proof {
            assert(rows_view(rows@) =~= rows_view(prev).drop_last());
        }
    }
    rows
}

pub open spec fn tile_in(rows: Seq<Vec<Option<Tile>>>, x: usize, y: usize) -> Option<Tile> {
    rows[y as int]@[x as int]
}

fn tile_at(rows: &Vec<Vec<Option<Tile>>>, x: usize, y: usize) -> (t: Tile)
    requires
        y < rows@.len(),
        x < rows@[y as int]@.len(),
        tile_in(rows@, x, y).is_some(),
    ensures
        t == tile_in(rows@, x, y).unwrap(),
{
    rows[y][x].unwrap()
}

/// Row `y` is the first whose length differs from the first row's.
pub open spec fn first_mismatch(r: Seq<Seq<Option<Tile>>>, y: int) -> bool {
    &&& 0 < y < r.len()
    &&& r[y].len() != r[0].len()
    &&& forall|y2: int| 0 <= y2 < y ==> #[trigger] r[y2].len() == r[0].len()
}

/// `env` with `start` is the world that the rectangular rows `r` describe.
pub open spec fn describes(r: Seq<Seq<Option<Tile>>>, env: Environment, start: Position) -> bool {
    &&& env.wf()
    &&& env.spec_width() == r[0].len()
    &&& env.spec_height() == r.len()
    &&& in_rect(r, start.x as int, start.y as int)
    &&& is_start(r, start.x as int, start.y as int)
    &&& forall|x: int, y: int|
        in_rect(r, x, y) ==> {
            &&& #[trigger] env.terrain.spec_at(x, y) == tile_cell(r[y][x].unwrap())
            &&& env.items.spec_at(x, y) == tile_item(r[y][x].unwrap())
            &&& env.agent_locations.spec_at(x, y).is_none()
        }
    &&& env.agents@.len() == 0
    &&& env.agent_behaviors@.len() == 0
    &&& env.next_entity_id == 0
}

/// The outcome of loading the rows `r`: the first failing check names the
/// error, and a map that passes them all loads.
pub open spec fn load_outcome(r: Seq<Seq<Option<Tile>>>, res: Result<(Environment, Position), LoadError>) -> bool {
    &&& r.len() == 0 <==> res == Err::<(Environment, Position), LoadError>(LoadError::Empty)
    &&& (r.len() > 0 && r[0].len() == 0) ==> res == Err::<(Environment, Position), LoadError>(LoadError::ZeroWidth)
    &&& forall|y: int|
        #[trigger] first_mismatch(r, y) && r[0].len() > 0 ==> res == Err::<(Environment, Position), LoadError>(
            LoadError::InconsistentWidth { row: y as usize, expected: r[0].len() as usize, found: r[y].len() as usize },
        )
    &&& rectangular(r) ==> {
        &&& forall|x: int, y: int|
            #[trigger] first_bad(r, x, y) && r[y][x].is_none() ==> res == Err::<(Environment, Position), LoadError>(
                LoadError::UnknownCode { x: x as usize, y: y as usize },
            )
        &&& forall|x: int, y: int|
            #[trigger] first_bad(r, x, y) && is_start(r, x, y) ==> res == Err::<(Environment, Position), LoadError>(
                LoadError::MultipleStart,
            )
        &&& (no_bad(r) && !has_start(r)) ==> res == Err::<(Environment, Position), LoadError>(LoadError::NoStart)
        &&& (no_bad(r) && has_start(r) && r.len() * r[0].len() > usize::MAX) ==> res == Err::<
            (Environment, Position),
            LoadError,
        >(LoadError::TooLarge)
        &&& (no_bad(r) && has_start(r) && r.len() * r[0].len() <= usize::MAX) ==> res is Ok
    }
    &&& res is Ok ==> rectangular(r) && describes(r, res.unwrap().0, res.unwrap().1)
}

proof fn lemma_first_bad_unique(r: Seq<Seq<Option<Tile>>>, x: int, y: int)
    requires
        first_bad(r, x, y),
    ensures
        forall|x2: int, y2: int| #[trigger] first_bad(r, x2, y2) ==> x2 == x && y2 == y,
{
    assert forall|x2: int, y2: int| #[trigger] first_bad(r, x2, y2) implies x2 == x && y2 == y by {
        if before(x2, y2, x, y) {
            assert(!bad_at(r, x2, y2));
        } else if before(x, y, x2, y2) {
            assert(!bad_at(r, x, y));
        }
    }
}

/// Builds the world that rows of tiles describe.
#[verifier::rlimit(100)]
pub fn environment_from_rows(rows: &Vec<Vec<Option<Tile>>>) -> (res: Result<(Environment, Position), LoadError>)
    ensures
        load_outcome(rows_view(rows@), res),
{
    let ghost r = rows_view(rows@);
    if rows.len() == 0 {
        return Err(LoadError::Empty);
    }
    let height = rows.len();
    let width = rows[0].len();
    assert(r[0].len() == width);
    if width == 0 {
        return Err(LoadError::ZeroWidth);
    }
    let mut y: usize = 1;
    while y < height
        invariant
            1 <= y <= height,
            width > 0,
            height == rows@.len(),
            r == rows_view(rows@),
            width == r[0].len(),
            forall|y2: int| 0 <= y2 < y ==> #[trigger] r[y2].len() == width,
        decreases height - y,
    {
        assert(r[y as int].len() == rows@[y as int]@.len());
        if rows[y].len() != width {
            proof {
                assert(first_mismatch(r, y as int));
                assert forall|y3: int| #[trigger] first_mismatch(r, y3) implies y3 == y by {
                    if y3 < y {
                    } else if y3 > y {
                        assert(r[y as int].len() == r[0].len());
                    }
                }
            }
            assert(!rectangular(r));
            let res: Result<(Environment, Position), LoadError> = Err(LoadError::InconsistentWidth { row: y, expected: width, found: rows[y].len() });
            return res;
        }
        y = y + 1;
    }
    assert(rectangular(r));
    assert forall|y3: int| !#[trigger] first_mismatch(r, y3) by {}
    let mut start: Option<Position> = None;
    let mut y: usize = 0;
    while y < height
        invariant
            y <= height,
            height == r.len(),
            r == rows_view(rows@),
            rectangular(r),
            width == r[0].len(),
            forall|x2: int, y2: int| in_rect(r, x2, y2) && y2 < y ==> !#[trigger] bad_at(r, x2, y2),
            start matches Some(p) ==> in_rect(r, p.x as int, p.y as int) && is_start(r, p.x as int, p.y as int) && p.y < y,
            start is None ==> forall|x2: int, y2: int| in_rect(r, x2, y2) && y2 < y ==> !#[trigger] is_start(r, x2, y2),
        decreases height - y,
    {
        let mut x: usize = 0;
        assert(r[y as int].len() == width);
        while x < width
            invariant
                x <= width,
                y < height,
                height == r.len(),
                r == rows_view(rows@),
                rectangular(r),
                width == r[0].len(),
                r[y as int].len() == width,
                forall|x2: int, y2: int| in_rect(r, x2, y2) && before(x2, y2, x as int, y as int) ==> !#[trigger] bad_at(r, x2, y2),
                start matches Some(p) ==> in_rect(r, p.x as int, p.y as int) && is_start(r, p.x as int, p.y as int) && before(
                    p.x as int,
                    p.y as int,
                    x as int,
                    y as int,
                ),
                start is None ==> forall|x2: int, y2: int|
                    in_rect(r, x2, y2) && before(x2, y2, x as int, y as int) ==> !#[trigger] is_start(r, x2, y2),
            decreases width - x,
        {
            assert(rows@[y as int]@.len() == width);
            let t = rows[y][x];
            assert(t == r[y as int][x as int]);
            match t {
                None => {
                    proof {
                        assert(first_bad(r, x as int, y as int));
                        lemma_first_bad_unique(r, x as int, y as int);
                    }
                    return Err(LoadError::UnknownCode { x, y });
                },
                Some(Tile::Start) => {
                    match start {
                        Some(p) => {
                            proof {
                                assert(is_start(r, p.x as int, p.y as int));
                                assert(bad_at(r, x as int, y as int));
                                assert(first_bad(r, x as int, y as int));
                                lemma_first_bad_unique(r, x as int, y as int);
                            }
                            return Err(LoadError::MultipleStart);
                        },
                        None => {
                            start = Some(Position { x, y });
                        },
                    }
                },
                _ => {},
            }
            proof {
                assert(!bad_at(r, x as int, y as int));
            }
            x = x + 1;
        }
        y = y + 1;
    }
    assert(no_bad(r));
    assert forall|x: int, y: int| !#[trigger] first_bad(r, x, y) by {}
    let start = match start {
        Some(p) => p,
        None => {
            return Err(LoadError::NoStart);
        },
    };
    let size = match width.checked_mul(height) {
        Some(n) => n,
        None => {
            assert(r.len() * r[0].len() > usize::MAX) by (nonlinear_arith)
                requires
                    width * height > usize::MAX,
                    r.len() == height,
                    r[0].len() == width,
            ;
            return Err(LoadError::TooLarge);
        },
    };
    assert(width * height == r.len() * r[0].len()) by (nonlinear_arith)
        requires
            r.len() == height,
            r[0].len() == width,
    ;
    assert forall|x: usize, y: usize| x < width && y < height implies y < rows@.len() && x < rows@[y as int]@.len()
        && tile_in(rows@, x, y).is_some() by {
        assert(r[y as int].len() == width);
        assert(in_rect(r, x as int, y as int));
        assert(!bad_at(r, x as int, y as int));
    }
    let terrain = Grid::from_generator(
        width,
        height,
        (|x: usize, y: usize| -> (c: CellType)
            requires
                y < rows@.len(),
                x < rows@[y as int]@.len(),
                tile_in(rows@, x, y).is_some(),
            ensures
                c == tile_cell(tile_in(rows@, x, y).unwrap()),
            { cell_of_tile(tile_at(rows, x, y)) }),
    );
    let items = Grid::from_generator(
        width,
        height,
        (|x: usize, y: usize| -> (c: Option<Item>)
            requires
                y < rows@.len(),
                x < rows@[y as int]@.len(),
                tile_in(rows@, x, y).is_some(),
            ensures
                c == tile_item(tile_in(rows@, x, y).unwrap()),
            { item_of_tile(tile_at(rows, x, y)) }),
    );
    let env = Environment {
        terrain,
        items,
        agent_locations: Grid::filled(width, height, None),
        agents: Vec::new(),
        agent_behaviors: Vec::new(),
        next_entity_id: 0,
    };
    proof {
        assert(env.world().agents =~= Seq::<AgentModel>::empty());
        assert forall|i: int| 0 <= i < env.items@.len() && (#[trigger] env.items@[i]).is_some() implies env.terrain@[i]
            != CellType::Wall by {
            let (x, y) = env.items.lemma_coords(i);
            assert(in_rect(r, x, y));
            assert(!bad_at(r, x, y));
            assert(env.items.spec_at(x, y) == tile_item(r[y][x].unwrap()));
            assert(env.terrain.spec_at(x, y) == tile_cell(r[y][x].unwrap()));
        }
        assert forall|x: int, y: int| in_rect(r, x, y) implies {
            &&& #[trigger] env.terrain.spec_at(x, y) == tile_cell(r[y][x].unwrap())
            &&& env.items.spec_at(x, y) == tile_item(r[y][x].unwrap())
            &&& env.agent_locations.spec_at(x, y).is_none()
        } by {
            assert(!bad_at(r, x, y));
            env.terrain.lemma_idx(x, y);
            assert(env.terrain.spec_at(x as usize as int, y as usize as int) == tile_cell(r[y][x].unwrap()));
            assert(env.items.spec_at(x as usize as int, y as usize as int) == tile_item(r[y][x].unwrap()));
        }
    }
    Ok((env, start))
}

/// Parses a map text into a world and the start position.
pub fn load_environment_from_string(map_string: &str) -> (res: Result<(Environment, Position), LoadError>)
    ensures
        load_outcome(map_rows(map_string.spec_bytes()), res),
{
    let text = space_wide_whitespace(map_string.as_bytes());
    let rows = split_rows(text.as_slice());
    environment_from_rows(&rows)
}

} // verus!
