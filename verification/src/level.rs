use vstd::prelude::*;
use crate::block::Block;
use crate::board::{Board, ExitSide};
use crate::components::PositionDuringGame;
use crate::constants::{Direction, GameGlobals};
use crate::entity::{
    block_fits, block_view_spec, create_block, create_exit, create_floor, create_wall, exit_view, floor_view,
    wall_view, EntityView, World,
};
use crate::text::{
    decimal, digit_char, digit_str, lemma_digit_char_range, lemma_first_digit, lemma_trim_identity,
    no_outer_whitespace, is_whitespace, is_whitespace_exec, leading_whitespace, lemma_split_concat,
    lemma_split_single, split, to_chars, trailing_whitespace, trim,
};

verus! {

broadcast use vstd::string::group_string_axioms;

/// Whether the regular expression `pattern` compiles.
pub uninterp spec fn regex_compiles(pattern: Seq<char>) -> bool;

/// Whether the regular expression `pattern` matches somewhere in `haystack`.
pub uninterp spec fn regex_finds(pattern: Seq<char>, haystack: Seq<char>) -> bool;

/// `regex::Regex::new(pattern)` followed, where it compiles, by
/// `Regex::is_match(haystack)`. Compiling succeeds exactly where
/// `regex_compiles` holds, and the match is named by `regex_finds`. For the
/// pattern `^[0-9]$` the crate's documented syntax gives the result: it
/// compiles, and it matches exactly a haystack of one character from '0' to
/// '9' (`^` and `$` anchor at the start and end of the haystack).
#[verifier::external_body]
fn regex_is_match(pattern: &str, haystack: &str) -> (r: Result<bool, regex::Error>)
    ensures
        r.is_ok() <==> regex_compiles(pattern@),
        r.is_ok() ==> r->Ok_0 == regex_finds(pattern@, haystack@),
        pattern@ == "^[0-9]$"@ ==> r.is_ok() && r->Ok_0 == is_digit_token(haystack@),
{
    match regex::Regex::new(pattern) {
        Ok(re) => Ok(re.is_match(haystack)),
        Err(e) => Err(e),
    }
}

#[verifier::external_type_specification]
#[verifier::external_body]
pub struct ExRegexError(regex::Error);

/// The size and escape flag of the last block of the first `n` entries of
/// `dict` whose id is `id`. An entry is (id, width, height, can escape).
pub open spec fn lookup_block(dict: Seq<(u8, u8, u8, bool)>, id: int, n: int) -> Option<(u8, u8, bool)>
    decreases n,
{
    if n <= 0 {
        None
    } else if dict[n - 1].0 == id {
        Some((dict[n - 1].1, dict[n - 1].2, dict[n - 1].3))
    } else {
        lookup_block(dict, id, n - 1)
    }
}

/// Whether `tok` is a single decimal digit.
pub open spec fn is_digit_token(tok: Seq<char>) -> bool {
    tok.len() == 1 && '0' <= tok[0] <= '9'
}

/// The value of the decimal digit `c`.
pub open spec fn digit_value(c: char) -> int {
    c as int - '0' as int
}

/// The block entry that a digit token of the map names.
pub open spec fn token_block(dict: Seq<(u8, u8, u8, bool)>, tok: Seq<char>) -> Option<(u8, u8, bool)> {
    lookup_block(dict, digit_value(tok[0]), dict.len() as int)
}

/// The map cell of token `x` in row `y`, with coordinates taken modulo 256.
pub open spec fn tile_position(x: int, y: int) -> PositionDuringGame {
    PositionDuringGame { x: (x % 256) as u8, y: (y % 256) as u8, z: 0 }
}

/// The entities made for one token of the map: "." a floor, "W" a floor and
/// a wall, "E" an exit, a digit a floor and the block of that id.
pub open spec fn token_entities(tok: Seq<char>, x: int, y: int, dict: Seq<(u8, u8, u8, bool)>) -> Seq<EntityView> {
    let p = tile_position(x, y);
    if tok == "."@ {
        seq![floor_view(p)]
    } else if tok == "W"@ {
        seq![floor_view(p), wall_view(p)]
    } else if tok == "E"@ {
        seq![exit_view(p)]
    } else if is_digit_token(tok) {
        seq![floor_view(p), EntityView::Block(block_view_spec(p, tok, token_block(dict, tok)))]
    } else {
        Seq::empty()
    }
}

/// Whether a token is one the map may hold at its cell: ".", "W", "E", or a
/// digit whose block fits there.
pub open spec fn token_loadable(tok: Seq<char>, x: int, y: int, dict: Seq<(u8, u8, u8, bool)>) -> bool {
    ||| tok == "."@
    ||| tok == "W"@
    ||| tok == "E"@
    ||| is_digit_token(tok) && block_fits(tile_position(x, y), token_block(dict, tok))
}

/// The exit cells of the first `n` tokens of row `y`, on layer 6.
pub open spec fn row_exits(tokens: Seq<Seq<char>>, y: int, n: int) -> Seq<PositionDuringGame>
    decreases n,
{
    if n <= 0 {
        Seq::empty()
    } else {
        row_exits(tokens, y, n - 1) + (if tokens[n - 1] == "E"@ {
            seq![PositionDuringGame { x: ((n - 1) % 256) as u8, y: (y % 256) as u8, z: 6 }]
        } else {
            Seq::empty()
        })
    }
}

/// The entities of the first `n` tokens of row `y`.
pub open spec fn row_entities(tokens: Seq<Seq<char>>, y: int, dict: Seq<(u8, u8, u8, bool)>, n: int) -> Seq<EntityView>
    decreases n,
{
    if n <= 0 {
        Seq::empty()
    } else {
        row_entities(tokens, y, dict, n - 1) + token_entities(tokens[n - 1], n - 1, y, dict)
    }
}

/// The rows of a map text, each a sequence of tokens: the trimmed text split
/// at line breaks, each line trimmed and split at spaces.
pub open spec fn map_rows(s: Seq<char>) -> Seq<Seq<Seq<char>>> {
    split(trim(s), '\n').map_values(|r: Seq<char>| split(trim(r), ' '))
}

/// The entities of the first `n` rows.
pub open spec fn rows_entities(rows: Seq<Seq<Seq<char>>>, dict: Seq<(u8, u8, u8, bool)>, n: int) -> Seq<EntityView>
    decreases n,
{
    if n <= 0 {
        Seq::empty()
    } else {
        rows_entities(rows, dict, n - 1) + row_entities(rows[n - 1], n - 1, dict, rows[n - 1].len() as int)
    }
}

/// The exit cells of the first `n` rows.
pub open spec fn rows_exits(rows: Seq<Seq<Seq<char>>>, n: int) -> Seq<PositionDuringGame>
    decreases n,
{
    if n <= 0 {
        Seq::empty()
    } else {
        rows_exits(rows, n - 1) + row_exits(rows[n - 1], n - 1, rows[n - 1].len() as int)
    }
}

/// Whether one of the first `n` tokens is an exit.
pub open spec fn row_has_exit(tokens: Seq<Seq<char>>, n: int) -> bool
    decreases n,
{
    n > 0 && (tokens[n - 1] == "E"@ || row_has_exit(tokens, n - 1))
}

/// Whether a token of the first `n` rows is an exit.
pub open spec fn rows_have_exit(rows: Seq<Seq<Seq<char>>>, n: int) -> bool
    decreases n,
{
    n > 0 && (row_has_exit(rows[n - 1], rows[n - 1].len() as int) || rows_have_exit(rows, n - 1))
}

/// Whether every token of the rows is loadable at its cell.
pub open spec fn rows_loadable(rows: Seq<Seq<Seq<char>>>, dict: Seq<(u8, u8, u8, bool)>) -> bool {
    forall|y: int, x: int| 0 <= y < rows.len() && 0 <= x < rows[y].len() ==> #[trigger] token_loadable(rows[y][x], x, y, dict)
}

/// The arrow key that leads through an exit on `side`.
pub open spec fn exit_key_of(side: ExitSide) -> Direction {
    match side {
        ExitSide::Bottom => Direction::Down,
        ExitSide::Top => Direction::Up,
        ExitSide::Left => Direction::Left,
        ExitSide::Right => Direction::Right,
    }
}

proof fn lemma_leading(s: Seq<char>, k: int)
    requires
        0 <= k <= s.len(),
        forall|i: int| 0 <= i < k ==> is_whitespace(#[trigger] s[i]),
        k == s.len() || !is_whitespace(s[k]),
    ensures
        leading_whitespace(s) == k,
    decreases k,
{
    if k > 0 {
        lemma_leading(s.drop_first(), k - 1);
    }
}

proof fn lemma_trailing(s: Seq<char>, k: int)
    requires
        0 <= k <= s.len(),
        forall|i: int| s.len() - k <= i < s.len() ==> is_whitespace(#[trigger] s[i]),
        k == s.len() || !is_whitespace(s[s.len() - k - 1]),
    ensures
        trailing_whitespace(s) == k,
    decreases k,
{
    if k > 0 {
        lemma_trailing(s.drop_last(), k - 1);
    }
}

/// The bounds of `chars[start..end]` without its outer white space.
fn trim_bounds(chars: &Vec<char>, start: usize, end: usize) -> (r: (usize, usize))
    requires
        start <= end <= chars@.len(),
    ensures
        start <= r.0 <= r.1 <= end,
        chars@.subrange(r.0 as int, r.1 as int) == trim(chars@.subrange(start as int, end as int)),
{
    let ghost s = chars@.subrange(start as int, end as int);
    let mut a = start;
    while a < end && is_whitespace_exec(chars[a])
        invariant
            start <= a <= end <= chars@.len(),
            s == chars@.subrange(start as int, end as int),
            forall|i: int| 0 <= i < a - start ==> is_whitespace(#[trigger] s[i]),
        decreases end - a,
    {
        a = a + 1;
    }
    proof {
        lemma_leading(s, a - start);
    }
    let ghost t = s.skip(a - start);
    assert(t =~= chars@.subrange(a as int, end as int));
    let mut b = end;
    while b > a && is_whitespace_exec(chars[b - 1])
        invariant
            start <= a <= b <= end <= chars@.len(),
            t == chars@.subrange(a as int, end as int),
            forall|i: int| t.len() - (end - b) <= i < t.len() ==> is_whitespace(#[trigger] t[i]),
        decreases b - a,
    {
        b = b - 1;
    }
    proof {
        lemma_trailing(t, end - b);
        assert(chars@.subrange(a as int, b as int) =~= t.take(t.len() - trailing_whitespace(t)));
    }
    (a, b)
}

/// Loads one token, `chars[ks..ke]`, as token `x` of row `y`.
fn load_token(
    world: &mut World,
    globals: &mut GameGlobals,
    map_string: &str,
    chars: &Vec<char>,
    ks: usize,
    ke: usize,
    x: usize,
    y: usize,
    block_dict: &Vec<(u8, u8, u8, bool)>,
    exit_side: ExitSide,
)
    requires
        ks <= ke <= chars@.len(),
        chars@ == map_string@,
        token_loadable(chars@.subrange(ks as int, ke as int), x as int, y as int, block_dict@),
    ensures
        ({
            let tok = chars@.subrange(ks as int, ke as int);
            &&& final(world)@ == old(world)@ + token_entities(tok, x as int, y as int, block_dict@)
            &&& final(globals).exit_positions@ == old(globals).exit_positions@ + (if tok == "E"@ {
                seq![PositionDuringGame { x: (x % 256) as u8, y: (y % 256) as u8, z: 6 }]
            } else {
                Seq::empty()
            })
            &&& final(globals).exit_key == (if tok == "E"@ { exit_key_of(exit_side) } else { old(globals).exit_key })
            &&& final(globals).game_state == old(globals).game_state
            &&& final(globals).map_width == old(globals).map_width
            &&& final(globals).map_height == old(globals).map_height
        }),
{
    let ghost tok = chars@.subrange(ks as int, ke as int);
    let position = PositionDuringGame { x: (x % 256) as u8, y: (y % 256) as u8, z: 0 };
    assert(position == tile_position(x as int, y as int));
    proof {
        reveal_strlit(".");
        reveal_strlit("W");
        reveal_strlit("E");
    }
    let single = ke - ks == 1;
    if single && chars[ks] == '.' {
        assert(tok =~= "."@);
        create_floor(world, position);
        assert(world@ =~= old(world)@ + token_entities(tok, x as int, y as int, block_dict@));
    } else if single && chars[ks] == 'W' {
        assert(tok =~= "W"@);
        create_floor(world, position);
        create_wall(world, position);
        assert(world@ =~= old(world)@ + token_entities(tok, x as int, y as int, block_dict@));
    } else if single && chars[ks] == 'E' {
        assert(tok =~= "E"@);
        globals.exit_key = match exit_side {
            ExitSide::Bottom => Direction::Down,
            ExitSide::Top => Direction::Up,
            ExitSide::Left => Direction::Left,
            ExitSide::Right => Direction::Right,
        };
        let exit_position = PositionDuringGame { x: position.x, y: position.y, z: 6 };
        globals.exit_positions.push(exit_position);
        create_exit(world, position);
        assert(world@ =~= old(world)@ + token_entities(tok, x as int, y as int, block_dict@));
    } else {
        assert(tok != "."@ && tok != "W"@ && tok != "E"@) by {
            if tok.len() == 1 {
                assert(tok[0] == chars@[ks as int]);
            }
        }
        let column = map_string.substring_char(ks, ke);
        assert(column@ == tok);
        let matched = regex_is_match("^[0-9]$", column);
        match matched {
            Ok(true) => {
                let digit = chars[ks];
                assert(tok[0] == digit);
                let id: u8 = ((digit as u32) - ('0' as u32)) as u8;
                let info = lookup_block_exec(block_dict, id);
                assert(info == token_block(block_dict@, tok));
                create_floor(world, position);
                create_block(world, position, column, info);
                assert(world@ =~= old(world)@ + token_entities(tok, x as int, y as int, block_dict@));
            },
            _ => {
                assert(world@ =~= old(world)@ + token_entities(tok, x as int, y as int, block_dict@));
            },
        }
    }
    assert(globals.exit_positions@ =~= old(globals).exit_positions@ + (if tok == "E"@ {
        seq![PositionDuringGame { x: (x % 256) as u8, y: (y % 256) as u8, z: 6 }]
    } else {
        Seq::empty()
    }));
}

/// The entry of `dict` for block `id`: the last with that id.
fn lookup_block_exec(dict: &Vec<(u8, u8, u8, bool)>, id: u8) -> (r: Option<(u8, u8, bool)>)
    ensures
        r == lookup_block(dict@, id as int, dict@.len() as int),
{
    let n = dict.len();
    let mut r: Option<(u8, u8, bool)> = None;
    for i in 0..n
        invariant
            n == dict@.len(),
            r == lookup_block(dict@, id as int, i as int),
    {
        if dict[i].0 == id {
            r = Some((dict[i].1, dict[i].2, dict[i].3));
        }
    }
    r
}

/// Loads the tokens of the line `chars[rs..re]` as row `y`.
fn load_row(
    world: &mut World,
    globals: &mut GameGlobals,
    map_string: &str,
    chars: &Vec<char>,
    rs: usize,
    re: usize,
    y: usize,
    block_dict: &Vec<(u8, u8, u8, bool)>,
    exit_side: ExitSide,
)
    requires
        rs <= re <= chars@.len(),
        chars@ == map_string@,
        ({
            let tokens = split(trim(chars@.subrange(rs as int, re as int)), ' ');
            forall|x: int| 0 <= x < tokens.len() ==> #[trigger] token_loadable(tokens[x], x, y as int, block_dict@)
        }),
    ensures
        ({
            let tokens = split(trim(chars@.subrange(rs as int, re as int)), ' ');
            &&& final(world)@ == old(world)@ + row_entities(tokens, y as int, block_dict@, tokens.len() as int)
            &&& final(globals).exit_positions@ == old(globals).exit_positions@ + row_exits(tokens, y as int, tokens.len() as int)
            &&& final(globals).exit_key == (if row_has_exit(tokens, tokens.len() as int) { exit_key_of(exit_side) } else { old(globals).exit_key })
            &&& final(globals).game_state == old(globals).game_state
            &&& final(globals).map_width == old(globals).map_width
            &&& final(globals).map_height == old(globals).map_height
        }),
{
    let (ts, te) = trim_bounds(chars, rs, re);
    let ghost tokens = split(trim(chars@.subrange(rs as int, re as int)), ' ');
    assert(tokens == split(chars@.subrange(ts as int, te as int), ' '));
    let ghost mut done: Seq<Seq<char>> = Seq::empty();
    let mut ks = ts;
    let mut x: usize = 0;
    let mut k = ts;
    assert(done + split(chars@.subrange(ks as int, te as int), ' ') =~= tokens);
    while k < te
        invariant
            ts <= ks <= k <= te <= chars@.len(),
            chars@ == map_string@,
            x == done.len(),
            x <= ks,
            tokens == done + split(chars@.subrange(ks as int, te as int), ' '),
            !chars@.subrange(ks as int, k as int).contains(' '),
            forall|j: int| 0 <= j < tokens.len() ==> #[trigger] token_loadable(tokens[j], j, y as int, block_dict@),
            world@ == old(world)@ + row_entities(tokens, y as int, block_dict@, x as int),
            globals.exit_positions@ == old(globals).exit_positions@ + row_exits(tokens, y as int, x as int),
            globals.exit_key == (if row_has_exit(tokens, x as int) { exit_key_of(exit_side) } else { old(globals).exit_key }),
            globals.game_state == old(globals).game_state,
            globals.map_width == old(globals).map_width,
            globals.map_height == old(globals).map_height,
        decreases te - k,
    {
        if chars[k] == ' ' {
            let ghost piece = chars@.subrange(ks as int, k as int);
            let ghost rest = chars@.subrange(k + 1, te as int);
            proof {
                assert(chars@.subrange(ks as int, te as int) =~= piece + seq![' '] + rest);
                lemma_split_concat(piece, rest, ' ');
                lemma_split_single(piece, ' ');
                assert(tokens =~= done.push(piece) + split(rest, ' '));
                assert(tokens[x as int] == piece);
            }
            load_token(world, globals, map_string, chars, ks, k, x, y, block_dict, exit_side);
            proof {
                done = done.push(piece);
                assert(row_entities(tokens, y as int, block_dict@, x + 1) == row_entities(tokens, y as int, block_dict@, x as int) + token_entities(tokens[x as int], x as int, y as int, block_dict@));
                assert(world@ =~= old(world)@ + row_entities(tokens, y as int, block_dict@, x + 1));
                assert(globals.exit_positions@ =~= old(globals).exit_positions@ + row_exits(tokens, y as int, x + 1));
            }
            x = x + 1;
            ks = k + 1;
            assert(chars@.subrange(ks as int, (k + 1) as int) =~= Seq::<char>::empty());
        } else {
            proof {
                assert(chars@.subrange(ks as int, k + 1) =~= chars@.subrange(ks as int, k as int).push(chars@[k as int]));
                let sub = chars@.subrange(ks as int, k + 1);
                assert(!sub.contains(' ')) by {
                    if sub.contains(' ') {
                        let i = choose|i: int| 0 <= i < sub.len() && #[trigger] sub[i] == ' ';
                        if i < k - ks {
                            assert(chars@.subrange(ks as int, k as int)[i] == ' ');
                        }
                    }
                }
            }
        }
        k = k + 1;
    }
    let ghost piece = chars@.subrange(ks as int, te as int);
    proof {
        lemma_split_single(piece, ' ');
        assert(tokens =~= done.push(piece));
        assert(tokens[x as int] == piece);
    }
    load_token(world, globals, map_string, chars, ks, te, x, y, block_dict, exit_side);
    proof {
        assert(tokens.len() == x + 1);
        assert(world@ =~= old(world)@ + row_entities(tokens, y as int, block_dict@, x + 1));
        assert(globals.exit_positions@ =~= old(globals).exit_positions@ + row_exits(tokens, y as int, x + 1));
    }
}

/// Builds the level from its map text: one row per line (after trimming the
/// text and each line), one cell per token of a line split at spaces. Each
/// token creates its entities (see `token_entities`) at its cell; an exit
/// token also records its cell, at layer 6, and sets the exit key to the
/// arrow key of `exit_side`. A token other than ".", "W", "E" or a digit
/// whose block fits at its cell is refused.
pub fn load_map(
    world: &mut World,
    map_string: &str,
    block_dict: &Vec<(u8, u8, u8, bool)>,
    exit_side: ExitSide,
    globals: &mut GameGlobals,
)
    requires
        rows_loadable(map_rows(map_string@), block_dict@),
    ensures
        ({
            let rows = map_rows(map_string@);
            &&& final(world)@ == old(world)@ + rows_entities(rows, block_dict@, rows.len() as int)
            &&& final(globals).exit_positions@ == old(globals).exit_positions@ + rows_exits(rows, rows.len() as int)
            &&& final(globals).exit_key == (if rows_have_exit(rows, rows.len() as int) { exit_key_of(exit_side) } else { old(globals).exit_key })
            &&& final(globals).game_state == old(globals).game_state
            &&& final(globals).map_width == old(globals).map_width
            &&& final(globals).map_height == old(globals).map_height
        }),
{
    let chars = to_chars(map_string);
    let n = chars.len();
    assert(chars@.subrange(0, n as int) =~= map_string@);
    let (a, b) = trim_bounds(&chars, 0, n);
    let ghost rows = map_rows(map_string@);
    let ghost lines = split(chars@.subrange(a as int, b as int), '\n');
    assert(rows == lines.map_values(|r: Seq<char>| split(trim(r), ' ')));
    let ghost mut done: Seq<Seq<char>> = Seq::empty();
    let mut rs = a;
    let mut y: usize = 0;
    let mut k = a;
    assert(done + split(chars@.subrange(rs as int, b as int), '\n') =~= lines);
    while k < b
        invariant
            a <= rs <= k <= b <= chars@.len(),
            chars@ == map_string@,
            y == done.len(),
            y <= rs,
            lines == done + split(chars@.subrange(rs as int, b as int), '\n'),
            rows == lines.map_values(|r: Seq<char>| split(trim(r), ' ')),
            !chars@.subrange(rs as int, k as int).contains('\n'),
            rows_loadable(rows, block_dict@),
            world@ == old(world)@ + rows_entities(rows, block_dict@, y as int),
            globals.exit_positions@ == old(globals).exit_positions@ + rows_exits(rows, y as int),
            globals.exit_key == (if rows_have_exit(rows, y as int) { exit_key_of(exit_side) } else { old(globals).exit_key }),
            globals.game_state == old(globals).game_state,
            globals.map_width == old(globals).map_width,
            globals.map_height == old(globals).map_height,
        decreases b - k,
    {
        if chars[k] == '\n' {
            let ghost piece = chars@.subrange(rs as int, k as int);
            let ghost rest = chars@.subrange(k + 1, b as int);
            proof {
                assert(chars@.subrange(rs as int, b as int) =~= piece + seq!['\n'] + rest);
                lemma_split_concat(piece, rest, '\n');
                lemma_split_single(piece, '\n');
                assert(lines =~= done.push(piece) + split(rest, '\n'));
                assert(lines[y as int] == piece);
                assert(rows[y as int] == split(trim(piece), ' '));
                assert forall|x: int| 0 <= x < rows[y as int].len() implies #[trigger] token_loadable(rows[y as int][x], x, y as int, block_dict@) by {
                    assert(token_loadable(rows[y as int][x], x, y as int, block_dict@));
                }
            }
            load_row(world, globals, map_string, &chars, rs, k, y, block_dict, exit_side);
            proof {
                done = done.push(piece);
                assert(world@ =~= old(world)@ + rows_entities(rows, block_dict@, y + 1));
                assert(globals.exit_positions@ =~= old(globals).exit_positions@ + rows_exits(rows, y + 1));
            }
            y = y + 1;
            rs = k + 1;
            assert(chars@.subrange(rs as int, (k + 1) as int) =~= Seq::<char>::empty());
        } else {
            proof {
                assert(chars@.subrange(rs as int, k + 1) =~= chars@.subrange(rs as int, k as int).push(chars@[k as int]));
                let sub = chars@.subrange(rs as int, k + 1);
                assert(!sub.contains('\n')) by {
                    if sub.contains('\n') {
                        let i = choose|i: int| 0 <= i < sub.len() && #[trigger] sub[i] == '\n';
                        if i < k - rs {
                            assert(chars@.subrange(rs as int, k as int)[i] == '\n');
                        }
                    }
                }
            }
        }
        k = k + 1;
    }
    let ghost piece = chars@.subrange(rs as int, b as int);
    proof {
        lemma_split_single(piece, '\n');
        assert(lines =~= done.push(piece));
        assert(lines[y as int] == piece);
        assert(rows[y as int] == split(trim(piece), ' '));
        assert forall|x: int| 0 <= x < rows[y as int].len() implies #[trigger] token_loadable(rows[y as int][x], x, y as int, block_dict@) by {
            assert(token_loadable(rows[y as int][x], x, y as int, block_dict@));
        }
    }
    load_row(world, globals, map_string, &chars, rs, b, y, block_dict, exit_side);
    proof {
        assert(rows.len() == y + 1);
        assert(world@ =~= old(world)@ + rows_entities(rows, block_dict@, y + 1));
        assert(globals.exit_positions@ =~= old(globals).exit_positions@ + rows_exits(rows, y + 1));
    }
}

/// The end (exclusive) of the exit along its side: its far end, cut at the
/// width on the top and bottom sides, at the height on the left and right.
pub open spec fn exit_stop(board: Board) -> int {
    let e = board.exit_position;
    let limit = if e.side == ExitSide::Bottom || e.side == ExitSide::Top { board.width as int } else { board.height as int };
    if e.distance_to_edge + e.length < limit { e.distance_to_edge + e.length } else { limit }
}

/// Whether cell `(r, c)` of the level grid is an exit. The grid has a frame of
/// walls around the board: row 0 is the bottom wall, row `height + 1` the top
/// wall, column 0 the left wall and column `width + 1` the right wall. On the
/// bottom and top sides the exit runs right from column `distance_to_edge +
/// 1`; on the left and right sides the distance counts from the top edge, so
/// the exit runs down from row `height - distance_to_edge`, the frame's corners
/// staying walls.
pub open spec fn exit_cell(board: Board, r: int, c: int) -> bool {
    let e = board.exit_position;
    let s = e.distance_to_edge as int;
    let h = board.height as int;
    match e.side {
        ExitSide::Bottom => r == 0 && s <= c - 1 < exit_stop(board),
        ExitSide::Top => r == h + 1 && s <= c - 1 < exit_stop(board),
        ExitSide::Left => c == 0 && s <= h - r < exit_stop(board),
        ExitSide::Right => c == board.width + 1 && s <= h - r < exit_stop(board),
    }
}

/// The first digit of the id of the last of the first `n` blocks whose anchor
/// lies at grid cell `(r, c)` (the grid cell of board cell `(x, y)` is
/// `(y + 1, x + 1)`).
pub open spec fn block_char_at(blocks: Seq<Block>, r: int, c: int, n: int) -> Option<char>
    decreases n,
{
    if n <= 0 {
        None
    } else if blocks[n - 1].initial_location.1 + 1 == r && blocks[n - 1].initial_location.0 + 1 == c {
        Some(decimal(blocks[n - 1].block_id as nat)[0])
    } else {
        block_char_at(blocks, r, c, n - 1)
    }
}

/// The character of grid cell `(r, c)`: a block's digit, else 'E' on the
/// exit, else 'W' on the frame, else '.'.
pub open spec fn map_cell(board: Board, r: int, c: int) -> char {
    match block_char_at(board.blocks@, r, c, board.blocks@.len() as int) {
        Some(ch) => ch,
        None => if exit_cell(board, r, c) {
            'E'
        } else if r == 0 || r == board.height + 1 || c == 0 || c == board.width + 1 {
            'W'
        } else {
            '.'
        },
    }
}

/// The characters of a row separated by single spaces.
pub open spec fn spaced(row: Seq<char>) -> Seq<char>
    decreases row.len(),
{
    if row.len() == 0 {
        Seq::empty()
    } else if row.len() == 1 {
        seq![row[0]]
    } else {
        spaced(row.drop_last()) + seq![' ', row.last()]
    }
}

/// Lines joined by line breaks.
pub open spec fn joined_lines(rows: Seq<Seq<char>>) -> Seq<char>
    decreases rows.len(),
{
    if rows.len() == 0 {
        Seq::empty()
    } else if rows.len() == 1 {
        rows[0]
    } else {
        joined_lines(rows.drop_last()) + seq!['\n'] + rows.last()
    }
}

/// The grid row shown as line `y` of the map text: the top row first.
pub open spec fn text_row(board: Board, y: int) -> Seq<char> {
    Seq::new((board.width + 2) as nat, |x: int| map_cell(board, board.height + 1 - y, x))
}

/// The map text of a board: the grid rows from the top down, each with its
/// characters separated by spaces, joined by line breaks.
pub open spec fn map_text(board: Board) -> Seq<char> {
    joined_lines(Seq::new((board.height + 2) as nat, |y: int| spaced(text_row(board, y))))
}

/// The map text read back as rows of tokens: line `y`, token `x` is the
/// character of cell `x` of text row `y`.
pub open spec fn level_rows(board: Board) -> Seq<Seq<Seq<char>>> {
    Seq::new((board.height + 2) as nat, |y: int| text_row(board, y).map_values(|ch: char| seq![ch]))
}

/// The block dictionary of a board: id, width, height and escape flag of each
/// block, in order.
pub open spec fn board_block_info(board: Board) -> Seq<(u8, u8, u8, bool)> {
    board.blocks@.map_values(|b: Block| (b.block_id, b.width, b.height, b.can_escape))
}

/// Whether every block drawn on the map fits at its cell, with the size that
/// the dictionary gives for its digit.
pub open spec fn level_blocks_fit(board: Board) -> bool {
    forall|y: int, x: int|
        0 <= y < board.height + 2 && 0 <= x < board.width + 2
            && (#[trigger] block_char_at(board.blocks@, board.height + 1 - y, x, board.blocks@.len() as int)) is Some
            ==> block_fits(
            PositionDuringGame { x: x as u8, y: y as u8, z: 0 },
            lookup_block(
                board_block_info(board),
                digit_value(block_char_at(board.blocks@, board.height + 1 - y, x, board.blocks@.len() as int)->0),
                board.blocks@.len() as int,
            ),
        )
}

/// Whether the level of `board` can be built: the map fits in bytes, the exit
/// rows and columns can be computed, every block anchor lies on the grid and
/// every block drawn fits.
pub open spec fn level_buildable(board: Board) -> bool {
    let e = board.exit_position;
    &&& board.width <= 253
    &&& board.height <= 253
    &&& e.side == ExitSide::Top && e.length > 0 && e.distance_to_edge < board.width ==> board.height >= 1
    &&& e.side == ExitSide::Right && e.length > 0 && e.distance_to_edge < board.height ==> board.width >= 1
    &&& forall|i: int| 0 <= i < board.blocks@.len() ==> {
        &&& (#[trigger] board.blocks@[i]).initial_location.0 <= board.width
        &&& board.blocks@[i].initial_location.1 <= board.height
    }
    &&& level_blocks_fit(board)
}

proof fn lemma_block_char_digit(blocks: Seq<Block>, r: int, c: int, n: int)
    ensures
        block_char_at(blocks, r, c, n) matches Some(ch) ==> '0' <= ch <= '9',
    decreases n,
{
    if n > 0 {
        lemma_block_char_digit(blocks, r, c, n - 1);
        let b = blocks[n - 1];
        lemma_first_digit(b.block_id);
        let d = if b.block_id >= 100 { (b.block_id / 100) as int } else if b.block_id >= 10 { (b.block_id / 10) as int } else { b.block_id as int };
        lemma_digit_char_range(d);
    }
}

/// A map character: '.', 'W', 'E' or a digit.
pub open spec fn is_map_char(ch: char) -> bool {
    ch == '.' || ch == 'W' || ch == 'E' || ('0' <= ch <= '9')
}

proof fn lemma_map_cell_char(board: Board, r: int, c: int)
    ensures
        is_map_char(map_cell(board, r, c)),
{
    lemma_block_char_digit(board.blocks@, r, c, board.blocks@.len() as int);
}

proof fn lemma_spaced(row: Seq<char>)
    requires
        row.len() >= 1,
        forall|i: int| 0 <= i < row.len() ==> is_map_char(#[trigger] row[i]),
    ensures
        spaced(row).len() >= 1,
        spaced(row)[0] == row[0],
        spaced(row).last() == row.last(),
        !spaced(row).contains('\n'),
        split(spaced(row), ' ') == row.map_values(|ch: char| seq![ch]),
    decreases row.len(),
{
    if row.len() == 1 {
        assert(is_map_char(row[0]));
        assert(!seq![row[0]].contains(' ')) by {
            if seq![row[0]].contains(' ') {
                let i = choose|i: int| 0 <= i < 1 && #[trigger] seq![row[0]][i] == ' ';
            }
        }
        lemma_split_single(seq![row[0]], ' ');
        assert(row.map_values(|ch: char| seq![ch]) =~= seq![seq![row[0]]]);
        assert(!spaced(row).contains('\n')) by {
            if spaced(row).contains('\n') {
                let i = choose|i: int| 0 <= i < spaced(row).len() && #[trigger] spaced(row)[i] == '\n';
            }
        }
    } else {
        let init = row.drop_last();
        assert forall|i: int| 0 <= i < init.len() implies is_map_char(#[trigger] init[i]) by {
            assert(init[i] == row[i]);
        }
        lemma_spaced(init);
        let last = row.last();
        assert(is_map_char(row[row.len() - 1]));
        assert(spaced(row) == spaced(init) + seq![' ', last]);
        assert(spaced(init) + seq![' ', last] =~= spaced(init) + seq![' '] + seq![last]);
        lemma_split_concat(spaced(init), seq![last], ' ');
        assert(!seq![last].contains(' ')) by {
            if seq![last].contains(' ') {
                let i = choose|i: int| 0 <= i < 1 && #[trigger] seq![last][i] == ' ';
            }
        }
        lemma_split_single(seq![last], ' ');
        assert(row.map_values(|ch: char| seq![ch]) =~= init.map_values(|ch: char| seq![ch]) + seq![seq![last]]);
        assert(!spaced(row).contains('\n')) by {
            if spaced(row).contains('\n') {
                let i = choose|i: int| 0 <= i < spaced(row).len() && #[trigger] spaced(row)[i] == '\n';
                if i < spaced(init).len() {
                    assert(spaced(init)[i] == '\n');
                }
            }
        }
    }
}

proof fn lemma_joined(rows: Seq<Seq<char>>)
    requires
        rows.len() >= 1,
        forall|i: int| 0 <= i < rows.len() ==> (#[trigger] rows[i]).len() >= 1 && !rows[i].contains('\n'),
    ensures
        joined_lines(rows).len() >= 1,
        joined_lines(rows)[0] == rows[0][0],
        joined_lines(rows).last() == rows.last().last(),
        split(joined_lines(rows), '\n') == rows,
    decreases rows.len(),
{
    if rows.len() == 1 {
        assert(rows[0].len() >= 1 && !rows[0].contains('\n'));
        lemma_split_single(rows[0], '\n');
        assert(seq![rows[0]] =~= rows);
    } else {
        let init = rows.drop_last();
        assert forall|i: int| 0 <= i < init.len() implies (#[trigger] init[i]).len() >= 1 && !init[i].contains('\n') by {
            assert(init[i] == rows[i]);
            assert(rows[i].len() >= 1 && !rows[i].contains('\n'));
        }
        lemma_joined(init);
        let last = rows.last();
        assert(last.len() >= 1 && !last.contains('\n')) by {
            assert(rows[rows.len() - 1].len() >= 1 && !rows[rows.len() - 1].contains('\n'));
        }
        lemma_split_concat(joined_lines(init), last, '\n');
        lemma_split_single(last, '\n');
        assert(init + seq![last] =~= rows);
        assert(init[0] == rows[0]);
    }
}

/// The map text of a board reads back, token by token, as the characters of
/// its grid rows from the top down.
pub proof fn lemma_map_text_rows(board: Board)
    ensures
        map_rows(map_text(board)) == level_rows(board),
{
    let lines = Seq::new((board.height + 2) as nat, |y: int| spaced(text_row(board, y)));
    assert forall|y: int| 0 <= y < board.height + 2 implies {
        &&& (#[trigger] lines[y]).len() >= 1
        &&& !lines[y].contains('\n')
        &&& no_outer_whitespace(lines[y])
        &&& split(lines[y], ' ') == text_row(board, y).map_values(|ch: char| seq![ch])
    } by {
        let row = text_row(board, y);
        assert forall|i: int| 0 <= i < row.len() implies is_map_char(#[trigger] row[i]) by {
            lemma_map_cell_char(board, board.height + 1 - y, i);
        }
        lemma_spaced(row);
        assert(is_map_char(row[0]));
        assert(is_map_char(row[row.len() - 1]));
    }
    lemma_joined(lines);
    let text = joined_lines(lines);
    assert(no_outer_whitespace(text)) by {
        assert(no_outer_whitespace(lines[0]));
        assert(no_outer_whitespace(lines[lines.len() - 1]));
    }
    lemma_trim_identity(text);
    assert forall|y: int| 0 <= y < lines.len() implies #[trigger] split(trim(lines[y]), ' ') == level_rows(board)[y] by {
        lemma_trim_identity(lines[y]);
    }
    assert(map_rows(text) =~= level_rows(board));
}

/// Under `level_buildable`, every token of the map text can be loaded.
proof fn lemma_level_loadable(board: Board)
    requires
        level_buildable(board),
    ensures
        rows_loadable(level_rows(board), board_block_info(board)),
{
    let rows = level_rows(board);
    let info = board_block_info(board);
    reveal_strlit(".");
    reveal_strlit("W");
    reveal_strlit("E");
    assert forall|y: int, x: int| 0 <= y < rows.len() && 0 <= x < rows[y].len() implies #[trigger] token_loadable(rows[y][x], x, y, info) by {
        let ch = map_cell(board, board.height + 1 - y, x);
        assert(rows[y][x] == seq![ch]);
        lemma_map_cell_char(board, board.height + 1 - y, x);
        match block_char_at(board.blocks@, board.height + 1 - y, x, board.blocks@.len() as int) {
            Some(c) => {
                lemma_block_char_digit(board.blocks@, board.height + 1 - y, x, board.blocks@.len() as int);
                assert(tile_position(x, y) == PositionDuringGame { x: x as u8, y: y as u8, z: 0 });
                assert(info.len() == board.blocks@.len());
                assert(is_digit_token(rows[y][x]));
            },
            None => {
                assert(rows[y][x] =~= "."@ || rows[y][x] =~= "W"@ || rows[y][x] =~= "E"@);
            },
        }
    }
}

fn digit_char_exec(d: u8) -> (c: char)
    requires
        d < 10,
    ensures
        c == digit_char(d as int),
{
    if d == 0 { '0' }
    else if d == 1 { '1' }
    else if d == 2 { '2' }
    else if d == 3 { '3' }
    else if d == 4 { '4' }
    else if d == 5 { '5' }
    else if d == 6 { '6' }
    else if d == 7 { '7' }
    else if d == 8 { '8' }
    else { '9' }
}

/// The first character of the decimal notation of `id`.
fn first_digit_char(id: u8) -> (c: char)
    ensures
        c == decimal(id as nat)[0],
{
    proof {
        lemma_first_digit(id);
    }
    let d = if id >= 100 { id / 100 } else if id >= 10 { id / 10 } else { id };
    digit_char_exec(d)
}

fn exit_cell_exec(board: &Board, r: usize, c: usize) -> (b: bool)
    requires
        r <= board.height + 1,
        c <= board.width + 1,
    ensures
        b == exit_cell(*board, r as int, c as int),
{
    let e = board.exit_position;
    let s = e.distance_to_edge as usize;
    let h = board.height as usize;
    let limit: usize = if e.side == ExitSide::Bottom || e.side == ExitSide::Top { board.width as usize } else { h };
    let stop: usize = if s + (e.length as usize) < limit { s + (e.length as usize) } else { limit };
    assert(stop == exit_stop(*board));
    match e.side {
        ExitSide::Bottom => r == 0 && c >= 1 && s <= c - 1 && c - 1 < stop,
        ExitSide::Top => r == h + 1 && c >= 1 && s <= c - 1 && c - 1 < stop,
        ExitSide::Left => c == 0 && r <= h && s <= h - r && h - r < stop,
        ExitSide::Right => c == board.width as usize + 1 && r <= h && s <= h - r && h - r < stop,
    }
}

/// The digit drawn at grid cell `(r, c)`, if a block is anchored there.
fn block_char_at_exec(board: &Board, r: usize, c: usize) -> (found: Option<char>)
    ensures
        found == block_char_at(board.blocks@, r as int, c as int, board.blocks@.len() as int),
{
    let n = board.blocks.len();
    let mut found: Option<char> = None;
    for i in 0..n
        invariant
            n == board.blocks@.len(),
            found == block_char_at(board.blocks@, r as int, c as int, i as int),
    {
        let b = &board.blocks[i];
        if b.initial_location.1 as usize + 1 == r && b.initial_location.0 as usize + 1 == c {
            found = Some(first_digit_char(b.block_id));
        }
    }
    found
}

/// The character of grid cell `(r, c)`.
fn cell_char(board: &Board, r: usize, c: usize) -> (ch: char)
    requires
        r <= board.height + 1,
        c <= board.width + 1,
    ensures
        ch == map_cell(*board, r as int, c as int),
{
    match block_char_at_exec(board, r, c) {
        Some(ch) => ch,
        None => {
            if exit_cell_exec(board, r, c) {
                'E'
            } else if r == 0 || r == board.height as usize + 1 || c == 0 || c == board.width as usize + 1 {
                'W'
            } else {
                '.'
            }
        },
    }
}

/// The block dictionary of `board`.
fn board_block_info_exec(board: &Board) -> (dict: Vec<(u8, u8, u8, bool)>)
    ensures
        dict@ == board_block_info(*board),
{
    let mut block_dict: Vec<(u8, u8, u8, bool)> = Vec::new();
    let n = board.blocks.len();
    for i in 0..n
        invariant
            n == board.blocks@.len(),
            block_dict@ == board_block_info(*board).take(i as int),
    {
        let b = &board.blocks[i];
        block_dict.push((b.block_id, b.width, b.height, b.can_escape));
        assert(block_dict@ =~= board_block_info(*board).take(i + 1));
    }
    assert(block_dict@ =~= board_block_info(*board));
    block_dict
}

fn block_fits_exec(position: PositionDuringGame, size: Option<(u8, u8, bool)>) -> (ok: bool)
    ensures
        ok == block_fits(position, size),
{
    match size {
        Some((w, h, _)) => !(w > 0 && h > 0) || (position.x as u16 + w as u16 - 1 <= 255 && position.y as u16 + h as u16 - 1 <= 255),
        None => true,
    }
}

/// Whether the level of `board` can be built (see `level_buildable`).
pub fn level_buildable_exec(board: &Board) -> (ok: bool)
    ensures
        ok == level_buildable(*board),
{
    let e = board.exit_position;
    if board.width > 253 || board.height > 253 {
        return false;
    }
    if e.side == ExitSide::Top && e.length > 0 && e.distance_to_edge < board.width && board.height < 1 {
        return false;
    }
    if e.side == ExitSide::Right && e.length > 0 && e.distance_to_edge < board.height && board.width < 1 {
        return false;
    }
    let n = board.blocks.len();
    for i in 0..n
        invariant
            n == board.blocks@.len(),
            forall|k: int| 0 <= k < i ==> {
                &&& (#[trigger] board.blocks@[k]).initial_location.0 <= board.width
                &&& board.blocks@[k].initial_location.1 <= board.height
            },
    {
        let b = &board.blocks[i];
        if b.initial_location.0 > board.width || b.initial_location.1 > board.height {
            return false;
        }
    }
    let dict = board_block_info_exec(board);
    let rows: usize = board.height as usize + 2;
    let cols: usize = board.width as usize + 2;
    for y in 0..rows
        invariant
            rows == board.height + 2,
            cols == board.width + 2,
            board.width <= 253,
            board.height <= 253,
            dict@ == board_block_info(*board),
            forall|yy: int, x: int| 0 <= yy < y && 0 <= x < cols
                && (#[trigger] block_char_at(board.blocks@, board.height + 1 - yy, x, board.blocks@.len() as int)) is Some
                ==> block_fits(
                    PositionDuringGame { x: x as u8, y: yy as u8, z: 0 },
                    lookup_block(dict@, digit_value(block_char_at(board.blocks@, board.height + 1 - yy, x, board.blocks@.len() as int)->0), board.blocks@.len() as int),
                ),
    {
        for x in 0..cols
            invariant
                rows == board.height + 2,
                cols == board.width + 2,
                board.width <= 253,
                board.height <= 253,
                y < rows,
                dict@ == board_block_info(*board),
                forall|yy: int, xx: int| (0 <= yy < y && 0 <= xx < cols || yy == y && 0 <= xx < x)
                    && (#[trigger] block_char_at(board.blocks@, board.height + 1 - yy, xx, board.blocks@.len() as int)) is Some
                    ==> block_fits(
                        PositionDuringGame { x: xx as u8, y: yy as u8, z: 0 },
                        lookup_block(dict@, digit_value(block_char_at(board.blocks@, board.height + 1 - yy, xx, board.blocks@.len() as int)->0), board.blocks@.len() as int),
                    ),
        {
            match block_char_at_exec(board, rows - 1 - y, x) {
                Some(ch) => {
                    proof {
                        lemma_block_char_digit(board.blocks@, (rows - 1 - y) as int, x as int, board.blocks@.len() as int);
                    }
                    let id: u8 = ((ch as u32) - ('0' as u32)) as u8;
                    let info = lookup_block_exec(&dict, id);
                    let position = PositionDuringGame { x: x as u8, y: y as u8, z: 0 };
                    if !block_fits_exec(position, info) {
                        proof {
                            assert(dict@.len() == board.blocks@.len());
                        }
                        return false;
                    }
                },
                None => {},
            }
        }
    }
    proof {
        assert(board_block_info(*board).len() == board.blocks@.len());
    }
    true
}

/// The one-character text of a map character.
fn map_char_str(ch: char) -> (s: &'static str)
    requires
        is_map_char(ch),
    ensures
        s@ == seq![ch],
{
    proof {
        reveal_strlit(".");
        reveal_strlit("W");
        reveal_strlit("E");
    }
    if ch == '.' {
        "."
    } else if ch == 'W' {
        "W"
    } else if ch == 'E' {
        "E"
    } else {
        let d: u8 = ((ch as u32) - ('0' as u32)) as u8;
        let s = digit_str(d);
        assert(digit_char(d as int) == ch);
        s
    }
}

proof fn lemma_spaced_step(row: Seq<char>, x: int)
    requires
        0 <= x < row.len(),
    ensures
        spaced(row.take(x + 1)) == (if x == 0 { seq![row[0]] } else { spaced(row.take(x)) + seq![' ', row[x]] }),
{
    assert(row.take(x + 1).drop_last() =~= row.take(x));
}

proof fn lemma_joined_step(rows: Seq<Seq<char>>, y: int)
    requires
        0 <= y < rows.len(),
    ensures
        joined_lines(rows.take(y + 1)) == (if y == 0 { rows[0] } else { joined_lines(rows.take(y)) + seq!['\n'] + rows[y] }),
{
    assert(rows.take(y + 1).drop_last() =~= rows.take(y));
}

/// Builds the level of `board`: draws its grid (see `map_cell`), records the
/// map size (the board with its frame), writes the map text (see `map_text`)
/// and loads it with the dictionary of the board's blocks. Returns the map
/// text.
pub fn initialize_level(board: &Board, world: &mut World, exit_side: ExitSide, globals: &mut GameGlobals) -> (map_string: String)
    requires
        level_buildable(*board),
    ensures
        map_string@ == map_text(*board),
        final(globals).map_width == board.width + 2,
        final(globals).map_height == board.height + 2,
        final(world)@ == old(world)@ + rows_entities(level_rows(*board), board_block_info(*board), board.height + 2),
        final(globals).exit_positions@ == old(globals).exit_positions@ + rows_exits(level_rows(*board), board.height + 2),
        final(globals).exit_key == (if rows_have_exit(level_rows(*board), board.height + 2) { exit_key_of(exit_side) } else { old(globals).exit_key }),
        final(globals).game_state == old(globals).game_state,
{
    globals.map_width = board.width + 2;
    globals.map_height = board.height + 2;
    let rows: usize = board.height as usize + 2;
    let cols: usize = board.width as usize + 2;
    let ghost lines = Seq::new((board.height + 2) as nat, |y: int| spaced(text_row(*board, y)));
    let mut map_string = String::new();
    assert(lines.take(0) =~= Seq::<Seq<char>>::empty());
    for y in 0..rows
        invariant
            rows == board.height + 2,
            cols == board.width + 2,
            lines == Seq::new((board.height + 2) as nat, |y: int| spaced(text_row(*board, y))),
            map_string@ == joined_lines(lines.take(y as int)),
    {
        let ghost base = map_string@;
        proof {
            reveal_strlit("\n");
        }
        if y > 0 {
            map_string.append("\n");
        }
        let ghost prefix = map_string@;
        let ghost row = text_row(*board, y as int);
        assert(row.take(0) =~= Seq::<char>::empty());
        for x in 0..cols
            invariant
                rows == board.height + 2,
                cols == board.width + 2,
                y < rows,
                row == text_row(*board, y as int),
                map_string@ == prefix + spaced(row.take(x as int)),
        {
            let ghost before = map_string@;
            proof {
                reveal_strlit(" ");
            }
            if x > 0 {
                map_string.append(" ");
            }
            let ch = cell_char(board, rows - 1 - y, x);
            assert(ch == row[x as int]);
            proof {
                lemma_map_cell_char(*board, (rows - 1 - y) as int, x as int);
                lemma_spaced_step(row, x as int);
            }
            map_string.append(map_char_str(ch));
            assert(map_string@ =~= prefix + spaced(row.take(x + 1)));
        }
        proof {
            assert(row.take(cols as int) =~= row);
            lemma_joined_step(lines, y as int);
            assert(lines[y as int] == spaced(row));
            assert(map_string@ =~= joined_lines(lines.take(y + 1)));
        }
    }
    proof {
        assert(lines.take(rows as int) =~= lines);
        lemma_map_text_rows(*board);
        lemma_level_loadable(*board);
    }
    let block_dict = board_block_info_exec(board);
    load_map(world, map_string.as_str(), &block_dict, exit_side, globals);
    map_string
}


/// No digit is drawn at grid cell `(r, c)` where no block is anchored.
proof fn lemma_no_block_char(blocks: Seq<Block>, r: int, c: int, n: int)
    requires
        n <= blocks.len(),
        forall|i: int| 0 <= i < n ==> !((#[trigger] blocks[i]).initial_location.1 + 1 == r && blocks[i].initial_location.0 + 1 == c),
    ensures
        block_char_at(blocks, r, c, n) is None,
    decreases n,
{
    if n > 0 {
        assert(!(blocks[n - 1].initial_location.1 + 1 == r && blocks[n - 1].initial_location.0 + 1 == c));
        lemma_no_block_char(blocks, r, c, n - 1);
    }
}

/// The exit is drawn in the wall of its own side. In the map of a board read
/// back as lines of tokens, every "E" stands on the first line (the top wall)
/// for an exit on the top, on the last line (the bottom wall) for one on the
/// bottom, first on its line (the left wall) for one on the left and last on
/// its line (the right wall) for one on the right. Along that wall, from
/// `distance_to_edge + 1` to `distance_to_edge + length` (columns from the
/// left on the top and bottom, lines from the top on the left and right),
/// within the board's width or height, every token on which no block is
/// drawn is an "E".
pub proof fn lemma_exit_on_its_side(board: Board, y: int, x: int)
    requires
        0 <= y < board.height + 2,
        0 <= x < board.width + 2,
    ensures
        level_rows(board)[y][x] == seq!['E'] ==> match board.exit_position.side {
            ExitSide::Top => y == 0,
            ExitSide::Bottom => y == board.height + 1,
            ExitSide::Left => x == 0,
            ExitSide::Right => x == board.width + 1,
        },
        ({
            let e = board.exit_position;
            let d = e.distance_to_edge as int;
            &&& forall|i: int| 0 <= i < board.blocks@.len() ==>
                !((#[trigger] board.blocks@[i]).initial_location.0 + 1 == x && board.blocks@[i].initial_location.1 + y == board.height)
            &&& match e.side {
                ExitSide::Top => y == 0 && d + 1 <= x <= d + e.length && x <= board.width,
                ExitSide::Bottom => y == board.height + 1 && d + 1 <= x <= d + e.length && x <= board.width,
                ExitSide::Left => x == 0 && d + 1 <= y <= d + e.length && y <= board.height,
                ExitSide::Right => x == board.width + 1 && d + 1 <= y <= d + e.length && y <= board.height,
            }
        }) ==> level_rows(board)[y][x] == seq!['E'],
{
    let r = board.height + 1 - y;
    let ch = map_cell(board, r, x);
    assert(level_rows(board)[y][x] == seq![ch]);
    lemma_block_char_digit(board.blocks@, r, x, board.blocks@.len() as int);
    if level_rows(board)[y][x] == seq!['E'] {
        assert(seq![ch][0] == 'E');
        assert(exit_cell(board, r, x));
    }
    let e = board.exit_position;
    let d = e.distance_to_edge as int;
    if ({
        &&& forall|i: int| 0 <= i < board.blocks@.len() ==>
            !((#[trigger] board.blocks@[i]).initial_location.0 + 1 == x && board.blocks@[i].initial_location.1 + y == board.height)
        &&& match e.side {
            ExitSide::Top => y == 0 && d + 1 <= x <= d + e.length && x <= board.width,
            ExitSide::Bottom => y == board.height + 1 && d + 1 <= x <= d + e.length && x <= board.width,
            ExitSide::Left => x == 0 && d + 1 <= y <= d + e.length && y <= board.height,
            ExitSide::Right => x == board.width + 1 && d + 1 <= y <= d + e.length && y <= board.height,
        }
    }) {
        lemma_no_block_char(board.blocks@, r, x, board.blocks@.len() as int);
        assert(exit_cell(board, r, x));
        assert(seq![ch] =~= seq!['E']);
    }
}


/// Whether `e` is an exit at column `x` and row `y`.
pub open spec fn exit_entity_at(e: EntityView, x: int, y: int) -> bool {
    &&& e is Exit
    &&& e->Exit_0.x == x
    &&& e->Exit_0.y == y
}

/// Only an "E" token gives an exit, and it gives one at its own cell.
proof fn lemma_token_exit(tok: Seq<char>, x: int, y: int, dict: Seq<(u8, u8, u8, bool)>)
    ensures
        forall|i: int| 0 <= i < token_entities(tok, x, y, dict).len() && (#[trigger] token_entities(tok, x, y, dict)[i]) is Exit
            ==> tok == seq!['E'] && exit_entity_at(token_entities(tok, x, y, dict)[i], x % 256, y % 256),
        tok == seq!['E'] ==> token_entities(tok, x, y, dict).len() == 1 && exit_entity_at(token_entities(tok, x, y, dict)[0], x % 256, y % 256),
{
    reveal_strlit(".");
    reveal_strlit("W");
    reveal_strlit("E");
    assert(tok == "E"@ <==> tok == seq!['E']) by {
        if tok == seq!['E'] {
            assert(tok =~= "E"@);
        }
    }
}

proof fn lemma_row_exit_entities(tokens: Seq<Seq<char>>, y: int, dict: Seq<(u8, u8, u8, bool)>, n: int)
    requires
        0 <= n <= tokens.len(),
    ensures
        forall|i: int| 0 <= i < row_entities(tokens, y, dict, n).len() && (#[trigger] row_entities(tokens, y, dict, n)[i]) is Exit
            ==> exists|x: int| 0 <= x < n && #[trigger] tokens[x] == seq!['E'] && exit_entity_at(row_entities(tokens, y, dict, n)[i], x % 256, y % 256),
        forall|x: int| 0 <= x < n && #[trigger] tokens[x] == seq!['E']
            ==> exists|i: int| 0 <= i < row_entities(tokens, y, dict, n).len() && #[trigger] exit_entity_at(row_entities(tokens, y, dict, n)[i], x % 256, y % 256),
    decreases n,
{
    if n > 0 {
        lemma_row_exit_entities(tokens, y, dict, n - 1);
        let prev = row_entities(tokens, y, dict, n - 1);
        let last = token_entities(tokens[n - 1], n - 1, y, dict);
        let all = row_entities(tokens, y, dict, n);
        assert(all == prev + last);
        lemma_token_exit(tokens[n - 1], n - 1, y, dict);
        assert forall|i: int| 0 <= i < all.len() && (#[trigger] all[i]) is Exit
            implies exists|x: int| 0 <= x < n && #[trigger] tokens[x] == seq!['E'] && exit_entity_at(all[i], x % 256, y % 256) by {
            if i < prev.len() {
                assert(all[i] == prev[i]);
                let x = choose|x: int| 0 <= x < n - 1 && #[trigger] tokens[x] == seq!['E'] && exit_entity_at(prev[i], x % 256, y % 256);
                assert(0 <= x < n);
            } else {
                assert(all[i] == last[i - prev.len()]);
                assert(tokens[n - 1] == seq!['E']);
            }
        }
        assert forall|x: int| 0 <= x < n && #[trigger] tokens[x] == seq!['E']
            implies exists|i: int| 0 <= i < all.len() && #[trigger] exit_entity_at(all[i], x % 256, y % 256) by {
            if x < n - 1 {
                let i = choose|i: int| 0 <= i < prev.len() && #[trigger] exit_entity_at(prev[i], x % 256, y % 256);
                assert(all[i] == prev[i]);
            } else {
                assert(all[prev.len() as int] == last[0]);
            }
        }
    }
}

proof fn lemma_rows_exit_entities(rows: Seq<Seq<Seq<char>>>, dict: Seq<(u8, u8, u8, bool)>, n: int)
    requires
        0 <= n <= rows.len(),
    ensures
        forall|i: int| 0 <= i < rows_entities(rows, dict, n).len() && (#[trigger] rows_entities(rows, dict, n)[i]) is Exit
            ==> exists|y: int, x: int| 0 <= y < n && 0 <= x < rows[y].len() && #[trigger] rows[y][x] == seq!['E']
                && exit_entity_at(rows_entities(rows, dict, n)[i], x % 256, y % 256),
        forall|y: int, x: int| 0 <= y < n && 0 <= x < rows[y].len() && #[trigger] rows[y][x] == seq!['E']
            ==> exists|i: int| 0 <= i < rows_entities(rows, dict, n).len() && #[trigger] exit_entity_at(rows_entities(rows, dict, n)[i], x % 256, y % 256),
    decreases n,
{
    if n > 0 {
        lemma_rows_exit_entities(rows, dict, n - 1);
        let prev = rows_entities(rows, dict, n - 1);
        let tokens = rows[n - 1];
        let last = row_entities(tokens, n - 1, dict, tokens.len() as int);
        let all = rows_entities(rows, dict, n);
        assert(all == prev + last);
        lemma_row_exit_entities(tokens, n - 1, dict, tokens.len() as int);
        assert forall|i: int| 0 <= i < all.len() && (#[trigger] all[i]) is Exit
            implies exists|y: int, x: int| 0 <= y < n && 0 <= x < rows[y].len() && #[trigger] rows[y][x] == seq!['E']
                && exit_entity_at(all[i], x % 256, y % 256) by {
            if i < prev.len() {
                assert(all[i] == prev[i]);
                let (y, x) = choose|y: int, x: int| 0 <= y < n - 1 && 0 <= x < rows[y].len() && #[trigger] rows[y][x] == seq!['E']
                    && exit_entity_at(prev[i], x % 256, y % 256);
                assert(0 <= y < n);
            } else {
                let j = i - prev.len();
                assert(all[i] == last[j]);
                assert(last[j] is Exit);
                let x = choose|x: int| 0 <= x < tokens.len() && #[trigger] tokens[x] == seq!['E'] && exit_entity_at(last[j], x % 256, (n - 1) % 256);
                assert(rows[n - 1][x] == seq!['E']);
            }
        }
        assert forall|y: int, x: int| 0 <= y < n && 0 <= x < rows[y].len() && #[trigger] rows[y][x] == seq!['E']
            implies exists|i: int| 0 <= i < all.len() && #[trigger] exit_entity_at(all[i], x % 256, y % 256) by {
            if y < n - 1 {
                let i = choose|i: int| 0 <= i < prev.len() && #[trigger] exit_entity_at(prev[i], x % 256, y % 256);
                assert(all[i] == prev[i]);
            } else {
                assert(tokens[x] == seq!['E']);
                let j = choose|j: int| 0 <= j < last.len() && #[trigger] exit_entity_at(last[j], x % 256, y % 256);
                assert(all[prev.len() + j] == last[j]);
            }
        }
    }
}

/// Loading a map puts the exits exactly on its "E" tokens: for a map of at
/// most 256 lines of at most 256 tokens, every exit entity loaded stands at
/// the column and line of an "E" token, and every "E" token gives an exit
/// entity at its column and line.
pub proof fn lemma_loaded_exits_on_exit_tokens(rows: Seq<Seq<Seq<char>>>, dict: Seq<(u8, u8, u8, bool)>)
    requires
        rows.len() <= 256,
        forall|y: int| 0 <= y < rows.len() ==> (#[trigger] rows[y]).len() <= 256,
    ensures
        ({
            let ents = rows_entities(rows, dict, rows.len() as int);
            &&& forall|i: int| 0 <= i < ents.len() && (#[trigger] ents[i]) is Exit
                ==> exists|y: int, x: int| 0 <= y < rows.len() && 0 <= x < rows[y].len() && #[trigger] rows[y][x] == seq!['E']
                    && ents[i]->Exit_0.x == x && ents[i]->Exit_0.y == y
            &&& forall|y: int, x: int| 0 <= y < rows.len() && 0 <= x < rows[y].len() && #[trigger] rows[y][x] == seq!['E']
                ==> exists|i: int| 0 <= i < ents.len() && (#[trigger] ents[i]) is Exit && ents[i]->Exit_0.x == x && ents[i]->Exit_0.y == y
        }),
{
    let n = rows.len() as int;
    let ents = rows_entities(rows, dict, n);
    lemma_rows_exit_entities(rows, dict, n);
    assert forall|i: int| 0 <= i < ents.len() && (#[trigger] ents[i]) is Exit
        implies exists|y: int, x: int| 0 <= y < rows.len() && 0 <= x < rows[y].len() && #[trigger] rows[y][x] == seq!['E']
            && ents[i]->Exit_0.x == x && ents[i]->Exit_0.y == y by {
        let (y, x) = choose|y: int, x: int| 0 <= y < n && 0 <= x < rows[y].len() && #[trigger] rows[y][x] == seq!['E']
            && exit_entity_at(ents[i], x % 256, y % 256);
        assert(rows[y].len() <= 256);
        vstd::arithmetic::div_mod::lemma_small_mod(x as nat, 256);
        vstd::arithmetic::div_mod::lemma_small_mod(y as nat, 256);
        assert(exit_entity_at(ents[i], x, y));
    }
    assert forall|y: int, x: int| 0 <= y < rows.len() && 0 <= x < rows[y].len() && #[trigger] rows[y][x] == seq!['E']
        implies exists|i: int| 0 <= i < ents.len() && (#[trigger] ents[i]) is Exit && ents[i]->Exit_0.x == x && ents[i]->Exit_0.y == y by {
        assert(rows[y].len() <= 256);
        vstd::arithmetic::div_mod::lemma_small_mod(x as nat, 256);
        vstd::arithmetic::div_mod::lemma_small_mod(y as nat, 256);
        let i = choose|i: int| 0 <= i < ents.len() && #[trigger] exit_entity_at(ents[i], x % 256, y % 256);
        assert(ents[i] is Exit);
    }
}

} // verus!
