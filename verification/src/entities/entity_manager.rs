use vstd::prelude::*;

use crate::entities::character::{CharacterMovementResult, CharacterState};
use crate::entities::characters::gatherer::{Gatherer, GathererState};
use crate::entities::object::{data_of, with_data, Object, ObjectData};
use crate::map::tile_map::{as_i16, cord_index, in_bounds, tile_index, total, MapDimensions};
use crate::systems::entity_selecting_manager::{selected, EntitySelectingManager, SelectingMode};
use crate::systems::select_rect::SelectRect;
use crate::utils::array_utils::is_permutation;
use crate::utils::map_cord::MapCord;
use crate::utils::entity_utils::{first_with_id, position_of_unique_id};
use crate::utils::map_utils::{cords_to_index, is_tile_in_bounds};

verus! {

/// A character of the world: what the caller keeps of it (looks and
/// position) in `character`, what it is doing and whom it fights (by unique
/// id), its gatherer logic, its selection flags, its unique id and the tile
/// index at which it is drawn.
pub struct CharacterEntry<T> {
    pub character: T,
    pub state: CharacterState,
    pub opponents: Vec<usize>,
    pub gatherer: Gatherer,
    pub is_hovering: bool,
    pub is_hovering_for_move: bool,
    pub is_selected: bool,
    pub is_selected_for_move: bool,
    pub unique_id: usize,
    pub render_index: usize,
}

/// Characters are drawn one tile after the tile they stand on, so that an
/// object on the next tile of the row is drawn behind them.
pub fn render_tile_index(map_dimensions: MapDimensions, cord: MapCord) -> (i: usize)
    requires
        0 <= cord.x,
        0 <= cord.y,
    ensures
        i == cord_index(map_dimensions, cord) + 1,
{
    let idx = cords_to_index(map_dimensions, cord);
    assert(idx <= 32767 * 65535 + 32767) by (nonlinear_arith)
        requires
            idx == cord.y as int * map_dimensions.width as int + cord.x as int,
            cord.y <= 32767,
            cord.x <= 32767,
            map_dimensions.width <= 65535,
            0 <= cord.x,
            0 <= cord.y,
    ;
    idx + 1
}

impl<T> CharacterEntry<T> {
    /// After the character's update: its render index becomes the one of the
    /// tile `cord` it now stands on (one past that tile's index); nothing
    /// else changes.
    pub fn refresh_render_index(&mut self, map_dimensions: MapDimensions, cord: MapCord)
        requires
            0 <= cord.x,
            0 <= cord.y,
        ensures
            final(self).render_index == cord_index(map_dimensions, cord) + 1,
            final(self).character == old(self).character,
            final(self).state == old(self).state,
            final(self).opponents@ == old(self).opponents@,
            final(self).gatherer == old(self).gatherer,
            final(self).is_hovering == old(self).is_hovering,
            final(self).is_hovering_for_move == old(self).is_hovering_for_move,
            final(self).is_selected == old(self).is_selected,
            final(self).is_selected_for_move == old(self).is_selected_for_move,
            final(self).unique_id == old(self).unique_id,
    {
        self.render_index = render_tile_index(map_dimensions, cord);
    }
}

/// The render indices never decrease along the list.
pub open spec fn sorted_by_render<T>(chars: Seq<CharacterEntry<T>>) -> bool {
    forall|i: int, j: int| 0 <= i < j < chars.len() ==> chars[i].render_index <= chars[j].render_index
}

/// `b` holds the entries of `a` rearranged by `p`, with entries of equal
/// render index kept in their order.
pub open spec fn stable_rearrangement<T>(a: Seq<CharacterEntry<T>>, b: Seq<CharacterEntry<T>>, p: Seq<int>) -> bool {
    &&& is_permutation(p, a.len() as int)
    &&& b.len() == a.len()
    &&& forall|i: int| 0 <= i < b.len() ==> #[trigger] b[i] == a[p[i]]
    &&& forall|i: int, j: int|
        0 <= i < j < b.len() && b[i].render_index == b[j].render_index ==> p[i] < p[j]
}

/// The unique ids of the list are distinct and below `next_id`.
pub open spec fn ids_fresh<T>(chars: Seq<CharacterEntry<T>>, next_id: usize) -> bool {
    &&& forall|i: int| 0 <= i < chars.len() ==> #[trigger] chars[i].unique_id < next_id
    &&& forall|i: int, j: int| 0 <= i < j < chars.len() ==> chars[i].unique_id != chars[j].unique_id
}

/// The characters of the world, in drawing order, with the tile window that
/// is updated and drawn.
pub struct EntityManager<T> {
    pub next_character_id: usize,
    pub characters: Vec<CharacterEntry<T>>,
    pub map_dimensions: MapDimensions,
    pub start_tile_x: i16,
    pub start_tile_y: i16,
    pub end_tile_x: i16,
    pub end_tile_y: i16,
}

impl<T> EntityManager<T> {
    /// The tile window: first and last column, first and last row.
    pub open spec fn window(&self) -> (i16, i16, i16, i16) {
        (self.start_tile_x, self.end_tile_x, self.start_tile_y, self.end_tile_y)
    }

    /// No characters, the first id is 0 and the window is the first tile.
    pub fn new(map_dimensions: MapDimensions) -> (m: EntityManager<T>)
        ensures
            m.characters@.len() == 0,
            m.next_character_id == 0,
            m.map_dimensions == map_dimensions,
            m.window() == (0i16, 0i16, 0i16, 0i16),
            ids_fresh(m.characters@, m.next_character_id),
    {
        EntityManager {
            next_character_id: 0,
            characters: Vec::new(),
            map_dimensions,
            start_tile_x: 0,
            start_tile_y: 0,
            end_tile_x: 0,
            end_tile_y: 0,
        }
    }

    /// Appends a character drawn at tile index `render_index`, with an idle
    /// gatherer, no flags and the next unique id.
    pub fn add_character(&mut self, character: T, render_index: usize)
        requires
            old(self).next_character_id < usize::MAX,
        ensures
            final(self).characters@.len() == old(self).characters@.len() + 1,
            final(self).characters@.drop_last() == old(self).characters@,
            final(self).characters@.last().character == character,
            final(self).characters@.last().unique_id == old(self).next_character_id,
            final(self).characters@.last().render_index == render_index,
            final(self).characters@.last().state == CharacterState::NoState,
            final(self).characters@.last().opponents@.len() == 0,
            final(self).characters@.last().gatherer.gatherer_state
                == crate::entities::characters::gatherer::GathererState::Idle,
            final(self).characters@.last().gatherer.object_indices@.len() == 0,
            final(self).characters@.last().gatherer.current_index is None,
            !final(self).characters@.last().gatherer.should_unoccupy_current_obj,
            !final(self).characters@.last().is_hovering,
            !final(self).characters@.last().is_hovering_for_move,
            !final(self).characters@.last().is_selected,
            !final(self).characters@.last().is_selected_for_move,
            final(self).next_character_id == old(self).next_character_id + 1,
            final(self).map_dimensions == old(self).map_dimensions,
            final(self).window() == old(self).window(),
            ids_fresh(old(self).characters@, old(self).next_character_id) ==> ids_fresh(
                final(self).characters@,
                final(self).next_character_id,
            ),
    {
        let entry = CharacterEntry {
            character,
            state: CharacterState::NoState,
            opponents: Vec::new(),
            gatherer: Gatherer::new(),
            is_hovering: false,
            is_hovering_for_move: false,
            is_selected: false,
            is_selected_for_move: false,
            unique_id: self.next_character_id,
            render_index,
        };
        self.characters.push(entry);
        self.next_character_id = self.next_character_id + 1;
    }

    /// Sets the tile window that is updated and drawn.
    pub fn set_update_window(&mut self, start_tile_x: i16, start_tile_y: i16, end_tile_x: i16, end_tile_y: i16)
        ensures
            final(self).window() == (start_tile_x, end_tile_x, start_tile_y, end_tile_y),
            final(self).characters@ == old(self).characters@,
            final(self).next_character_id == old(self).next_character_id,
            final(self).map_dimensions == old(self).map_dimensions,
    {
        self.start_tile_x = start_tile_x;
        self.start_tile_y = start_tile_y;
        self.end_tile_x = end_tile_x;
        self.end_tile_y = end_tile_y;
    }

    /// Sorts the characters by render index, keeping the order of characters
    /// with the same index.
    pub fn sort_characters(&mut self)
        ensures
            sorted_by_render(final(self).characters@),
            exists|p: Seq<int>| stable_rearrangement(old(self).characters@, final(self).characters@, p),
            final(self).next_character_id == old(self).next_character_id,
            final(self).map_dimensions == old(self).map_dimensions,
            final(self).window() == old(self).window(),
            ids_fresh(old(self).characters@, old(self).next_character_id) ==> ids_fresh(
                final(self).characters@,
                final(self).next_character_id,
            ),
    {
        let ghost before = self.characters@;
        let mut src: Vec<CharacterEntry<T>> = Vec::new();
        std::mem::swap(&mut src, &mut self.characters);
        let sorted = sort_by_render_index(src);
        self.characters = sorted;
        proof {
            let p = choose|p: Seq<int>| stable_rearrangement(before, self.characters@, p);
            if ids_fresh(before, self.next_character_id) {
                let after = self.characters@;
                assert forall|i: int, j: int| 0 <= i < j < after.len() implies after[i].unique_id
                    != after[j].unique_id by {
                    assert(after[i] == before[p[i]]);
                    assert(after[j] == before[p[j]]);
                    if p[i] < p[j] {
                    } else {
                        assert(p[j] < p[i]);
                    }
                }
                assert forall|i: int| 0 <= i < after.len() implies #[trigger] after[i].unique_id
                    < self.next_character_id by {
                    assert(after[i] == before[p[i]]);
                }
            }
        }
    }
}

/// A stable insertion sort on the render index.
fn sort_by_render_index<T>(src: Vec<CharacterEntry<T>>) -> (out: Vec<CharacterEntry<T>>)
    ensures
        sorted_by_render(out@),
        exists|p: Seq<int>| stable_rearrangement(src@, out@, p),
{
    let ghost orig = src@;
    let n = src.len();
    let mut src = src;
    let mut out: Vec<CharacterEntry<T>> = Vec::new();
    let ghost mut perm: Seq<int> = Seq::empty();
    let mut k: usize = 0;
    while k < n
        invariant
            n == orig.len(),
            k <= n,
            src@ == orig.subrange(k as int, n as int),
            out@.len() == k,
            perm.len() == k,
            sorted_by_render(out@),
            forall|i: int| 0 <= i < k ==> 0 <= #[trigger] perm[i] < k,
            forall|i: int, j: int| 0 <= i < j < k ==> perm[i] != perm[j],
            forall|i: int| 0 <= i < k ==> #[trigger] out@[i] == orig[perm[i]],
            forall|i: int, j: int|
                0 <= i < j < k && out@[i].render_index == out@[j].render_index ==> perm[i] < perm[j],
        decreases n - k,
    {
        let e = src.remove(0);
        proof {
            assert(e == orig[k as int]);
        }
        let key = e.render_index;
        let mut pos: usize = 0;
        while pos < out.len() && out[pos].render_index <= key
            invariant
                pos <= out@.len(),
                forall|i: int| 0 <= i < pos ==> #[trigger] out@[i].render_index <= key,
            decreases out@.len() - pos,
        {
            pos = pos + 1;
        }
        let ghost out0 = out@;
        let ghost perm0 = perm;
        proof {
            assert forall|i: int| pos <= i < out0.len() implies #[trigger] out0[i].render_index > key by {
                assert(out0[pos as int].render_index > key);
            }
        }
        out.insert(pos, e);
        proof {
            perm = perm0.insert(pos as int, k as int);
            assert forall|i: int| 0 <= i < k + 1 implies #[trigger] out@[i] == orig[perm[i]] by {
                if i < pos {
                    assert(out@[i] == out0[i]);
                } else if i > pos {
                    assert(out@[i] == out0[i - 1]);
                }
            }
            assert forall|i: int, j: int| 0 <= i < j < k + 1 implies perm[i] != perm[j] by {
                if i < pos && j < pos {
                } else if i < pos && j == pos {
                } else if i < pos && j > pos {
                    assert(perm[j] == perm0[j - 1]);
                } else if i == pos {
                    assert(perm[j] == perm0[j - 1]);
                } else {
                    assert(perm[i] == perm0[i - 1]);
                    assert(perm[j] == perm0[j - 1]);
                }
            }
            assert forall|i: int| 0 <= i < k + 1 implies 0 <= #[trigger] perm[i] < k + 1 by {
                if i > pos {
                    assert(perm[i] == perm0[i - 1]);
                }
            }
            assert forall|i: int, j: int| 0 <= i < j < k + 1 implies out@[i].render_index <= out@[j].render_index by {
                if j < pos {
                } else if j == pos {
                } else if i < pos {
                    assert(out@[j] == out0[j - 1]);
                } else if i == pos {
                    assert(out@[j] == out0[j - 1]);
                } else {
                    assert(out@[i] == out0[i - 1]);
                    assert(out@[j] == out0[j - 1]);
                }
            }
            assert forall|i: int, j: int|
                0 <= i < j < k + 1 && out@[i].render_index == out@[j].render_index implies perm[i] < perm[j] by {
                if j < pos {
                } else if j == pos {
                    assert(perm[i] == perm0[i]);
                } else if i < pos {
                    assert(out@[j] == out0[j - 1]);
                    assert(perm[j] == perm0[j - 1]);
                } else if i == pos {
                    assert(out@[j] == out0[j - 1]);
                } else {
                    assert(out@[i] == out0[i - 1]);
                    assert(out@[j] == out0[j - 1]);
                    assert(perm[i] == perm0[i - 1]);
                    assert(perm[j] == perm0[j - 1]);
                }
            }
            assert(src@ == orig.subrange(k + 1, n as int));
        }
        k = k + 1;
    }
    proof {
        assert(stable_rearrangement(orig, out@, perm));
    }
    out
}


/// One thing to draw: the shadow or the body of the object on a tile, or of
/// the character at a position of the character list, with the outlines
/// that its flags ask for.
#[derive(Clone, Copy, Debug, PartialEq, Eq, Structural)]
pub enum DrawCommand {
    ObjectShadow { tile: usize },
    CharacterShadow { position: usize },
    Object { tile: usize, hovering: bool, selected: bool },
    Character { position: usize, hovering: bool, selected: bool, hovering_for_move: bool },
}

/// What the object on tile `t` draws in a shadow pass or a body pass.
pub open spec fn object_cmds(grid: Seq<Object>, t: int, shadow: bool) -> Seq<DrawCommand> {
    if grid[t] is NoObject {
        Seq::empty()
    } else if shadow {
        seq![DrawCommand::ObjectShadow { tile: t as usize }]
    } else {
        seq![
            DrawCommand::Object {
                tile: t as usize,
                hovering: data_of(grid[t]).is_hovering,
                selected: data_of(grid[t]).is_selected,
            },
        ]
    }
}

/// What the character at position `i` draws in a shadow or body pass.
pub open spec fn character_cmd<T>(chars: Seq<CharacterEntry<T>>, i: int, shadow: bool) -> DrawCommand {
    if shadow {
        DrawCommand::CharacterShadow { position: i as usize }
    } else {
        DrawCommand::Character {
            position: i as usize,
            hovering: chars[i].is_hovering,
            selected: chars[i].is_selected,
            hovering_for_move: chars[i].is_hovering_for_move,
        }
    }
}

/// The characters among positions `lo..hi` drawn at tile `t`, in order.
pub open spec fn character_cmds<T>(chars: Seq<CharacterEntry<T>>, t: int, shadow: bool, lo: int, hi: int) -> Seq<
    DrawCommand,
>
    decreases hi - lo,
{
    if hi <= lo {
        Seq::empty()
    } else {
        character_cmds(chars, t, shadow, lo, hi - 1) + if chars[hi - 1].render_index == t {
            seq![character_cmd(chars, hi - 1, shadow)]
        } else {
            Seq::empty()
        }
    }
}

/// What tile `(x, y)` draws in a pass: nothing off the map; else its
/// object, then every character whose render index is the tile's index.
pub open spec fn tile_cmds<T>(
    grid: Seq<Object>,
    chars: Seq<CharacterEntry<T>>,
    dims: MapDimensions,
    x: int,
    y: int,
    shadow: bool,
) -> Seq<DrawCommand> {
    if in_bounds(dims, x, y) {
        let t = tile_index(dims, x, y);
        object_cmds(grid, t, shadow) + character_cmds(chars, t, shadow, 0, chars.len() as int)
    } else {
        Seq::empty()
    }
}

/// A pass over the tiles `x0..=x1` of row `y`.
pub open spec fn row_cmds<T>(
    grid: Seq<Object>,
    chars: Seq<CharacterEntry<T>>,
    dims: MapDimensions,
    y: int,
    x0: int,
    x1: int,
    shadow: bool,
) -> Seq<DrawCommand>
    decreases x1 - x0 + 1,
{
    if x1 < x0 {
        Seq::empty()
    } else {
        row_cmds(grid, chars, dims, y, x0, x1 - 1, shadow) + tile_cmds(grid, chars, dims, x1, y, shadow)
    }
}

/// Rows `y0..=y1`, each as a shadow pass over `x0..=xs` followed by a body
/// pass over `x0..=xm`.
pub open spec fn frame_cmds<T>(
    grid: Seq<Object>,
    chars: Seq<CharacterEntry<T>>,
    dims: MapDimensions,
    y0: int,
    y1: int,
    x0: int,
    xs: int,
    xm: int,
) -> Seq<DrawCommand>
    decreases y1 - y0 + 1,
{
    if y1 < y0 {
        Seq::empty()
    } else {
        frame_cmds(grid, chars, dims, y0, y1 - 1, x0, xs, xm) + row_cmds(grid, chars, dims, y1, x0, xs, true)
            + row_cmds(grid, chars, dims, y1, x0, xm, false)
    }
}

/// A draw command that shows a character's body names a character of
/// `chars` and carries that character's hover, selection and move-hover
/// flags; every other command passes.
pub open spec fn shows_flags_of<T>(c: DrawCommand, chars: Seq<CharacterEntry<T>>) -> bool {
    match c {
        DrawCommand::Character { position, hovering, selected, hovering_for_move } => {
            &&& position < chars.len()
            &&& hovering == chars[position as int].is_hovering
            &&& selected == chars[position as int].is_selected
            &&& hovering_for_move == chars[position as int].is_hovering_for_move
        },
        _ => true,
    }
}

/// Every command of `cmds` that shows a character's body shows it with its
/// own flags.
pub open spec fn shows_character_flags<T>(cmds: Seq<DrawCommand>, chars: Seq<CharacterEntry<T>>) -> bool {
    forall|i: int| 0 <= i < cmds.len() ==> shows_flags_of(#[trigger] cmds[i], chars)
}

proof fn lemma_shows_concat<T>(a: Seq<DrawCommand>, b: Seq<DrawCommand>, chars: Seq<CharacterEntry<T>>)
    requires
        shows_character_flags(a, chars),
        shows_character_flags(b, chars),
    ensures
        shows_character_flags(a + b, chars),
{
    assert forall|i: int| 0 <= i < (a + b).len() implies shows_flags_of(#[trigger] (a + b)[i], chars) by {
        if i < a.len() {
            assert((a + b)[i] == a[i]);
        } else {
            assert((a + b)[i] == b[i - a.len()]);
        }
    }
}

proof fn lemma_shows_push<T>(a: Seq<DrawCommand>, c: DrawCommand, chars: Seq<CharacterEntry<T>>)
    requires
        shows_character_flags(a, chars),
        shows_flags_of(c, chars),
    ensures
        shows_character_flags(a.push(c), chars),
{
    assert forall|i: int| 0 <= i < a.push(c).len() implies shows_flags_of(#[trigger] a.push(c)[i], chars) by {
        if i < a.len() {
            assert(a.push(c)[i] == a[i]);
        }
    }
}

proof fn lemma_character_cmds_show<T>(chars: Seq<CharacterEntry<T>>, t: int, shadow: bool, lo: int, hi: int)
    requires
        0 <= lo,
        hi <= chars.len(),
        chars.len() <= usize::MAX,
    ensures
        shows_character_flags(character_cmds(chars, t, shadow, lo, hi), chars),
    decreases hi - lo,
{
    if hi > lo {
        lemma_character_cmds_show(chars, t, shadow, lo, hi - 1);
        let tail = if chars[hi - 1].render_index == t {
            seq![character_cmd(chars, hi - 1, shadow)]
        } else {
            Seq::empty()
        };
        assert(shows_character_flags(tail, chars)) by {
            if chars[hi - 1].render_index == t {
                assert(tail[0] == character_cmd(chars, hi - 1, shadow));
                assert(((hi - 1) as usize) as int == hi - 1);
            }
        }
        lemma_shows_concat(character_cmds(chars, t, shadow, lo, hi - 1), tail, chars);
    }
}

proof fn lemma_row_cmds_show<T>(
    grid: Seq<Object>,
    chars: Seq<CharacterEntry<T>>,
    dims: MapDimensions,
    y: int,
    x0: int,
    x1: int,
    shadow: bool,
)
    requires
        chars.len() <= usize::MAX,
    ensures
        shows_character_flags(row_cmds(grid, chars, dims, y, x0, x1, shadow), chars),
    decreases x1 - x0 + 1,
{
    if x1 >= x0 {
        lemma_row_cmds_show(grid, chars, dims, y, x0, x1 - 1, shadow);
        if in_bounds(dims, x1, y) {
            let t = tile_index(dims, x1, y);
            lemma_character_cmds_show(chars, t, shadow, 0, chars.len() as int);
            assert(shows_character_flags(object_cmds(grid, t, shadow), chars));
            lemma_shows_concat(object_cmds(grid, t, shadow), character_cmds(chars, t, shadow, 0, chars.len() as int), chars);
        } else {
            assert(shows_character_flags(tile_cmds(grid, chars, dims, x1, y, shadow), chars));
        }
        lemma_shows_concat(
            row_cmds(grid, chars, dims, y, x0, x1 - 1, shadow),
            tile_cmds(grid, chars, dims, x1, y, shadow),
            chars,
        );
    }
}

/// A frame draws every character body with that character's own flags:
/// whichever objects and characters there are and whatever the window,
/// each `Character` command in the frame names a character of the list and
/// carries its `is_hovering`, `is_selected` and `is_hovering_for_move`.
pub proof fn law_frame_shows_character_flags<T>(
    grid: Seq<Object>,
    chars: Seq<CharacterEntry<T>>,
    dims: MapDimensions,
    y0: int,
    y1: int,
    x0: int,
    xs: int,
    xm: int,
)
    requires
        chars.len() <= usize::MAX,
    ensures
        forall|i: int|
            0 <= i < frame_cmds(grid, chars, dims, y0, y1, x0, xs, xm).len() ==> match #[trigger] frame_cmds(
                grid,
                chars,
                dims,
                y0,
                y1,
                x0,
                xs,
                xm,
            )[i] {
                DrawCommand::Character { position, hovering, selected, hovering_for_move } => {
                    &&& position < chars.len()
                    &&& hovering == chars[position as int].is_hovering
                    &&& selected == chars[position as int].is_selected
                    &&& hovering_for_move == chars[position as int].is_hovering_for_move
                },
                _ => true,
            },
{
    lemma_frame_cmds_show(grid, chars, dims, y0, y1, x0, xs, xm);
    let f = frame_cmds(grid, chars, dims, y0, y1, x0, xs, xm);
    assert forall|i: int| 0 <= i < f.len() implies shows_flags_of(#[trigger] f[i], chars) by {}
}

proof fn lemma_frame_cmds_show<T>(
    grid: Seq<Object>,
    chars: Seq<CharacterEntry<T>>,
    dims: MapDimensions,
    y0: int,
    y1: int,
    x0: int,
    xs: int,
    xm: int,
)
    requires
        chars.len() <= usize::MAX,
    ensures
        shows_character_flags(frame_cmds(grid, chars, dims, y0, y1, x0, xs, xm), chars),
    decreases y1 - y0 + 1,
{
    if y1 >= y0 {
        lemma_frame_cmds_show(grid, chars, dims, y0, y1 - 1, x0, xs, xm);
        lemma_row_cmds_show(grid, chars, dims, y1, x0, xs, true);
        lemma_row_cmds_show(grid, chars, dims, y1, x0, xm, false);
        lemma_shows_concat(
            frame_cmds(grid, chars, dims, y0, y1 - 1, x0, xs, xm),
            row_cmds(grid, chars, dims, y1, x0, xs, true),
            chars,
        );
        lemma_shows_concat(
            frame_cmds(grid, chars, dims, y0, y1 - 1, x0, xs, xm) + row_cmds(grid, chars, dims, y1, x0, xs, true),
            row_cmds(grid, chars, dims, y1, x0, xm, false),
            chars,
        );
    }
}

/// Splitting the character range at `m` splits its commands.
proof fn lemma_character_cmds_split<T>(chars: Seq<CharacterEntry<T>>, t: int, shadow: bool, lo: int, m: int, hi: int)
    requires
        lo <= m <= hi,
    ensures
        character_cmds(chars, t, shadow, lo, hi) == character_cmds(chars, t, shadow, lo, m) + character_cmds(
            chars,
            t,
            shadow,
            m,
            hi,
        ),
    decreases hi - m,
{
    if hi == m {
        assert(character_cmds(chars, t, shadow, m, hi) =~= Seq::<DrawCommand>::empty());
        assert(character_cmds(chars, t, shadow, lo, m) + Seq::<DrawCommand>::empty() =~= character_cmds(chars, t, shadow, lo, m));
    } else {
        lemma_character_cmds_split(chars, t, shadow, lo, m, hi - 1);
        let tail = if chars[hi - 1].render_index == t {
            seq![character_cmd(chars, hi - 1, shadow)]
        } else {
            Seq::empty()
        };
        assert(character_cmds(chars, t, shadow, lo, m) + character_cmds(chars, t, shadow, m, hi - 1) + tail
            =~= character_cmds(chars, t, shadow, lo, m) + (character_cmds(chars, t, shadow, m, hi - 1) + tail));
    }
}

/// A range without characters at tile `t` draws nothing there.
proof fn lemma_character_cmds_none<T>(chars: Seq<CharacterEntry<T>>, t: int, shadow: bool, lo: int, hi: int)
    requires
        forall|i: int| lo <= i < hi ==> #[trigger] chars[i].render_index != t,
    ensures
        character_cmds(chars, t, shadow, lo, hi) == Seq::<DrawCommand>::empty(),
    decreases hi - lo,
{
    if hi > lo {
        lemma_character_cmds_none(chars, t, shadow, lo, hi - 1);
        assert(Seq::<DrawCommand>::empty() + Seq::<DrawCommand>::empty() =~= Seq::<DrawCommand>::empty());
    }
}

/// Tiles of a later row have larger indices.
proof fn lemma_row_order(dims: MapDimensions, x1: int, y1: int, x2: int, y2: int)
    requires
        in_bounds(dims, x1, y1),
        in_bounds(dims, x2, y2),
        y1 < y2,
    ensures
        tile_index(dims, x1, y1) < tile_index(dims, x2, y2),
{
    let w = dims.width as int;
    assert(as_i16(dims.width) <= w);
    assert(y1 * w + x1 < y2 * w + x2) by (nonlinear_arith)
        requires
            0 <= x1 < w,
            0 <= x2,
            0 <= y1 < y2,
    {
        assert(y1 * w + w <= y2 * w);
    }
}

impl<T> EntityManager<T> {
    /// Everything to draw this frame, in order. Row by row over the window
    /// (one extra row below it), a shadow pass runs over the window's
    /// columns and two more, and then a body pass over the window's
    /// columns; in each pass every on-map tile draws its object, then the
    /// characters whose render index is that tile's index. With the
    /// characters sorted by render index (as `sort_characters` leaves them)
    /// the list is exactly that.
    pub fn draw(&self, object_grid: &Vec<Object>) -> (r: Vec<DrawCommand>)
        requires
            object_grid@.len() == total(self.map_dimensions),
            self.end_tile_x <= i16::MAX - 2,
            self.end_tile_y <= i16::MAX - 2,
        ensures
            sorted_by_render(self.characters@) ==> r@ == frame_cmds(
                object_grid@,
                self.characters@,
                self.map_dimensions,
                self.start_tile_y as int,
                self.end_tile_y + 1,
                self.start_tile_x as int,
                self.end_tile_x + 2,
                self.end_tile_x as int,
            ),
            shows_character_flags(r@, self.characters@),
    {
        let ghost grid = object_grid@;
        let ghost chars = self.characters@;
        let ghost dims = self.map_dimensions;
        let n = self.characters.len();
        let mut out: Vec<DrawCommand> = Vec::new();
        let mut last_row_final_char_index: usize = 0;
        let ghost mut lim: int = -1;
        let x0: i32 = self.start_tile_x as i32;
        let xs: i32 = self.end_tile_x as i32 + 2;
        let xm: i32 = self.end_tile_x as i32;
        let y0: i32 = self.start_tile_y as i32;
        let y1: i32 = self.end_tile_y as i32 + 1;
        let sorted = Ghost(sorted_by_render(chars));
        let mut y: i32 = y0;
        while y <= y1
            invariant
                y0 <= y,
                y <= y1 + 1 || y == y0,
                y0 >= i16::MIN,
                y1 <= i16::MAX,
                x0 >= i16::MIN,
                xs <= i16::MAX,
                xm <= xs,
                n == chars.len(),
                grid.len() == total(dims),
                object_grid@ == grid,
                self.characters@ == chars,
                shows_character_flags(out@, chars),
                self.map_dimensions == dims,
                sorted@ == sorted_by_render(chars),
                sorted@ ==> out@ == frame_cmds(grid, chars, dims, y0 as int, y - 1, x0 as int, xs as int, xm as int),
                last_row_final_char_index <= n,
                sorted@ ==> forall|i: int| 0 <= i < last_row_final_char_index ==> #[trigger] chars[i].render_index <= lim,
                sorted@ ==> forall|i: int| last_row_final_char_index <= i < n ==> #[trigger] chars[i].render_index > lim,
                sorted@ ==> forall|x2: int, y2: int|
                    y2 >= y && in_bounds(dims, x2, y2) ==> lim < #[trigger] tile_index(dims, x2, y2),
            decreases y1 + 1 - y,
        {
            let ghost out_row = out@;
            let row_start = last_row_final_char_index;
            let ghost lim_row = lim;
            let mut current: usize = row_start;
            let mut pass: usize = 0;
            while pass < 2
                invariant
                    y0 <= y <= y1,
                    y0 >= i16::MIN,
                    y1 <= i16::MAX,
                    x0 >= i16::MIN,
                    xs <= i16::MAX,
                    xm <= xs,
                    pass <= 2,
                    n == chars.len(),
                    grid.len() == total(dims),
                    object_grid@ == grid,
                    self.characters@ == chars,
                shows_character_flags(out@, chars),
                    self.map_dimensions == dims,
                    sorted@ == sorted_by_render(chars),
                    row_start <= n,
                    current <= n,
                    sorted@ ==> out@ == out_row + (if pass == 0 {
                        Seq::<DrawCommand>::empty()
                    } else if pass == 1 {
                        row_cmds(grid, chars, dims, y as int, x0 as int, xs as int, true)
                    } else {
                        row_cmds(grid, chars, dims, y as int, x0 as int, xs as int, true) + row_cmds(
                            grid,
                            chars,
                            dims,
                            y as int,
                            x0 as int,
                            xm as int,
                            false,
                        )
                    }),
                    sorted@ ==> forall|i: int| 0 <= i < row_start ==> #[trigger] chars[i].render_index <= lim_row,
                    sorted@ ==> forall|i: int| row_start <= i < n ==> #[trigger] chars[i].render_index > lim_row,
                    sorted@ ==> forall|x2: int, y2: int|
                        y2 >= y && in_bounds(dims, x2, y2) ==> lim_row < #[trigger] tile_index(dims, x2, y2),
                    pass == 2 ==> sorted@ ==> forall|i: int| 0 <= i < current ==> #[trigger] chars[i].render_index <= lim,
                    pass == 2 ==> sorted@ ==> forall|i: int| current <= i < n ==> #[trigger] chars[i].render_index > lim,
                    pass == 2 ==> sorted@ ==> forall|x2: int, y2: int|
                        y2 > y && in_bounds(dims, x2, y2) ==> lim < #[trigger] tile_index(dims, x2, y2),
                decreases 2 - pass,
            {
                let shadow = pass == 0;
                let x_end: i32 = if shadow { xs } else { xm };
                current = row_start;
                let ghost out_pass = out@;
                let ghost mut lim2: int = lim_row;
                let mut x: i32 = x0;
                while x <= x_end
                    invariant
                        x0 <= x,
                        x <= x_end + 1 || x == x0,
                        x_end <= i16::MAX,
                        x0 >= i16::MIN,
                        y0 <= y <= y1,
                        y0 >= i16::MIN,
                        y1 <= i16::MAX,
                        n == chars.len(),
                        grid.len() == total(dims),
                        object_grid@ == grid,
                        self.characters@ == chars,
                shows_character_flags(out@, chars),
                        self.map_dimensions == dims,
                        sorted@ == sorted_by_render(chars),
                        current <= n,
                        sorted@ ==> out@ == out_pass + row_cmds(grid, chars, dims, y as int, x0 as int, x - 1, shadow),
                        sorted@ ==> forall|i: int| 0 <= i < current ==> #[trigger] chars[i].render_index <= lim2,
                        sorted@ ==> forall|i: int| current <= i < n ==> #[trigger] chars[i].render_index > lim2,
                        sorted@ ==> forall|x2: int| x2 >= x && in_bounds(dims, x2, y as int) ==> lim2 < #[trigger] tile_index(dims, x2, y as int),
                        sorted@ ==> forall|x2: int, y2: int|
                            y2 > y && in_bounds(dims, x2, y2) ==> lim2 < #[trigger] tile_index(dims, x2, y2),
                    decreases x_end + 1 - x,
                {
                    let cord = MapCord::new(x as i16, y as i16);
                    let ghost out_tile = out@;
                    if is_tile_in_bounds(self.map_dimensions, cord) {
                        let t = cords_to_index(self.map_dimensions, cord);
                        proof {
                            crate::map::tile_map::lemma_index_in_grid(dims, x as int, y as int);
                        }
                        match object_grid[t] {
                            Object::NoObject => {},
                            _ => {
                                let ghost o = out@;
                                if shadow {
                                    out.push(DrawCommand::ObjectShadow { tile: t });
                                } else {
                                    let d = object_grid[t].get_data();
                                    out.push(DrawCommand::Object { tile: t, hovering: d.is_hovering, selected: d.is_selected });
                                }
                                proof {
                                    lemma_shows_push(o, out@.last(), chars);
                                    assert(o.push(out@.last()) =~= out@);
                                }
                            },
                        }
                        let ghost out_obj = out@;
                        let ghost c0 = current as int;
                        while current < n
                            invariant
                                c0 <= current <= n,
                                n == chars.len(),
                                self.characters@ == chars,
                shows_character_flags(out@, chars),
                                sorted@ == sorted_by_render(chars),
                                forall|i: int| c0 <= i < current ==> #[trigger] chars[i].render_index <= t,
                                out@ == out_obj + character_cmds(chars, t as int, shadow, c0, current as int),
                            ensures
                                shows_character_flags(out@, chars),
                                c0 <= current <= n,
                                forall|i: int| c0 <= i < current ==> #[trigger] chars[i].render_index <= t,
                                out@ == out_obj + character_cmds(chars, t as int, shadow, c0, current as int),
                                current < n ==> chars[current as int].render_index > t,
                            decreases n - current,
                        {
                            let next_char_tile_index = self.characters[current].render_index;
                            if next_char_tile_index > t {
                                break;
                            }
                            if next_char_tile_index == t {
                                let ch = &self.characters[current];
                                let ghost o = out@;
                                if shadow {
                                    out.push(DrawCommand::CharacterShadow { position: current });
                                } else {
                                    out.push(DrawCommand::Character {
                                        position: current,
                                        hovering: ch.is_hovering,
                                        selected: ch.is_selected,
                                        hovering_for_move: ch.is_hovering_for_move,
                                    });
                                }
                                proof {
                                    lemma_shows_push(o, out@.last(), chars);
                                    assert(o.push(out@.last()) =~= out@);
                                }
                            }
                            proof {
                                let tail = if chars[current as int].render_index == t as int {
                                    seq![character_cmd(chars, current as int, shadow)]
                                } else {
                                    Seq::empty()
                                };
                                assert(out_obj + character_cmds(chars, t as int, shadow, c0, current as int) + tail
                                    =~= out_obj + character_cmds(chars, t as int, shadow, c0, current + 1));
                            }
                            current = current + 1;
                        }
                        proof {
                            if sorted@ {
                                let tt = t as int;
                                assert(tt == tile_index(dims, x as int, y as int));
                                assert forall|i: int| 0 <= i < c0 implies #[trigger] chars[i].render_index != tt by {
                                    assert(chars[i].render_index <= lim2);
                                }
                                assert forall|i: int| current <= i < n implies #[trigger] chars[i].render_index > tt by {
                                    if current < n {
                                        assert(chars[current as int].render_index > tt);
                                        if i > current {
                                            assert(chars[current as int].render_index <= chars[i].render_index);
                                        }
                                    }
                                }
                                lemma_character_cmds_split(chars, tt, shadow, 0, c0, n as int);
                                lemma_character_cmds_split(chars, tt, shadow, c0, current as int, n as int);
                                lemma_character_cmds_none(chars, tt, shadow, 0, c0);
                                lemma_character_cmds_none(chars, tt, shadow, current as int, n as int);
                                assert(Seq::<DrawCommand>::empty() + character_cmds(chars, tt, shadow, c0, current as int)
                                    + Seq::<DrawCommand>::empty() =~= character_cmds(chars, tt, shadow, c0, current as int));
                                assert(out@ == out_tile + tile_cmds(grid, chars, dims, x as int, y as int, shadow));
                                assert forall|x2: int, y2: int| y2 > y && in_bounds(dims, x2, y2) implies tt
                                    < #[trigger] tile_index(dims, x2, y2) by {
                                    lemma_row_order(dims, x as int, y as int, x2, y2);
                                }
                                lim2 = tt;
                            }
                        }
                    } else {
                        proof {
                            assert(tile_cmds(grid, chars, dims, x as int, y as int, shadow) =~= Seq::<DrawCommand>::empty());
                            assert(out@ + Seq::<DrawCommand>::empty() =~= out@);
                        }
                    }
                    proof {
                        if sorted@ {
                            assert(out_pass + row_cmds(grid, chars, dims, y as int, x0 as int, x - 1, shadow) + tile_cmds(
                                grid,
                                chars,
                                dims,
                                x as int,
                                y as int,
                                shadow,
                            ) =~= out_pass + row_cmds(grid, chars, dims, y as int, x0 as int, x as int, shadow));
                        }
                    }
                    x = x + 1;
                }
                proof {
                    if sorted@ && x == x0 && x_end + 1 != x {
                        assert(row_cmds(grid, chars, dims, y as int, x0 as int, x_end as int, shadow) =~= Seq::<DrawCommand>::empty());
                        assert(row_cmds(grid, chars, dims, y as int, x0 as int, x - 1, shadow) =~= Seq::<DrawCommand>::empty());
                    }
                    if sorted@ {
                        if pass == 0 {
                            assert(out_row + Seq::<DrawCommand>::empty() =~= out_row);
                        } else {
                            assert(out_row + row_cmds(grid, chars, dims, y as int, x0 as int, xs as int, true) + row_cmds(
                                grid,
                                chars,
                                dims,
                                y as int,
                                x0 as int,
                                xm as int,
                                false,
                            ) =~= out_row + (row_cmds(grid, chars, dims, y as int, x0 as int, xs as int, true) + row_cmds(
                                grid,
                                chars,
                                dims,
                                y as int,
                                x0 as int,
                                xm as int,
                                false,
                            )));
                        }
                    }
                    lim = lim2;
                }
                pass = pass + 1;
            }
            last_row_final_char_index = current;
            proof {
                if sorted@ {
                    assert(out@ =~= frame_cmds(grid, chars, dims, y0 as int, y as int, x0 as int, xs as int, xm as int));
                }
            }
            y = y + 1;
        }
        proof {
            if sorted@ && y == y0 && y != y1 + 1 {
                assert(frame_cmds(grid, chars, dims, y0 as int, y1 as int, x0 as int, xs as int, xm as int) =~= Seq::<DrawCommand>::empty());
                assert(frame_cmds(grid, chars, dims, y0 as int, y - 1, x0 as int, xs as int, xm as int) =~= Seq::<DrawCommand>::empty());
            }
        }
        out
    }
}


/// How a character is hovered this frame: inside the move-selection
/// rectangle, inside the selection rectangle, under the mouse for selection,
/// under the mouse for a move order, or not at all.
#[derive(Clone, Copy, Debug, PartialEq, Eq, Structural)]
pub enum HoverKind {
    ForMove,
    InRange,
    Pointed,
    PointedForMove,
    NoHover,
}

/// The hover of a character from whether its rectangle meets the drag
/// rectangle (`in_rect`) and holds the mouse (`under_mouse`): the move range
/// comes first; then, when selecting characters, the selection range while
/// it is active, else the mouse when no action button is hovered and no
/// right click happened; last the mouse for a move order when no action
/// button is hovered.
pub open spec fn char_hover_kind(
    in_rect: bool,
    under_mouse: bool,
    selecting_characters: bool,
    select_range_active: bool,
    move_select_range_active: bool,
    buttons_hovering: bool,
    right_clicked: bool,
) -> HoverKind {
    if move_select_range_active && in_rect {
        HoverKind::ForMove
    } else if selecting_characters && select_range_active && in_rect {
        HoverKind::InRange
    } else if selecting_characters && !select_range_active && !buttons_hovering && !right_clicked && under_mouse {
        HoverKind::Pointed
    } else if !buttons_hovering && under_mouse {
        HoverKind::PointedForMove
    } else {
        HoverKind::NoHover
    }
}

/// The positions `0..k` of `kinds` holding `kind`, in order.
pub open spec fn positions_of_kind(kinds: Seq<HoverKind>, kind: HoverKind, k: int) -> Seq<usize>
    decreases k,
{
    if k <= 0 {
        Seq::empty()
    } else if kinds[k - 1] == kind {
        positions_of_kind(kinds, kind, k - 1).push((k - 1) as usize)
    } else {
        positions_of_kind(kinds, kind, k - 1)
    }
}

/// The last position below `k` holding `kind`.
pub open spec fn last_of_kind(kinds: Seq<HoverKind>, kind: HoverKind, k: int) -> Option<usize>
    decreases k,
{
    if k <= 0 {
        None
    } else if kinds[k - 1] == kind {
        Some((k - 1) as usize)
    } else {
        last_of_kind(kinds, kind, k - 1)
    }
}

/// Every position listed for `kind` below `k` is below `k` and holds it.
pub proof fn lemma_positions_of_kind(kinds: Seq<HoverKind>, kind: HoverKind, k: int)
    requires
        0 <= k <= kinds.len(),
        kinds.len() <= usize::MAX,
    ensures
        forall|j: int|
            0 <= j < positions_of_kind(kinds, kind, k).len() ==> (#[trigger] positions_of_kind(kinds, kind, k)[j]) < k
                && kinds[positions_of_kind(kinds, kind, k)[j] as int] == kind,
    decreases k,
{
    if k > 0 {
        lemma_positions_of_kind(kinds, kind, k - 1);
        let p = positions_of_kind(kinds, kind, k - 1);
        if kinds[k - 1] == kind {
            assert forall|j: int| 0 <= j < p.push((k - 1) as usize).len() implies (#[trigger] p.push((k - 1) as usize)[j])
                < k && kinds[p.push((k - 1) as usize)[j] as int] == kind by {
                if j < p.len() {
                    assert(p.push((k - 1) as usize)[j] == p[j]);
                }
            }
        }
    }
}

/// The last position below `k` holding `kind` holds it, and no later one
/// below `k` does; without one, no position below `k` holds it.
pub proof fn lemma_last_of_kind(kinds: Seq<HoverKind>, kind: HoverKind, k: int)
    requires
        0 <= k <= kinds.len(),
        kinds.len() <= usize::MAX,
    ensures
        last_of_kind(kinds, kind, k) matches Some(p) ==> 0 <= p < k && kinds[p as int] == kind && forall|q: int|
            p < q < k ==> kinds[q] != kind,
        last_of_kind(kinds, kind, k) is None ==> forall|q: int| 0 <= q < k ==> kinds[q] != kind,
    decreases k,
{
    if k > 0 {
        lemma_last_of_kind(kinds, kind, k - 1);
    }
}

/// A right click never points a character out for selection; with no
/// action button hovered, the character it points out for a move is the
/// last one under the mouse that is not inside an active move range or an
/// active selection range (while selecting characters), and there is none
/// exactly when no character is so. With an action button hovered, no
/// character is pointed out at all.
pub proof fn law_right_click_points_for_move(
    hits: Seq<(bool, bool)>,
    selecting_characters: bool,
    select_range_active: bool,
    move_select_range_active: bool,
    buttons_hovering: bool,
    hover_char: Option<usize>,
    hover_char_for_move: Option<usize>,
)
    requires
        hits.len() <= usize::MAX,
        ({
            let kinds = Seq::new(
                hits.len(),
                |p: int|
                    char_hover_kind(
                        hits[p].0,
                        hits[p].1,
                        selecting_characters,
                        select_range_active,
                        move_select_range_active,
                        buttons_hovering,
                        true,
                    ),
            );
            &&& hover_char == last_of_kind(kinds, HoverKind::Pointed, hits.len() as int)
            &&& hover_char_for_move == last_of_kind(kinds, HoverKind::PointedForMove, hits.len() as int)
        }),
    ensures
        hover_char is None,
        buttons_hovering ==> hover_char_for_move is None,
        !buttons_hovering ==> (hover_char_for_move matches Some(p) ==> {
            &&& 0 <= p < hits.len()
            &&& hits[p as int].1
            &&& !(move_select_range_active && hits[p as int].0)
            &&& !(selecting_characters && select_range_active && hits[p as int].0)
            &&& forall|q: int|
                p < q < hits.len() ==> !(hits[q].1 && !(move_select_range_active && hits[q].0) && !(
                selecting_characters && select_range_active && hits[q].0))
        }),
        !buttons_hovering ==> (hover_char_for_move is None ==> forall|q: int|
            0 <= q < hits.len() ==> !(hits[q].1 && !(move_select_range_active && hits[q].0) && !(
            selecting_characters && select_range_active && hits[q].0))),
{
    let kinds = Seq::new(
        hits.len(),
        |p: int|
            char_hover_kind(
                hits[p].0,
                hits[p].1,
                selecting_characters,
                select_range_active,
                move_select_range_active,
                buttons_hovering,
                true,
            ),
    );
    let n = hits.len() as int;
    lemma_last_of_kind(kinds, HoverKind::Pointed, n);
    lemma_last_of_kind(kinds, HoverKind::PointedForMove, n);
    if hover_char is Some {
        let p = hover_char->0 as int;
        assert(kinds[p] == HoverKind::Pointed);
    }
    if hover_char_for_move is Some {
        let p = hover_char_for_move->0 as int;
        assert(kinds[p] == HoverKind::PointedForMove);
    }
    if !buttons_hovering {
        assert forall|q: int| 0 <= q < n && (#[trigger] hits[q]).1 && !(move_select_range_active && hits[q].0)
            && !(selecting_characters && select_range_active && hits[q].0) implies kinds[q]
            == HoverKind::PointedForMove by {}
    }
}

/// The positions below `k` whose character gets a move order: all selected
/// for a move, on a right click.
pub open spec fn move_positions<T>(chars: Seq<CharacterEntry<T>>, right_clicked: bool, k: int) -> Seq<usize>
    decreases k,
{
    if k <= 0 {
        Seq::empty()
    } else if right_clicked && chars[k - 1].is_selected_for_move {
        move_positions(chars, right_clicked, k - 1).push((k - 1) as usize)
    } else {
        move_positions(chars, right_clicked, k - 1)
    }
}

/// What the hover pass found among the characters, by position.
pub struct CharacterHovers {
    pub hover_chars: Vec<usize>,
    pub hover_chars_for_move: Vec<usize>,
    pub hover_char: Option<usize>,
    pub hover_char_for_move: Option<usize>,
}

/// What the hover pass found among the objects, by tile index.
pub struct ObjectHovers {
    pub hover_objs: Vec<usize>,
    pub hover_obj: Option<usize>,
}

/// The deselections that the frame's clicks cause. A left click deselects
/// what the current mode selects (both kinds when an action button is
/// hovered) and lets go of the characters chosen to move; a right click
/// deselects everything and lets go of them too. The result says whether
/// the action buttons are to be cleared, which a left click does.
pub fn deselect_on_clicks(
    selector: &mut EntitySelectingManager,
    left_clicked: bool,
    right_clicked: bool,
    buttons_hovering: bool,
) -> (clear_buttons: bool)
    ensures
        clear_buttons == left_clicked,
        ({
            let objs = right_clicked || (left_clicked && (old(selector).selecting_mode == SelectingMode::Objects
                || buttons_hovering));
            let chars = right_clicked || (left_clicked && (old(selector).selecting_mode
                == SelectingMode::Characters || buttons_hovering));
            &&& final(selector).selected_objects@ == (if objs {
                Seq::<usize>::empty()
            } else {
                old(selector).selected_objects@
            })
            &&& final(selector).selected_characters@ == (if chars {
                Seq::<usize>::empty()
            } else {
                old(selector).selected_characters@
            })
            &&& final(selector).is_deselecting_objs == (old(selector).is_deselecting_objs || objs)
            &&& final(selector).is_deselecting_chars == (old(selector).is_deselecting_chars || chars)
            &&& final(selector).is_deselecting_move == (old(selector).is_deselecting_move || left_clicked
                || right_clicked)
            &&& final(selector).selecting_mode == old(selector).selecting_mode
        }),
{
    if left_clicked {
        match selector.selecting_mode {
            SelectingMode::Objects => selector.deselect_objs(),
            SelectingMode::Characters => selector.deselect_chars(),
        }
        if buttons_hovering {
            selector.deselect_chars();
            selector.deselect_objs();
            selector.deselect_move();
        }
        selector.deselect_move();
    }
    if right_clicked {
        selector.deselect_move();
        selector.deselect_chars();
        selector.deselect_objs();
    }
    left_clicked
}

impl<T> EntityManager<T> {
    /// The first part of each character's frame: a deselection of
    /// characters clears its selection; on a right click a character chosen
    /// to move gets a move order (it starts moving, its gatherer goes idle,
    /// and its position is returned, in list order, for the caller to set
    /// the target); letting go of the move choice clears it.
    pub fn prepare_characters(&mut self, selector: &EntitySelectingManager, right_clicked: bool) -> (moved: Vec<
        usize,
    >)
        ensures
            moved@ == move_positions(old(self).characters@, right_clicked, old(self).characters@.len() as int),
            final(self).characters@.len() == old(self).characters@.len(),
            forall|p: int|
                0 <= p < old(self).characters@.len() ==> {
                    let e0 = old(self).characters@[p];
                    let e1 = #[trigger] final(self).characters@[p];
                    &&& e1.is_selected == (e0.is_selected && !selector.is_deselecting_chars)
                    &&& e1.is_selected_for_move == (e0.is_selected_for_move && !selector.is_deselecting_move)
                    &&& e1.gatherer.gatherer_state == (if right_clicked && e0.is_selected_for_move {
                        GathererState::Idle
                    } else {
                        e0.gatherer.gatherer_state
                    })
                    &&& e1.state == (if right_clicked && e0.is_selected_for_move {
                        CharacterState::Moving
                    } else {
                        e0.state
                    })
                    &&& e1.opponents@ == e0.opponents@
                    &&& e1.gatherer.object_indices@ == e0.gatherer.object_indices@
                    &&& e1.gatherer.current_index == e0.gatherer.current_index
                    &&& e1.gatherer.should_unoccupy_current_obj == e0.gatherer.should_unoccupy_current_obj
                    &&& e1.character == e0.character
                    &&& e1.unique_id == e0.unique_id
                    &&& e1.render_index == e0.render_index
                    &&& e1.is_hovering == e0.is_hovering
                    &&& e1.is_hovering_for_move == e0.is_hovering_for_move
                },
            final(self).next_character_id == old(self).next_character_id,
            final(self).map_dimensions == old(self).map_dimensions,
            final(self).window() == old(self).window(),
    {
        let ghost chars0 = self.characters@;
        let n = self.characters.len();
        let mut moved: Vec<usize> = Vec::new();
        let mut k: usize = 0;
        while k < n
            invariant
                n == chars0.len(),
                k <= n,
                self.characters@.len() == n,
                moved@ == move_positions(chars0, right_clicked, k as int),
                forall|p: int| k <= p < n ==> #[trigger] self.characters@[p] == chars0[p],
                forall|p: int|
                    0 <= p < k ==> {
                        let e0 = chars0[p];
                        let e1 = #[trigger] self.characters@[p];
                        &&& e1.is_selected == (e0.is_selected && !selector.is_deselecting_chars)
                        &&& e1.is_selected_for_move == (e0.is_selected_for_move && !selector.is_deselecting_move)
                        &&& e1.gatherer.gatherer_state == (if right_clicked && e0.is_selected_for_move {
                            GathererState::Idle
                        } else {
                            e0.gatherer.gatherer_state
                        })
                        &&& e1.state == (if right_clicked && e0.is_selected_for_move {
                            CharacterState::Moving
                        } else {
                            e0.state
                        })
                        &&& e1.opponents@ == e0.opponents@
                        &&& e1.gatherer.object_indices@ == e0.gatherer.object_indices@
                        &&& e1.gatherer.current_index == e0.gatherer.current_index
                        &&& e1.gatherer.should_unoccupy_current_obj == e0.gatherer.should_unoccupy_current_obj
                        &&& e1.character == e0.character
                        &&& e1.unique_id == e0.unique_id
                        &&& e1.render_index == e0.render_index
                        &&& e1.is_hovering == e0.is_hovering
                        &&& e1.is_hovering_for_move == e0.is_hovering_for_move
                    },
                self.next_character_id == old(self).next_character_id,
                self.map_dimensions == old(self).map_dimensions,
                self.window() == old(self).window(),
            decreases n - k,
        {
            let entry = &mut self.characters[k];
            if selector.is_deselecting_chars {
                entry.is_selected = false;
            }
            if right_clicked {
                if entry.is_selected_for_move {
                    entry.set_move_to();
                    moved.push(k);
                }
            }
            if selector.is_deselecting_move {
                entry.is_selected_for_move = false;
            }
            k = k + 1;
        }
        moved
    }

    /// The hover pass over the characters, after their update: each loses
    /// its hover flags, then takes the hover that `char_hover_kind` gives
    /// from its entry of `hits` (whether its rectangle meets the drag
    /// rectangle, whether it holds the mouse). Returns the characters in the
    /// selection range and in the move range (in order), and the last one
    /// pointed at for selection and for a move order.
    pub fn hover_characters(
        &mut self,
        hits: &Vec<(bool, bool)>,
        selector: &EntitySelectingManager,
        select_rect: &SelectRect,
        buttons_hovering: bool,
        right_clicked: bool,
    ) -> (r: CharacterHovers)
        requires
            hits@.len() == old(self).characters@.len(),
        ensures
            ({
                let kinds = Seq::new(
                    hits@.len(),
                    |p: int|
                        char_hover_kind(
                            hits@[p].0,
                            hits@[p].1,
                            selector.selecting_mode == SelectingMode::Characters,
                            select_rect.select_range_active,
                            select_rect.move_select_range_active,
                            buttons_hovering,
                            right_clicked,
                        ),
                );
                let n = hits@.len() as int;
                &&& r.hover_chars@ == positions_of_kind(kinds, HoverKind::InRange, n)
                &&& r.hover_chars_for_move@ == positions_of_kind(kinds, HoverKind::ForMove, n)
                &&& r.hover_char == last_of_kind(kinds, HoverKind::Pointed, n)
                &&& r.hover_char_for_move == last_of_kind(kinds, HoverKind::PointedForMove, n)
                &&& final(self).characters@.len() == old(self).characters@.len()
                &&& forall|p: int|
                    0 <= p < n ==> #[trigger] final(self).characters@[p] == (CharacterEntry {
                        is_hovering: kinds[p] == HoverKind::InRange,
                        is_hovering_for_move: kinds[p] == HoverKind::ForMove,
                        ..old(self).characters@[p]
                    })
            }),
            final(self).next_character_id == old(self).next_character_id,
            final(self).map_dimensions == old(self).map_dimensions,
            final(self).window() == old(self).window(),
            right_clicked ==> r.hover_char is None,
            forall|j: int|
                0 <= j < r.hover_chars@.len() ==> (#[trigger] r.hover_chars@[j]) < hits@.len()
                    && hits@[r.hover_chars@[j] as int].0,
            r.hover_chars@.len() > 0 ==> selector.selecting_mode == SelectingMode::Characters
                && select_rect.select_range_active && !select_rect.move_select_range_active,
            forall|j: int|
                0 <= j < r.hover_chars_for_move@.len() ==> (#[trigger] r.hover_chars_for_move@[j]) < hits@.len()
                    && hits@[r.hover_chars_for_move@[j] as int].0,
            r.hover_chars_for_move@.len() > 0 ==> select_rect.move_select_range_active,
            r.hover_char matches Some(p) ==> {
                &&& p < hits@.len()
                &&& hits@[p as int].1
                &&& !buttons_hovering
                &&& !right_clicked
                &&& selector.selecting_mode == SelectingMode::Characters
                &&& !select_rect.select_range_active
                &&& !(select_rect.move_select_range_active && hits@[p as int].0)
            },
            r.hover_char_for_move matches Some(p) ==> p < hits@.len() && hits@[p as int].1 && !buttons_hovering,
            right_clicked && !buttons_hovering ==> (r.hover_char_for_move matches Some(p) ==> {
                &&& !(select_rect.move_select_range_active && hits@[p as int].0)
                &&& !(selector.selecting_mode == SelectingMode::Characters && select_rect.select_range_active
                    && hits@[p as int].0)
                &&& forall|q: int|
                    p < q < hits@.len() ==> !(hits@[q].1 && !(select_rect.move_select_range_active && hits@[q].0) && !(
                    selector.selecting_mode == SelectingMode::Characters && select_rect.select_range_active
                        && hits@[q].0))
            }),
            right_clicked && !buttons_hovering ==> (r.hover_char_for_move is None ==> forall|q: int|
                0 <= q < hits@.len() ==> !(hits@[q].1 && !(select_rect.move_select_range_active && hits@[q].0) && !(
                selector.selecting_mode == SelectingMode::Characters && select_rect.select_range_active
                    && hits@[q].0))),
    {
        let ghost kinds = Seq::new(
            hits@.len(),
            |p: int|
                char_hover_kind(
                    hits@[p].0,
                    hits@[p].1,
                    selector.selecting_mode == SelectingMode::Characters,
                    select_rect.select_range_active,
                    select_rect.move_select_range_active,
                    buttons_hovering,
                    right_clicked,
                ),
        );
        let ghost chars0 = self.characters@;
        let selecting_characters = match selector.selecting_mode {
            SelectingMode::Characters => true,
            SelectingMode::Objects => false,
        };
        let n = self.characters.len();
        let mut hover_chars: Vec<usize> = Vec::new();
        let mut hover_chars_for_move: Vec<usize> = Vec::new();
        let mut hover_char: Option<usize> = None;
        let mut hover_char_for_move: Option<usize> = None;
        let mut k: usize = 0;
        while k < n
            invariant
                n == chars0.len(),
                n == hits@.len(),
                k <= n,
                selecting_characters == (selector.selecting_mode == SelectingMode::Characters),
                kinds == Seq::new(
                    hits@.len(),
                    |p: int|
                        char_hover_kind(
                            hits@[p].0,
                            hits@[p].1,
                            selector.selecting_mode == SelectingMode::Characters,
                            select_rect.select_range_active,
                            select_rect.move_select_range_active,
                            buttons_hovering,
                            right_clicked,
                        ),
                ),
                self.characters@.len() == n,
                hover_chars@ == positions_of_kind(kinds, HoverKind::InRange, k as int),
                hover_chars_for_move@ == positions_of_kind(kinds, HoverKind::ForMove, k as int),
                hover_char == last_of_kind(kinds, HoverKind::Pointed, k as int),
                hover_char_for_move == last_of_kind(kinds, HoverKind::PointedForMove, k as int),
                forall|p: int| k <= p < n ==> #[trigger] self.characters@[p] == chars0[p],
                forall|p: int|
                    0 <= p < k ==> #[trigger] self.characters@[p] == (CharacterEntry {
                        is_hovering: kinds[p] == HoverKind::InRange,
                        is_hovering_for_move: kinds[p] == HoverKind::ForMove,
                        ..chars0[p]
                    }),
                self.next_character_id == old(self).next_character_id,
                self.map_dimensions == old(self).map_dimensions,
                self.window() == old(self).window(),
            decreases n - k,
        {
            let (in_rect, under_mouse) = hits[k];
            let entry = &mut self.characters[k];
            entry.is_hovering = false;
            entry.is_hovering_for_move = false;
            if select_rect.move_select_range_active && in_rect {
                entry.is_hovering_for_move = true;
                hover_chars_for_move.push(k);
            } else if selecting_characters && select_rect.select_range_active && in_rect {
                entry.is_hovering = true;
                hover_chars.push(k);
            } else if selecting_characters && !select_rect.select_range_active && !buttons_hovering && !right_clicked
                && under_mouse {
                hover_char = Some(k);
            } else if !buttons_hovering && under_mouse {
                hover_char_for_move = Some(k);
            }
            proof {
                assert(kinds[k as int] == char_hover_kind(
                    in_rect,
                    under_mouse,
                    selecting_characters,
                    select_rect.select_range_active,
                    select_rect.move_select_range_active,
                    buttons_hovering,
                    right_clicked,
                ));
            }
            k = k + 1;
        }
        proof {
            lemma_positions_of_kind(kinds, HoverKind::InRange, n as int);
            lemma_positions_of_kind(kinds, HoverKind::ForMove, n as int);
            assert forall|j: int| 0 <= j < hover_chars@.len() implies (#[trigger] hover_chars@[j]) < hits@.len()
                && hits@[hover_chars@[j] as int].0 by {
                let p = hover_chars@[j] as int;
                assert(kinds[p] == HoverKind::InRange);
            }
            if hover_chars@.len() > 0 {
                assert(kinds[hover_chars@[0] as int] == HoverKind::InRange);
            }
            assert forall|j: int| 0 <= j < hover_chars_for_move@.len() implies (#[trigger] hover_chars_for_move@[j])
                < hits@.len() && hits@[hover_chars_for_move@[j] as int].0 by {
                let p = hover_chars_for_move@[j] as int;
                assert(kinds[p] == HoverKind::ForMove);
            }
            if hover_chars_for_move@.len() > 0 {
                assert(kinds[hover_chars_for_move@[0] as int] == HoverKind::ForMove);
            }
            lemma_last_of_kind(kinds, HoverKind::Pointed, n as int);
            lemma_last_of_kind(kinds, HoverKind::PointedForMove, n as int);
            if hover_char is Some {
                assert(kinds[hover_char->0 as int] == HoverKind::Pointed);
            }
            if hover_char_for_move is Some {
                assert(kinds[hover_char_for_move->0 as int] == HoverKind::PointedForMove);
            }
            if right_clicked && !buttons_hovering {
                assert forall|q: int| 0 <= q < n && (#[trigger] hits@[q]).1 && !(select_rect.move_select_range_active
                    && hits@[q].0) && !(selecting_characters && select_rect.select_range_active && hits@[q].0) implies
                    kinds[q] == HoverKind::PointedForMove by {}
            }
        }
        CharacterHovers { hover_chars, hover_chars_for_move, hover_char, hover_char_for_move }
    }
}


/// The on-map tiles `(x, y)` of row `y` with `x0 <= x <= x1`, as indices,
/// left to right.
pub open spec fn window_row(dims: MapDimensions, y: int, x0: int, x1: int) -> Seq<usize>
    decreases x1 - x0 + 1,
{
    if x1 < x0 {
        Seq::empty()
    } else if in_bounds(dims, x1, y) {
        window_row(dims, y, x0, x1 - 1).push(tile_index(dims, x1, y) as usize)
    } else {
        window_row(dims, y, x0, x1 - 1)
    }
}

/// The on-map tiles of rows `y0..=y1` and columns `x0..=x1`, row by row.
pub open spec fn window_tiles_spec(dims: MapDimensions, y0: int, y1: int, x0: int, x1: int) -> Seq<usize>
    decreases y1 - y0 + 1,
{
    if y1 < y0 {
        Seq::empty()
    } else {
        window_tiles_spec(dims, y0, y1 - 1, x0, x1) + window_row(dims, y1, x0, x1)
    }
}

/// The hover of the object `obj` from whether its rectangle meets the drag
/// rectangle and holds the mouse: only objects, and only when selecting
/// objects, are hovered; by the selection range while it is active, else
/// by the mouse when no action button is hovered.
pub open spec fn obj_hover_kind(
    obj: Object,
    in_rect: bool,
    under_mouse: bool,
    selecting_objects: bool,
    select_range_active: bool,
    buttons_hovering: bool,
) -> HoverKind {
    if obj is NoObject || !selecting_objects {
        HoverKind::NoHover
    } else if select_range_active {
        if in_rect {
            HoverKind::InRange
        } else {
            HoverKind::NoHover
        }
    } else if !buttons_hovering && under_mouse {
        HoverKind::Pointed
    } else {
        HoverKind::NoHover
    }
}

/// The tiles among the first `k` entries of `tiles` whose kind is `kind`,
/// in order.
pub open spec fn tiles_of_kind(tiles: Seq<usize>, kinds: Seq<HoverKind>, kind: HoverKind, k: int) -> Seq<usize>
    decreases k,
{
    if k <= 0 {
        Seq::empty()
    } else if kinds[k - 1] == kind {
        tiles_of_kind(tiles, kinds, kind, k - 1).push(tiles[k - 1])
    } else {
        tiles_of_kind(tiles, kinds, kind, k - 1)
    }
}

/// The tile of the last of the first `k` entries whose kind is `kind`.
pub open spec fn last_tile_of_kind(tiles: Seq<usize>, kinds: Seq<HoverKind>, kind: HoverKind, k: int) -> Option<usize>
    decreases k,
{
    if k <= 0 {
        None
    } else if kinds[k - 1] == kind {
        Some(tiles[k - 1])
    } else {
        last_tile_of_kind(tiles, kinds, kind, k - 1)
    }
}

/// Every tile listed for `kind` among the first `k` entries is the tile of
/// one of them whose kind is `kind`.
pub proof fn lemma_tiles_of_kind(tiles: Seq<usize>, kinds: Seq<HoverKind>, kind: HoverKind, k: int)
    requires
        0 <= k <= kinds.len(),
        kinds.len() == tiles.len(),
    ensures
        forall|j: int|
            0 <= j < tiles_of_kind(tiles, kinds, kind, k).len() ==> exists|m: int|
                0 <= m < k && tiles[m] == #[trigger] tiles_of_kind(tiles, kinds, kind, k)[j] && kinds[m] == kind,
    decreases k,
{
    if k > 0 {
        lemma_tiles_of_kind(tiles, kinds, kind, k - 1);
        let p = tiles_of_kind(tiles, kinds, kind, k - 1);
        let r = tiles_of_kind(tiles, kinds, kind, k);
        assert forall|j: int| 0 <= j < r.len() implies exists|m: int|
            0 <= m < k && tiles[m] == #[trigger] r[j] && kinds[m] == kind by {
            if j < p.len() {
                assert(r[j] == p[j]);
                let m = choose|m: int| 0 <= m < k - 1 && tiles[m] == #[trigger] p[j] && kinds[m] == kind;
                assert(0 <= m < k && tiles[m] == r[j] && kinds[m] == kind);
            } else {
                assert(r[j] == tiles[k - 1]);
                assert(kinds[k - 1] == kind);
            }
        }
    }
}

/// The last of the first `k` entries whose kind is `kind` gives the tile,
/// and no later one of them has that kind; without one, none has it.
pub proof fn lemma_last_tile_of_kind(tiles: Seq<usize>, kinds: Seq<HoverKind>, kind: HoverKind, k: int)
    requires
        0 <= k <= kinds.len(),
        kinds.len() == tiles.len(),
    ensures
        last_tile_of_kind(tiles, kinds, kind, k) matches Some(t) ==> exists|j: int|
            0 <= j < k && tiles[j] == t && #[trigger] kinds[j] == kind && forall|q: int| j < q < k ==> kinds[q]
                != kind,
        last_tile_of_kind(tiles, kinds, kind, k) is None ==> forall|q: int| 0 <= q < k ==> kinds[q] != kind,
    decreases k,
{
    if k > 0 {
        lemma_last_tile_of_kind(tiles, kinds, kind, k - 1);
        if kinds[k - 1] == kind {
            assert(kinds[k - 1] == kind);
        }
    }
}

/// While an action button is hovered no object is pointed at: for any
/// objects, window tiles, hits and selecting mode, the hover pass points at
/// no object.
pub proof fn law_buttons_block_object_pointing(
    grid: Seq<Object>,
    tiles: Seq<usize>,
    hits: Seq<(bool, bool)>,
    selecting_objects: bool,
    select_range_active: bool,
    hover_obj: Option<usize>,
)
    requires
        hits.len() == tiles.len(),
        hover_obj == last_tile_of_kind(
            tiles,
            Seq::new(
                tiles.len(),
                |k: int| obj_hover_kind(grid[tiles[k] as int], hits[k].0, hits[k].1, selecting_objects, select_range_active, true),
            ),
            HoverKind::Pointed,
            tiles.len() as int,
        ),
    ensures
        hover_obj is None,
{
    let kinds = Seq::new(
        tiles.len(),
        |k: int| obj_hover_kind(grid[tiles[k] as int], hits[k].0, hits[k].1, selecting_objects, select_range_active, true),
    );
    lemma_last_tile_of_kind(tiles, kinds, HoverKind::Pointed, tiles.len() as int);
    if hover_obj is Some {
        let j = choose|j: int|
            0 <= j < tiles.len() && tiles[j] == hover_obj->0 && #[trigger] kinds[j] == HoverKind::Pointed && forall|q: int|
                j < q < tiles.len() ==> kinds[q] != HoverKind::Pointed;
        assert(kinds[j] == HoverKind::Pointed);
    }
}

/// `o` flagged hovering.
pub open spec fn hovered(o: Object) -> Object {
    with_data(o, ObjectData { is_hovering: true, ..data_of(o) })
}

/// The hover pass over the objects of the window tiles `tiles`, after
/// their update, from their entries of `hits`: objects in the selection
/// range are flagged hovering and listed (in order); the last object pointed
/// at is returned.
pub fn hover_objects(
    object_grid: &mut Vec<Object>,
    tiles: &Vec<usize>,
    hits: &Vec<(bool, bool)>,
    selector: &EntitySelectingManager,
    select_rect: &SelectRect,
    buttons_hovering: bool,
) -> (r: ObjectHovers)
    requires
        hits@.len() == tiles@.len(),
        forall|k: int| 0 <= k < tiles@.len() ==> #[trigger] tiles@[k] < old(object_grid)@.len(),
    ensures
        ({
            let kinds = Seq::new(
                tiles@.len(),
                |k: int|
                    obj_hover_kind(
                        old(object_grid)@[tiles@[k] as int],
                        hits@[k].0,
                        hits@[k].1,
                        selector.selecting_mode == SelectingMode::Objects,
                        select_rect.select_range_active,
                        buttons_hovering,
                    ),
            );
            let n = tiles@.len() as int;
            &&& r.hover_objs@ == tiles_of_kind(tiles@, kinds, HoverKind::InRange, n)
            &&& r.hover_obj == last_tile_of_kind(tiles@, kinds, HoverKind::Pointed, n)
            &&& final(object_grid)@.len() == old(object_grid)@.len()
            &&& forall|t: int|
                0 <= t < old(object_grid)@.len() ==> #[trigger] final(object_grid)@[t] == (if exists|k: int|
                    0 <= k < n && tiles@[k] as int == t && #[trigger] kinds[k] == HoverKind::InRange {
                    hovered(old(object_grid)@[t])
                } else {
                    old(object_grid)@[t]
                })
        }),
        buttons_hovering ==> r.hover_obj is None,
        select_rect.select_range_active ==> r.hover_obj is None,
        r.hover_objs@.len() > 0 ==> selector.selecting_mode == SelectingMode::Objects
            && select_rect.select_range_active,
        forall|j: int|
            0 <= j < r.hover_objs@.len() ==> exists|k: int|
                0 <= k < tiles@.len() && tiles@[k] == #[trigger] r.hover_objs@[j] && hits@[k].0
                    && !(old(object_grid)@[tiles@[k] as int] is NoObject),
        r.hover_obj matches Some(t) ==> {
            &&& selector.selecting_mode == SelectingMode::Objects
            &&& !select_rect.select_range_active
            &&& exists|k: int|
                0 <= k < tiles@.len() && tiles@[k] == t && (#[trigger] hits@[k]).1 && !(old(object_grid)@[t as int] is NoObject)
        },
{
    let ghost grid0 = object_grid@;
    let ghost kinds = Seq::new(
        tiles@.len(),
        |k: int|
            obj_hover_kind(
                grid0[tiles@[k] as int],
                hits@[k].0,
                hits@[k].1,
                selector.selecting_mode == SelectingMode::Objects,
                select_rect.select_range_active,
                buttons_hovering,
            ),
    );
    let selecting_objects = match selector.selecting_mode {
        SelectingMode::Objects => true,
        SelectingMode::Characters => false,
    };
    let n = tiles.len();
    let mut hover_objs: Vec<usize> = Vec::new();
    let mut hover_obj: Option<usize> = None;
    let mut k: usize = 0;
    while k < n
        invariant
            n == tiles@.len(),
            n == hits@.len(),
            k <= n,
            selecting_objects == (selector.selecting_mode == SelectingMode::Objects),
            forall|k: int| 0 <= k < tiles@.len() ==> #[trigger] tiles@[k] < grid0.len(),
            kinds == Seq::new(
                tiles@.len(),
                |k: int|
                    obj_hover_kind(
                        grid0[tiles@[k] as int],
                        hits@[k].0,
                        hits@[k].1,
                        selector.selecting_mode == SelectingMode::Objects,
                        select_rect.select_range_active,
                        buttons_hovering,
                    ),
            ),
            object_grid@.len() == grid0.len(),
            forall|t: int| 0 <= t < grid0.len() ==> (#[trigger] object_grid@[t] is NoObject <==> grid0[t] is NoObject),
            hover_objs@ == tiles_of_kind(tiles@, kinds, HoverKind::InRange, k as int),
            hover_obj == last_tile_of_kind(tiles@, kinds, HoverKind::Pointed, k as int),
            forall|t: int|
                0 <= t < grid0.len() ==> #[trigger] object_grid@[t] == (if exists|j: int|
                    0 <= j < k && tiles@[j] as int == t && #[trigger] kinds[j] == HoverKind::InRange {
                    hovered(grid0[t])
                } else {
                    grid0[t]
                }),
        decreases n - k,
    {
        let t = tiles[k];
        let (in_rect, under_mouse) = hits[k];
        let ghost before = object_grid@;
        let is_some = match object_grid[t] {
            Object::NoObject => false,
            _ => true,
        };
        if is_some && selecting_objects {
            if select_rect.select_range_active {
                if in_rect {
                    let mut obj = object_grid[t];
                    obj.set_hovering();
                    object_grid.set(t, obj);
                    hover_objs.push(t);
                }
            } else if !buttons_hovering && under_mouse {
                hover_obj = Some(t);
            }
        }
        proof {
            assert(kinds[k as int] == obj_hover_kind(
                grid0[t as int],
                in_rect,
                under_mouse,
                selecting_objects,
                select_rect.select_range_active,
                buttons_hovering,
            ));
            assert forall|u: int| 0 <= u < grid0.len() implies #[trigger] object_grid@[u] == (if exists|j: int|
                0 <= j < k + 1 && tiles@[j] as int == u && #[trigger] kinds[j] == HoverKind::InRange {
                hovered(grid0[u])
            } else {
                grid0[u]
            }) by {
                if u == t as int && kinds[k as int] == HoverKind::InRange {
                    if exists|j: int| 0 <= j < k && tiles@[j] as int == u && #[trigger] kinds[j] == HoverKind::InRange {
                        assert(before[u] == hovered(grid0[u]));
                    }
                } else if exists|j: int| 0 <= j < k + 1 && tiles@[j] as int == u && #[trigger] kinds[j]
                    == HoverKind::InRange {
                    let j = choose|j: int| 0 <= j < k + 1 && tiles@[j] as int == u && #[trigger] kinds[j]
                        == HoverKind::InRange;
                    assert(j < k);
                }
            }
        }
        k = k + 1;
    }
    proof {
        lemma_tiles_of_kind(tiles@, kinds, HoverKind::InRange, n as int);
        if hover_objs@.len() > 0 {
            let m = choose|m: int| 0 <= m < n && tiles@[m] == #[trigger] hover_objs@[0] && kinds[m] == HoverKind::InRange;
            assert(kinds[m] == HoverKind::InRange);
        }
        assert forall|j: int| 0 <= j < hover_objs@.len() implies exists|k: int|
            0 <= k < tiles@.len() && tiles@[k] == #[trigger] hover_objs@[j] && hits@[k].0
                && !(grid0[tiles@[k] as int] is NoObject) by {
            let m = choose|m: int| 0 <= m < n && tiles@[m] == #[trigger] hover_objs@[j] && kinds[m] == HoverKind::InRange;
            assert(kinds[m] == HoverKind::InRange);
            assert(0 <= m < tiles@.len() && tiles@[m] == hover_objs@[j] && hits@[m].0 && !(grid0[tiles@[m] as int] is NoObject));
        }
        lemma_last_tile_of_kind(tiles@, kinds, HoverKind::Pointed, n as int);
        if hover_obj is Some {
            let j = choose|j: int|
                0 <= j < n && tiles@[j] == hover_obj->0 && #[trigger] kinds[j] == HoverKind::Pointed && forall|q: int|
                    j < q < n ==> kinds[q] != HoverKind::Pointed;
            assert(kinds[j] == HoverKind::Pointed);
            assert(hits@[j].1);
        }
    }
    ObjectHovers { hover_objs, hover_obj }
}

impl<T> EntityManager<T> {
    /// The on-map tiles of the window, row by row, as indices.
    pub fn window_tiles(&self) -> (r: Vec<usize>)
        ensures
            r@ == window_tiles_spec(
                self.map_dimensions,
                self.start_tile_y as int,
                self.end_tile_y as int,
                self.start_tile_x as int,
                self.end_tile_x as int,
            ),
    {
        let ghost dims = self.map_dimensions;
        let x0: i32 = self.start_tile_x as i32;
        let x1: i32 = self.end_tile_x as i32;
        let y0: i32 = self.start_tile_y as i32;
        let y1: i32 = self.end_tile_y as i32;
        let mut out: Vec<usize> = Vec::new();
        let mut y: i32 = y0;
        while y <= y1
            invariant
                y0 <= y,
                y <= y1 + 1 || y == y0,
                y0 >= i16::MIN,
                y1 <= i16::MAX,
                x0 >= i16::MIN,
                x1 <= i16::MAX,
                self.map_dimensions == dims,
                out@ == window_tiles_spec(dims, y0 as int, y - 1, x0 as int, x1 as int),
            decreases y1 + 1 - y,
        {
            let ghost out_row = out@;
            let mut x: i32 = x0;
            while x <= x1
                invariant
                    x0 <= x,
                    x <= x1 + 1 || x == x0,
                    x0 >= i16::MIN,
                    x1 <= i16::MAX,
                    y0 <= y <= y1,
                    y0 >= i16::MIN,
                    y1 <= i16::MAX,
                    self.map_dimensions == dims,
                    out@ == out_row + window_row(dims, y as int, x0 as int, x - 1),
                decreases x1 + 1 - x,
            {
                let cord = MapCord::new(x as i16, y as i16);
                if is_tile_in_bounds(self.map_dimensions, cord) {
                    let t = cords_to_index(self.map_dimensions, cord);
                    out.push(t);
                    proof {
                        assert(out_row + window_row(dims, y as int, x0 as int, x - 1).push(t) =~= out_row
                            + window_row(dims, y as int, x0 as int, x as int));
                    }
                }
                x = x + 1;
            }
            proof {
                if x == x0 && x1 + 1 != x {
                    assert(window_row(dims, y as int, x0 as int, x1 as int) =~= Seq::<usize>::empty());
                    assert(window_row(dims, y as int, x0 as int, x - 1) =~= Seq::<usize>::empty());
                }
                assert(out@ =~= window_tiles_spec(dims, y0 as int, y as int, x0 as int, x1 as int));
            }
            y = y + 1;
        }
        proof {
            if y == y0 && y != y1 + 1 {
                assert(window_tiles_spec(dims, y0 as int, y1 as int, x0 as int, x1 as int) =~= Seq::<usize>::empty());
                assert(window_tiles_spec(dims, y0 as int, y - 1, x0 as int, x1 as int) =~= Seq::<usize>::empty());
            }
        }
        out
    }
}


/// The selection step of character `p` (entry `e`): when selecting
/// characters, a finished drag selects those in range; otherwise the one
/// pointed at is hovered, and selected on a left click.
pub open spec fn char_selection_step<T>(
    e: CharacterEntry<T>,
    p: int,
    selecting_characters: bool,
    is_selecting_this_frame: bool,
    ch: CharacterHovers,
    left_clicked: bool,
) -> CharacterEntry<T> {
    if !selecting_characters {
        e
    } else if is_selecting_this_frame {
        if ch.hover_chars@.contains(p as usize) {
            CharacterEntry { is_selected: true, ..e }
        } else {
            e
        }
    } else if ch.hover_char == Some(p as usize) {
        CharacterEntry { is_hovering: true, is_selected: e.is_selected || left_clicked, ..e }
    } else {
        e
    }
}

/// The move step of character `p` (entry `e`): a finished move drag
/// chooses those in the move range; otherwise the one pointed at for a move
/// is hovered for a move, and chosen on a right click.
pub open spec fn char_move_step<T>(
    e: CharacterEntry<T>,
    p: int,
    is_selecting_for_move_this_frame: bool,
    ch: CharacterHovers,
    right_clicked: bool,
) -> CharacterEntry<T> {
    if is_selecting_for_move_this_frame {
        if ch.hover_chars_for_move@.contains(p as usize) {
            CharacterEntry { is_selected_for_move: true, ..e }
        } else {
            e
        }
    } else if ch.hover_char_for_move == Some(p as usize) {
        CharacterEntry {
            is_hovering_for_move: true,
            is_selected_for_move: e.is_selected_for_move || right_clicked,
            ..e
        }
    } else {
        e
    }
}

/// The hovers name existing characters and objects.
pub open spec fn hovers_valid(ch: CharacterHovers, oh: ObjectHovers, n_chars: int, grid: Seq<Object>) -> bool {
    &&& forall|k: int| 0 <= k < ch.hover_chars@.len() ==> #[trigger] ch.hover_chars@[k] < n_chars
    &&& forall|k: int| 0 <= k < ch.hover_chars_for_move@.len() ==> #[trigger] ch.hover_chars_for_move@[k] < n_chars
    &&& ch.hover_char matches Some(p) ==> p < n_chars
    &&& ch.hover_char_for_move matches Some(p) ==> p < n_chars
    &&& forall|k: int|
        0 <= k < oh.hover_objs@.len() ==> #[trigger] oh.hover_objs@[k] < grid.len() && !(grid[oh.hover_objs@[k] as int] is NoObject)
    &&& oh.hover_obj matches Some(t) ==> t < grid.len() && !(grid[t as int] is NoObject)
}

impl<T> EntityManager<T> {
    /// The selection at the end of the hover passes. When selecting
    /// objects, a finished drag selects the objects in range; otherwise the
    /// object pointed at is hovered and, on a left click, becomes the only
    /// selected object. Characters work the same way when selecting
    /// characters. Then a finished move drag chooses the characters in the
    /// move range, or else the character pointed at for a move is hovered
    /// for a move and chosen on a right click. Returns whether anything was
    /// selected (which brings up the action buttons).
    pub fn select_hovered(
        &mut self,
        object_grid: &mut Vec<Object>,
        selector: &mut EntitySelectingManager,
        select_rect: &SelectRect,
        ch: &CharacterHovers,
        oh: &ObjectHovers,
        left_clicked: bool,
        right_clicked: bool,
    ) -> (was_anything_selected: bool)
        requires
            hovers_valid(*ch, *oh, old(self).characters@.len() as int, old(object_grid)@),
        ensures
            ({
                let objects_mode = old(selector).selecting_mode == SelectingMode::Objects;
                let obj_sel = objects_mode && (select_rect.is_selecting_this_frame || (oh.hover_obj is Some
                    && left_clicked));
                let char_sel = !objects_mode && (select_rect.is_selecting_this_frame || (ch.hover_char is Some
                    && left_clicked));
                let grid0 = old(object_grid)@;
                let chars0 = old(self).characters@;
                &&& was_anything_selected == (obj_sel || char_sel)
                &&& final(object_grid)@.len() == grid0.len()
                &&& forall|t: int|
                    0 <= t < grid0.len() ==> #[trigger] final(object_grid)@[t] == (if !objects_mode {
                        grid0[t]
                    } else if select_rect.is_selecting_this_frame {
                        if oh.hover_objs@.contains(t as usize) {
                            selected(grid0[t])
                        } else {
                            grid0[t]
                        }
                    } else if oh.hover_obj == Some(t as usize) {
                        if left_clicked {
                            selected(hovered(grid0[t]))
                        } else {
                            hovered(grid0[t])
                        }
                    } else {
                        grid0[t]
                    })
                &&& final(self).characters@.len() == chars0.len()
                &&& forall|p: int|
                    0 <= p < chars0.len() ==> #[trigger] final(self).characters@[p] == char_move_step(
                        char_selection_step(
                            chars0[p],
                            p,
                            !objects_mode,
                            select_rect.is_selecting_this_frame,
                            *ch,
                            left_clicked,
                        ),
                        p,
                        select_rect.is_selecting_for_move_this_frame,
                        *ch,
                        right_clicked,
                    )
                &&& final(selector).selected_objects@ == (if obj_sel {
                    if select_rect.is_selecting_this_frame {
                        oh.hover_objs@
                    } else {
                        seq![oh.hover_obj.unwrap()]
                    }
                } else {
                    old(selector).selected_objects@
                })
                &&& final(selector).selected_characters@ == (if char_sel {
                    if select_rect.is_selecting_this_frame {
                        ch.hover_chars@.map_values(|p: usize| chars0[p as int].unique_id)
                    } else {
                        seq![chars0[ch.hover_char.unwrap() as int].unique_id]
                    }
                } else {
                    old(selector).selected_characters@
                })
                &&& final(selector).is_deselecting_objs == (old(selector).is_deselecting_objs || obj_sel)
                &&& final(selector).is_deselecting_chars == (old(selector).is_deselecting_chars || char_sel)
                &&& final(selector).is_deselecting_move == old(selector).is_deselecting_move
                &&& final(selector).selecting_mode == old(selector).selecting_mode
            }),
            final(self).next_character_id == old(self).next_character_id,
            final(self).map_dimensions == old(self).map_dimensions,
            final(self).window() == old(self).window(),
    {
        let ghost chars0 = self.characters@;
        let ghost grid0 = object_grid@;
        let glen = object_grid.len();
        let clen = self.characters.len();
        let mut was_anything_selected = false;
        match selector.selecting_mode {
            SelectingMode::Objects => {
                if select_rect.is_selecting_this_frame {
                    selector.select_multiple_objs(object_grid, oh.hover_objs.clone());
                    was_anything_selected = true;
                } else {
                    if let Some(idx) = oh.hover_obj {
                        let mut obj = object_grid[idx];
                        obj.set_hovering();
                        if left_clicked {
                            selector.select_single_obj(&mut obj, idx);
                            was_anything_selected = true;
                        }
                        object_grid.set(idx, obj);
                    }
                }
                proof {
                    assert forall|p: int| 0 <= p < chars0.len() implies #[trigger] self.characters@[p] == char_selection_step(
                        chars0[p],
                        p,
                        false,
                        select_rect.is_selecting_this_frame,
                        *ch,
                        left_clicked,
                    ) by {
                    }
                }
            },
            SelectingMode::Characters => {
                if select_rect.is_selecting_this_frame {
                    selector.select_multiple_chars(&mut self.characters, ch.hover_chars.clone());
                    was_anything_selected = true;
                    proof {
                        assert forall|p: int| 0 <= p < chars0.len() implies #[trigger] self.characters@[p]
                            == char_selection_step(chars0[p], p, true, true, *ch, left_clicked) by {
                        }
                    }
                } else {
                    if let Some(p0) = ch.hover_char {
                        self.characters[p0].is_hovering = true;
                        if left_clicked {
                            selector.select_single_char(&mut self.characters[p0]);
                            was_anything_selected = true;
                        }
                        proof {
                            assert forall|p: int| 0 <= p < chars0.len() implies #[trigger] self.characters@[p]
                                == char_selection_step(chars0[p], p, true, false, *ch, left_clicked) by {
                                assert(p < clen);
                                if p == p0 as int {
                                } else {
                                    assert(ch.hover_char != Some(p as usize));
                                }
                            }
                        }
                    } else {
                        proof {
                            assert forall|p: int| 0 <= p < chars0.len() implies #[trigger] self.characters@[p]
                                == char_selection_step(chars0[p], p, true, false, *ch, left_clicked) by {
                            }
                        }
                    }
                }
            },
        }
        let ghost chars1 = self.characters@;
        proof {
            assert(grid0.len() == glen);
            assert(chars0.len() == clen);
        }
        if select_rect.is_selecting_for_move_this_frame {
            selector.select_multiple_moves(&mut self.characters, ch.hover_chars_for_move.clone());
        } else {
            if let Some(p0) = ch.hover_char_for_move {
                self.characters[p0].is_hovering_for_move = true;
                if right_clicked {
                    selector.select_single_move(&mut self.characters[p0]);
                }
                proof {
                    assert forall|p: int| 0 <= p < chars0.len() && p != p0 implies #[trigger] self.characters@[p]
                        == chars1[p] by {
                    }
                }
            }
        }
        was_anything_selected
    }
}


impl<T> CharacterEntry<T> {
    /// A move order: the gatherer drops its task and the character starts
    /// moving (the caller keeps where to).
    pub fn set_move_to(&mut self)
        ensures
            final(self).state == CharacterState::Moving,
            final(self).gatherer.gatherer_state == GathererState::Idle,
            final(self).gatherer.object_indices@ == old(self).gatherer.object_indices@,
            final(self).gatherer.current_index == old(self).gatherer.current_index,
            final(self).gatherer.should_unoccupy_current_obj == old(self).gatherer.should_unoccupy_current_obj,
            final(self).opponents@ == old(self).opponents@,
            final(self).character == old(self).character,
            final(self).unique_id == old(self).unique_id,
            final(self).render_index == old(self).render_index,
            final(self).is_hovering == old(self).is_hovering,
            final(self).is_hovering_for_move == old(self).is_hovering_for_move,
            final(self).is_selected == old(self).is_selected,
            final(self).is_selected_for_move == old(self).is_selected_for_move,
    {
        self.gatherer.set_idle();
        self.state = CharacterState::Moving;
    }

    /// After a step of a move: the character stops moving unless it has not
    /// arrived yet (arrival, no route or a route too long all end the move).
    pub fn finish_step(&mut self, result: CharacterMovementResult)
        requires
            old(self).state == CharacterState::Moving,
        ensures
            final(self).state == (if result == CharacterMovementResult::NotArrivedYet {
                CharacterState::Moving
            } else {
                CharacterState::NoState
            }),
            final(self).opponents@ == old(self).opponents@,
    {
        match result {
            CharacterMovementResult::NotArrivedYet => {},
            _ => {
                self.state = CharacterState::NoState;
            },
        }
    }

    /// The current opponent (the first) is defeated: it is dropped, and the
    /// character leaves combat when none is left. Returns whether it left.
    pub fn drop_defeated_opponent(&mut self) -> (left_combat: bool)
        requires
            old(self).opponents@.len() > 0,
        ensures
            final(self).opponents@ == old(self).opponents@.drop_first(),
            left_combat == (final(self).opponents@.len() == 0),
            final(self).state == (if left_combat {
                CharacterState::NoState
            } else {
                old(self).state
            }),
    {
        self.opponents.remove(0);
        let left = self.opponents.len() == 0;
        if left {
            self.state = CharacterState::NoState;
        }
        left
    }
}

/// `e1` is `e0` in combat with the opponents `foes` added.
pub open spec fn engaged<T>(e0: CharacterEntry<T>, e1: CharacterEntry<T>, foes: Seq<usize>) -> bool {
    &&& e1.opponents@ == e0.opponents@ + foes
    &&& e1.state == CharacterState::InCombat
    &&& e1.character == e0.character
    &&& e1.unique_id == e0.unique_id
    &&& e1.render_index == e0.render_index
    &&& e1.gatherer.gatherer_state == e0.gatherer.gatherer_state
    &&& e1.gatherer.object_indices@ == e0.gatherer.object_indices@
    &&& e1.gatherer.current_index == e0.gatherer.current_index
    &&& e1.gatherer.should_unoccupy_current_obj == e0.gatherer.should_unoccupy_current_obj
    &&& e1.is_hovering == e0.is_hovering
    &&& e1.is_hovering_for_move == e0.is_hovering_for_move
    &&& e1.is_selected == e0.is_selected
    &&& e1.is_selected_for_move == e0.is_selected_for_move
}

/// Puts two characters, by unique id, into combat with each other: the
/// attacker adds the target to its opponents, then the target adds the
/// attacker. Both ids must belong to characters.
pub fn engage_in_combat<T>(chars: &mut Vec<CharacterEntry<T>>, attacker_id: usize, target_id: usize)
    requires
        exists|k: int| 0 <= k < old(chars)@.len() && #[trigger] old(chars)@[k].unique_id == attacker_id,
        exists|k: int| 0 <= k < old(chars)@.len() && #[trigger] old(chars)@[k].unique_id == target_id,
    ensures
        final(chars)@.len() == old(chars)@.len(),
        forall|p: int|
            0 <= p < old(chars)@.len() ==> {
                let e0 = old(chars)@[p];
                let e1 = #[trigger] final(chars)@[p];
                if first_with_id(old(chars)@, attacker_id, p) && first_with_id(old(chars)@, target_id, p) {
                    engaged(e0, e1, seq![target_id, attacker_id])
                } else if first_with_id(old(chars)@, attacker_id, p) {
                    engaged(e0, e1, seq![target_id])
                } else if first_with_id(old(chars)@, target_id, p) {
                    engaged(e0, e1, seq![attacker_id])
                } else {
                    e1 == e0
                }
            },
{
    let ghost chars0 = chars@;
    let a = position_of_unique_id(chars, attacker_id);
    let t = position_of_unique_id(chars, target_id);
    chars[a].opponents.push(target_id);
    chars[a].state = CharacterState::InCombat;
    chars[t].opponents.push(attacker_id);
    chars[t].state = CharacterState::InCombat;
    proof {
        assert(chars0[a as int].opponents@.push(target_id).push(attacker_id) == chars0[a as int].opponents@ + seq![target_id, attacker_id]);
        assert(chars0[a as int].opponents@.push(target_id) == chars0[a as int].opponents@ + seq![target_id]);
        assert(chars0[t as int].opponents@.push(attacker_id) == chars0[t as int].opponents@ + seq![attacker_id]);
        assert forall|p: int| 0 <= p < chars0.len() && p != a as int implies !first_with_id(chars0, attacker_id, p) by {
            if first_with_id(chars0, attacker_id, p) {
                if p < a as int {
                    assert(chars0[p].unique_id != attacker_id);
                } else {
                    assert(chars0[a as int].unique_id != attacker_id);
                }
            }
        }
        assert forall|p: int| 0 <= p < chars0.len() && p != t as int implies !first_with_id(chars0, target_id, p) by {
            if first_with_id(chars0, target_id, p) {
                if p < t as int {
                    assert(chars0[p].unique_id != target_id);
                } else {
                    assert(chars0[t as int].unique_id != target_id);
                }
            }
        }
    }
}

/// The opponents that one engagement of `a` against `t` adds to the entry
/// at position `p`: the attacker, the first entry with id `a`, gets `t`, then
/// the target, the first entry with id `t`, gets `a`.
pub open spec fn foes_of<T>(chars: Seq<CharacterEntry<T>>, a: usize, t: usize, p: int) -> Seq<usize> {
    if first_with_id(chars, a, p) && first_with_id(chars, t, p) {
        seq![t, a]
    } else if first_with_id(chars, a, p) {
        seq![t]
    } else if first_with_id(chars, t, p) {
        seq![a]
    } else {
        Seq::empty()
    }
}

/// The opponents that the engagements of `pairs`, in order, add to the entry
/// at position `p`.
pub open spec fn foes_from<T>(chars: Seq<CharacterEntry<T>>, pairs: Seq<(usize, usize)>, p: int) -> Seq<usize>
    decreases pairs.len(),
{
    if pairs.len() == 0 {
        Seq::empty()
    } else {
        foes_from(chars, pairs.drop_last(), p) + foes_of(chars, pairs.last().0, pairs.last().1, p)
    }
}

/// Both ids of every pair belong to characters of the list.
pub open spec fn pairs_present<T>(chars: Seq<CharacterEntry<T>>, pairs: Seq<(usize, usize)>) -> bool {
    forall|k: int|
        0 <= k < pairs.len() ==> (exists|j: int| 0 <= j < chars.len() && #[trigger] chars[j].unique_id == (#[trigger] pairs[k]).0)
            && (exists|j: int| 0 <= j < chars.len() && #[trigger] chars[j].unique_id == pairs[k].1)
}

/// Lists with the same unique ids at every position have the same first
/// entry for every id.
proof fn lemma_same_ids<T>(c0: Seq<CharacterEntry<T>>, c1: Seq<CharacterEntry<T>>)
    requires
        c0.len() == c1.len(),
        forall|p: int| 0 <= p < c0.len() ==> #[trigger] c1[p].unique_id == c0[p].unique_id,
    ensures
        forall|id: usize, p: int| #[trigger] first_with_id(c1, id, p) == first_with_id(c0, id, p),
{
    assert forall|id: usize, p: int| #[trigger] first_with_id(c1, id, p) == first_with_id(c0, id, p) by {
        if first_with_id(c0, id, p) {
            assert forall|j: int| 0 <= j < p implies #[trigger] c1[j].unique_id != id by {
                assert(c0[j].unique_id != id);
            }
        }
        if first_with_id(c1, id, p) {
            assert forall|j: int| 0 <= j < p implies #[trigger] c0[j].unique_id != id by {
                assert(c1[j].unique_id != id);
            }
        }
    }
}

/// Engages each pair `(attacker, target)` of `pairs` in combat, in order, as
/// `engage_in_combat` does; both ids of every pair must belong to
/// characters.
pub fn engage_all<T>(chars: &mut Vec<CharacterEntry<T>>, pairs: &Vec<(usize, usize)>)
    requires
        pairs_present(old(chars)@, pairs@),
    ensures
        final(chars)@.len() == old(chars)@.len(),
        forall|p: int|
            0 <= p < old(chars)@.len() ==> if foes_from(old(chars)@, pairs@, p).len() > 0 {
                engaged(old(chars)@[p], #[trigger] final(chars)@[p], foes_from(old(chars)@, pairs@, p))
            } else {
                final(chars)@[p] == old(chars)@[p]
            },
{
    let ghost c0 = chars@;
    let n = pairs.len();
    let mut k: usize = 0;
    while k < n
        invariant
            n == pairs@.len(),
            k <= n,
            pairs_present(c0, pairs@),
            chars@.len() == c0.len(),
            forall|p: int| 0 <= p < c0.len() ==> #[trigger] chars@[p].unique_id == c0[p].unique_id,
            forall|p: int|
                0 <= p < c0.len() ==> if foes_from(c0, pairs@.take(k as int), p).len() > 0 {
                    engaged(c0[p], #[trigger] chars@[p], foes_from(c0, pairs@.take(k as int), p))
                } else {
                    chars@[p] == c0[p]
                },
        decreases n - k,
    {
        let (a, t) = pairs[k];
        let ghost c1 = chars@;
        proof {
            assert(pairs@[k as int] == (a, t));
            let ja = choose|j: int| 0 <= j < c0.len() && #[trigger] c0[j].unique_id == a;
            let jt = choose|j: int| 0 <= j < c0.len() && #[trigger] c0[j].unique_id == t;
            assert(c1[ja].unique_id == a);
            assert(c1[jt].unique_id == t);
            lemma_same_ids(c0, c1);
        }
        engage_in_combat(chars, a, t);
        proof {
            let tk = pairs@.take(k as int);
            let tk1 = pairs@.take(k + 1);
            assert(tk1.drop_last() =~= tk);
            assert(tk1.last() == (a, t));
            assert forall|p: int| 0 <= p < c0.len() implies #[trigger] chars@[p].unique_id == c0[p].unique_id by {
                assert(c1[p].unique_id == c0[p].unique_id);
            }
            assert forall|p: int|
                0 <= p < c0.len() implies if foes_from(c0, tk1, p).len() > 0 {
                    engaged(c0[p], #[trigger] chars@[p], foes_from(c0, tk1, p))
                } else {
                    chars@[p] == c0[p]
                } by {
                assert(foes_from(c0, tk1, p) == foes_from(c0, tk, p) + foes_of(c0, a, t, p));
                let e1 = c1[p];
                let e2 = chars@[p];
                if foes_from(c0, tk, p).len() > 0 {
                    assert(engaged(c0[p], e1, foes_from(c0, tk, p)));
                } else {
                    assert(e1 == c0[p]);
                    assert(foes_from(c0, tk, p) + foes_of(c0, a, t, p) =~= foes_of(c0, a, t, p));
                }
                if foes_of(c0, a, t, p).len() == 0 {
                    assert(foes_from(c0, tk, p) + foes_of(c0, a, t, p) =~= foes_from(c0, tk, p));
                } else {
                    assert((c0[p].opponents@ + foes_from(c0, tk, p)) + foes_of(c0, a, t, p) =~= c0[p].opponents@
                        + (foes_from(c0, tk, p) + foes_of(c0, a, t, p)));
                }
            }
        }
        k = k + 1;
    }
    proof {
        assert(pairs@.take(n as int) =~= pairs@);
    }
}

} // verus!
