//! Connected-group detection. Occupied spaces are grouped by one forward
//! raster scan: spaces are visited in row-major order, and each occupied
//! space joins the group of its already
//! visited up neighbour (preferred) or left neighbour when that neighbour
//! holds the same player's stone, and founds a new group otherwise. A group
//! has a liberty when some member has an empty on-board neighbour.
//!
//! The scan merges only through up/left links, so two arms of one true group
//! that touch solely through a link discovered later in scan order stay
//! separate groups. This single forward pass is a deliberate engine rule, not
//! a flood fill, and the specification below pins it exactly.

use vstd::prelude::*;

use crate::board::{cell_index, in_range, lemma_cell_index_distinct, space_view, GameBoard,
    BOARD_SIZE};
use crate::game_board::GameBoardMove;

verus! {

/// Whether the space `s` holds a stone on board `m`.
pub open spec fn occupied(m: Map<(int, int), usize>, s: (int, int)) -> bool {
    m.dom().contains(s)
}

/// The already-visited neighbour whose group `s` adopts during the scan:
/// the up neighbour when it holds the same player's stone, else the left
/// neighbour when it does, else none (`s` founds its own group).
pub open spec fn scan_parent(m: Map<(int, int), usize>, s: (int, int)) -> Option<(int, int)> {
    if !in_range(s) || !occupied(m, s) {
        None
    } else if s.0 > 0 && occupied(m, (s.0 - 1, s.1)) && m[(s.0 - 1, s.1)] == m[s] {
        Some((s.0 - 1, s.1))
    } else if s.1 > 0 && occupied(m, (s.0, s.1 - 1)) && m[(s.0, s.1 - 1)] == m[s] {
        Some((s.0, s.1 - 1))
    } else {
        None
    }
}

/// The space that founded the scan group of `s`: the first member of the
/// group in row-major scan order. Two spaces belong to one scan group
/// exactly when they have the same root.
pub open spec fn group_root(m: Map<(int, int), usize>, s: (int, int)) -> (int, int)
    decreases s.0 + s.1,
{
    match scan_parent(m, s) {
        Some(p) => group_root(m, p),
        None => s,
    }
}

/// Whether the space `s` itself touches a liberty: some on-board neighbour
/// of `s` is empty. Off-board directions contribute nothing.
pub open spec fn cell_liberty(m: Map<(int, int), usize>, s: (int, int)) -> bool {
    ||| s.0 > 0 && !occupied(m, (s.0 - 1, s.1))
    ||| s.1 > 0 && !occupied(m, (s.0, s.1 - 1))
    ||| s.0 < BOARD_SIZE as int - 1 && !occupied(m, (s.0 + 1, s.1))
    ||| s.1 < BOARD_SIZE as int - 1 && !occupied(m, (s.0, s.1 + 1))
}

/// Whether `c` witnesses a liberty for the group rooted at `r`.
pub open spec fn liberty_witness(m: Map<(int, int), usize>, c: (int, int), r: (int, int)) -> bool {
    &&& in_range(c)
    &&& occupied(m, c)
    &&& group_root(m, c) == r
    &&& cell_liberty(m, c)
}

/// Whether the scan group rooted at `r` has at least one liberty.
pub open spec fn group_has_liberty(m: Map<(int, int), usize>, r: (int, int)) -> bool {
    exists|c: (int, int)| #[trigger] liberty_witness(m, c, r)
}

/// The capture rule: a stone on `s` is removed exactly when its scan group
/// has no liberty and is not the group containing the just-placed stone on
/// `last` (the exempt group). When `last` is empty no group is exempt.
pub open spec fn captured(m: Map<(int, int), usize>, last: (int, int), s: (int, int)) -> bool {
    &&& in_range(s)
    &&& occupied(m, s)
    &&& !group_has_liberty(m, group_root(m, s))
    &&& !(occupied(m, last) && group_root(m, s) == group_root(m, last))
}

/// All spaces the capture rule removes for board `m` and exempt space `last`.
pub open spec fn captured_set(m: Map<(int, int), usize>, last: (int, int)) -> Set<(int, int)> {
    Set::new(|s: (int, int)| captured(m, last, s))
}

/// Whether `b` is one of the four 4-directional neighbours of `a`.
pub open spec fn adjacent(a: (int, int), b: (int, int)) -> bool {
    ||| b == ((a.0 - 1, a.1))
    ||| b == ((a.0 + 1, a.1))
    ||| b == ((a.0, a.1 - 1))
    ||| b == ((a.0, a.1 + 1))
}

/// Law: the group containing the just-placed stone is exempt from capture in
/// the same resolution, even when it has no liberty at that instant; the
/// unresolved self-kill question is deliberately left this way.
pub proof fn lemma_placed_group_exempt(m: Map<(int, int), usize>, last: (int, int), s: (int, int))
    requires
        occupied(m, last),
        group_root(m, s) == group_root(m, last),
    ensures
        !captured(m, last, s),
{
}

/// Law: a stone on a space with an empty on-board neighbour gives its whole
/// group a liberty, so no stone of that group is captured, whatever the
/// current move is.
pub proof fn lemma_liberty_protects_group(
    m: Map<(int, int), usize>,
    s: (int, int),
    c: (int, int),
    last: (int, int),
)
    requires
        in_range(s),
        occupied(m, s),
        cell_liberty(m, s),
        group_root(m, c) == group_root(m, s),
    ensures
        !captured(m, last, c),
{
    assert(liberty_witness(m, s, group_root(m, s)));
}

/// Law: a stone placed on a space none of whose on-board neighbours is
/// occupied — a free corner, or a fully empty patch of the interior — is
/// never captured in the resolution of its own placement: the fresh group
/// has a liberty the moment it is created.
pub proof fn lemma_fresh_placement_never_captured(before: Map<(int, int), usize>, s: (int, int), player: usize)
    requires
        in_range(s),
        forall|d: (int, int)| in_range(d) && #[trigger] adjacent(s, d) ==> !occupied(before, d),
    ensures
        group_has_liberty(before.insert(s, player), group_root(before.insert(s, player), s)),
        forall|last: (int, int)| !captured(before.insert(s, player), last, s),
{
    let m = before.insert(s, player);
    assert(cell_liberty(m, s)) by {
        if s.0 > 0 {
            assert(in_range((s.0 - 1, s.1)) && adjacent(s, (s.0 - 1, s.1)));
            assert(!occupied(m, (s.0 - 1, s.1)));
        } else {
            assert(in_range((s.0 + 1, s.1)) && adjacent(s, (s.0 + 1, s.1)));
            assert(!occupied(m, (s.0 + 1, s.1)));
        }
    }
    assert(liberty_witness(m, s, group_root(m, s)));
    assert forall|last: (int, int)| !captured(m, last, s) by {
        lemma_liberty_protects_group(m, s, s, last);
    }
}

/// Whether `c` is an on-board space visited strictly before scan position
/// `n` (spaces are visited in order of their row-major `cell_index`).
spec fn scan_before(c: (int, int), n: int) -> bool {
    in_range(c) && cell_index(c) < n
}

/// The group id assigned to `c` so far, or -1 while `c` has none.
spec fn gid_at(sg: Seq<Option<usize>>, c: (int, int)) -> int {
    match sg[cell_index(c)] {
        Some(g) => g as int,
        None => -1,
    }
}

/// What the scan has established once every space before position `n` has
/// been visited: `gs` holds (owner, liberty flag) per group id, `sg` the
/// group id per visited occupied space, `roots` (ghost) the founding space
/// of each group, and `lmg` the group id of the space `last`, if visited
/// and occupied.
spec fn scan_inv(
    m: Map<(int, int), usize>,
    n: int,
    gs: Seq<(usize, bool)>,
    sg: Seq<Option<usize>>,
    roots: Seq<(int, int)>,
    lmg: Option<usize>,
    last: (int, int),
) -> bool {
    &&& sg.len() == BOARD_SIZE * BOARD_SIZE
    &&& gs.len() == roots.len()
    &&& forall|c: (int, int)|
        #![trigger gid_at(sg, c)]
        #![trigger scan_before(c, n), occupied(m, c)]
        in_range(c) ==> ((scan_before(c, n) && occupied(m, c)) <==> gid_at(sg, c) >= 0)
    &&& forall|c: (int, int)|
        in_range(c) && #[trigger] gid_at(sg, c) >= 0 ==> gid_at(sg, c) < roots.len()
            && roots[gid_at(sg, c)] == group_root(m, c)
    &&& forall|g: int|
        #![trigger roots[g]]
        0 <= g < roots.len() ==> {
            &&& in_range(roots[g])
            &&& scan_before(roots[g], n)
            &&& occupied(m, roots[g])
            &&& group_root(m, roots[g]) == roots[g]
            &&& gid_at(sg, roots[g]) == g
            &&& gs[g].0 == m[roots[g]]
        }
    &&& forall|g: int|
        #![trigger gs[g]]
        0 <= g < roots.len() ==> (gs[g].1 <==> exists|c: (int, int)|
            scan_before(c, n) && #[trigger] liberty_witness(m, c, roots[g]))
    &&& match lmg {
        Some(g) => (g as int) < roots.len() && scan_before(last, n) && occupied(m, last)
            && gid_at(sg, last) == g as int,
        None => !(scan_before(last, n) && occupied(m, last)),
    }
}

/// Whether the option holds exactly the given player.
fn owner_matches(o: Option<usize>, player: usize) -> (b: bool)
    ensures
        b == (o == Some(player)),
{
    match o {
        Some(q) => q == player,
        None => false,
    }
}

/// List every space the capture rule removes, in row-major scan order.
///
/// The result holds exactly the spaces of [`captured`] groups: occupied
/// spaces whose scan group has no liberty and is not the group of
/// `last_move.space`. It is duplicate-free and strictly ordered by
/// [`cell_index`], so the outcome is a function of the board and the move
/// alone.
#[verifier::loop_isolation(false)]
pub fn get_surrounded_positions(game_board: &GameBoard, last_move: GameBoardMove) -> (surrounded: Vec<
    (usize, usize),
>)
    requires
        game_board.wf(),
        in_range(space_view(last_move.space)),
    ensures
        forall|k: int|
            0 <= k < surrounded@.len() ==> captured(
                game_board@,
                space_view(last_move.space),
                space_view(#[trigger] surrounded@[k]),
            ),
        forall|s: (int, int)|
            #[trigger] captured(game_board@, space_view(last_move.space), s) ==> exists|k: int|
                0 <= k < surrounded@.len() && space_view(#[trigger] surrounded@[k]) == s,
        forall|k1: int, k2: int|
            0 <= k1 < k2 < surrounded@.len() ==> cell_index(space_view(#[trigger] surrounded@[k1]))
                < cell_index(space_view(#[trigger] surrounded@[k2])),
        surrounded@.no_duplicates(),
{
    let ghost m = game_board@;
    let ghost last = space_view(last_move.space);

    let mut group_stats: Vec<(usize, bool)> = Vec::new();
    let mut space_groups: Vec<Option<usize>> = Vec::new();
    let mut last_move_group: Option<usize> = None;
    let ghost mut roots: Seq<(int, int)> = Seq::empty();

    while space_groups.len() < BOARD_SIZE * BOARD_SIZE
        invariant
            space_groups@.len() <= BOARD_SIZE * BOARD_SIZE,
            forall|k: int| 0 <= k < space_groups@.len() ==> space_groups@[k] is None,
        decreases BOARD_SIZE * BOARD_SIZE - space_groups.len(),
    {
        space_groups.push(None);
    }

    proof {
        assert(scan_inv(m, 0, group_stats@, space_groups@, roots, last_move_group, last));
    }
    let mut i: usize = 0;
    let mut j: usize = 0;
    let mut n: usize = 0;
    while n < BOARD_SIZE * BOARD_SIZE
        invariant
            n == i * BOARD_SIZE + j,
            j < BOARD_SIZE,
            n <= BOARD_SIZE * BOARD_SIZE,
            scan_inv(m, n as int, group_stats@, space_groups@, roots, last_move_group, last),
        decreases BOARD_SIZE * BOARD_SIZE - n,
    {
        let ghost c = (i as int, j as int);
        proof {
            assert(cell_index(c) == n);
            assert(in_range(c));
            assert forall|d: (int, int)| in_range(d) && d != c implies cell_index(d) != n by {
                lemma_cell_index_distinct(d, c);
            }
        }
        let ghost old_sg = space_groups@;
        let ghost old_gs = group_stats@;
        let ghost old_lmg = last_move_group;
        match game_board.get((i, j)) {
            Some(space_player) => {
                let up_owner: Option<usize> = if i > 0 {
                    game_board.get((i - 1, j))
                } else {
                    None
                };
                let left_owner: Option<usize> = if j > 0 {
                    game_board.get((i, j - 1))
                } else {
                    None
                };
                let group_id: usize;
                if owner_matches(up_owner, space_player) {
                    proof {
                        let up = (c.0 - 1, c.1);
                        assert(cell_index(up) == n - BOARD_SIZE);
                        assert(scan_before(up, n as int) && occupied(m, up));
                        assert(gid_at(old_sg, up) >= 0);
                        assert(scan_parent(m, c) == Some(up));
                        assert(group_root(m, c) == group_root(m, up));
                    }
                    group_id = space_groups[(i - 1) * BOARD_SIZE + j].unwrap();
                } else if owner_matches(left_owner, space_player) {
                    proof {
                        let left = (c.0, c.1 - 1);
                        assert(cell_index(left) == n - 1);
                        assert(scan_before(left, n as int) && occupied(m, left));
                        assert(gid_at(old_sg, left) >= 0);
                        assert(scan_parent(m, c) == Some(left));
                        assert(group_root(m, c) == group_root(m, left));
                    }
                    group_id = space_groups[i * BOARD_SIZE + (j - 1)].unwrap();
                } else {
                    proof {
                        assert(scan_parent(m, c) is None);
                        assert(group_root(m, c) == c);
                        // The new root differs from every existing one, which
                        // was visited earlier.
                        assert(gid_at(old_sg, c) == -1);
                    }
                    group_id = group_stats.len();
                    group_stats.push((space_player, false));
                    proof {
                        roots = roots.push(c);
                    }
                }
                proof {
                    assert(0 <= group_id < roots.len());
                    assert(roots[group_id as int] == group_root(m, c));
                }
                let has_lib: bool = (i > 0 && game_board.get((i - 1, j)).is_none()) || (j > 0
                    && game_board.get((i, j - 1)).is_none()) || (i + 1 < BOARD_SIZE
                    && game_board.get((i + 1, j)).is_none()) || (j + 1 < BOARD_SIZE
                    && game_board.get((i, j + 1)).is_none());
                proof {
                    assert(has_lib == cell_liberty(m, c));
                }
                let stat = group_stats[group_id];
                group_stats.set(group_id, (stat.0, stat.1 || has_lib));
                space_groups.set(i * BOARD_SIZE + j, Some(group_id));
                if i == last_move.space.0 && j == last_move.space.1 {
                    last_move_group = Some(group_id);
                }
                proof {
                    let sg1 = space_groups@;
                    let gs1 = group_stats@;
                    assert(gid_at(sg1, c) == group_id as int);
                    assert forall|d: (int, int)| in_range(d) && d != c implies gid_at(sg1, d)
                        == gid_at(old_sg, d) by {
                        lemma_cell_index_distinct(d, c);
                    }
                    // Liberty flags keep their meaning for every group.
                    assert forall|g: int| 0 <= g < roots.len() implies (gs1[g].1 <==> exists|
                        d: (int, int),
                    |
                        scan_before(d, n + 1) && #[trigger] liberty_witness(m, d, roots[g])) by {
                        if g == group_id as int {
                            if gs1[g].1 {
                                if stat.1 {
                                    let d = choose|d: (int, int)|
                                        scan_before(d, n as int) && #[trigger] liberty_witness(
                                            m,
                                            d,
                                            roots[g],
                                        );
                                    assert(scan_before(d, n + 1) && liberty_witness(m, d, roots[g]));
                                } else {
                                    assert(liberty_witness(m, c, roots[g]));
                                    assert(scan_before(c, n + 1) && liberty_witness(m, c, roots[g]));
                                }
                            }
                            if exists|d: (int, int)|
                                scan_before(d, n + 1) && #[trigger] liberty_witness(m, d, roots[g]) {
                                let d = choose|d: (int, int)|
                                    scan_before(d, n + 1) && #[trigger] liberty_witness(
                                        m,
                                        d,
                                        roots[g],
                                    );
                                if d == c {
                                    assert(gs1[g].1);
                                } else {
                                    assert(scan_before(d, n as int));
                                    assert(old_gs[g].1);
                                }
                            }
                        } else {
                            // Group g is untouched: the new space belongs to
                            // a different root.
                            assert(roots[g] != roots[group_id as int]);
                            if old_gs[g].1 {
                                let d = choose|d: (int, int)|
                                    scan_before(d, n as int) && #[trigger] liberty_witness(
                                        m,
                                        d,
                                        roots[g],
                                    );
                                assert(scan_before(d, n + 1) && liberty_witness(m, d, roots[g]));
                            }
                            if exists|d: (int, int)|
                                scan_before(d, n + 1) && #[trigger] liberty_witness(m, d, roots[g]) {
                                let d = choose|d: (int, int)|
                                    scan_before(d, n + 1) && #[trigger] liberty_witness(
                                        m,
                                        d,
                                        roots[g],
                                    );
                                if d == c {
                                    assert(group_root(m, c) == roots[g]);
                                    assert(false);
                                } else {
                                    assert(scan_before(d, n as int));
                                    assert(old_gs[g].1);
                                }
                            }
                            assert(gs1[g] == old_gs[g]);
                        }
                    }
                    assert(scan_inv(
                        m,
                        n + 1,
                        group_stats@,
                        space_groups@,
                        roots,
                        last_move_group,
                        last,
                    ));
                }
            },
            None => {
                proof {
                    assert(!occupied(m, c));
                    assert forall|g: int| 0 <= g < roots.len() implies (group_stats@[g].1
                        <==> exists|d: (int, int)|
                        scan_before(d, n + 1) && #[trigger] liberty_witness(m, d, roots[g])) by {
                        if group_stats@[g].1 {
                            let d = choose|d: (int, int)|
                                scan_before(d, n as int) && #[trigger] liberty_witness(
                                    m,
                                    d,
                                    roots[g],
                                );
                            assert(scan_before(d, n + 1) && liberty_witness(m, d, roots[g]));
                        }
                        if exists|d: (int, int)|
                            scan_before(d, n + 1) && #[trigger] liberty_witness(m, d, roots[g]) {
                            let d = choose|d: (int, int)|
                                scan_before(d, n + 1) && #[trigger] liberty_witness(m, d, roots[g]);
                            assert(d != c);
                            assert(scan_before(d, n as int));
                        }
                    }
                    assert(scan_inv(
                        m,
                        n + 1,
                        group_stats@,
                        space_groups@,
                        roots,
                        last_move_group,
                        last,
                    ));
                }
            },
        }
        n = n + 1;
        j = j + 1;
        if j == BOARD_SIZE {
            j = 0;
            i = i + 1;
        }
    }

    // After the full scan a group's flag says exactly whether the group has
    // a liberty anywhere on the board.
    proof {
        assert forall|g: int| 0 <= g < roots.len() implies (group_stats@[g].1
            <==> group_has_liberty(m, roots[g])) by {
            if group_stats@[g].1 {
                let d = choose|d: (int, int)|
                    scan_before(d, 361) && #[trigger] liberty_witness(m, d, roots[g]);
                assert(liberty_witness(m, d, roots[g]));
            }
            if group_has_liberty(m, roots[g]) {
                let d = choose|d: (int, int)| #[trigger] liberty_witness(m, d, roots[g]);
                assert(cell_index(d) < 361);
                assert(scan_before(d, 361) && liberty_witness(m, d, roots[g]));
            }
        }
    }

    let mut surrounded: Vec<(usize, usize)> = Vec::new();
    i = 0;
    j = 0;
    n = 0;
    while n < BOARD_SIZE * BOARD_SIZE
        invariant
            n == i * BOARD_SIZE + j,
            j < BOARD_SIZE,
            n <= BOARD_SIZE * BOARD_SIZE,
            scan_inv(m, 361, group_stats@, space_groups@, roots, last_move_group, last),
            forall|g: int|
                0 <= g < roots.len() ==> ((#[trigger] group_stats@[g]).1 <==> group_has_liberty(
                    m,
                    roots[g],
                )),
            forall|k: int|
                0 <= k < surrounded@.len() ==> captured(m, last, space_view(
                    #[trigger] surrounded@[k],
                )),
            forall|k: int|
                0 <= k < surrounded@.len() ==> cell_index(space_view(#[trigger] surrounded@[k]))
                    < n,
            forall|s: (int, int)|
                scan_before(s, n as int) && #[trigger] captured(m, last, s) ==> exists|k: int|
                    0 <= k < surrounded@.len() && space_view(#[trigger] surrounded@[k]) == s,
            forall|k1: int, k2: int|
                0 <= k1 < k2 < surrounded@.len() ==> cell_index(space_view(
                    #[trigger] surrounded@[k1],
                )) < cell_index(space_view(#[trigger] surrounded@[k2])),
        decreases BOARD_SIZE * BOARD_SIZE - n,
    {
        let ghost c = (i as int, j as int);
        proof {
            assert(cell_index(c) == n);
            assert(in_range(c));
            assert forall|d: (int, int)| in_range(d) && d != c implies cell_index(d) != n by {
                lemma_cell_index_distinct(d, c);
            }
        }
        let ghost old_surrounded = surrounded@;
        match space_groups[i * BOARD_SIZE + j] {
            Some(g) => {
                proof {
                    assert(gid_at(space_groups@, c) == g as int);
                    assert(occupied(m, c));
                    assert(roots[g as int] == group_root(m, c));
                }
                let no_liberty = !group_stats[g].1;
                let not_exempt = match last_move_group {
                    Some(lg) => lg != g,
                    None => true,
                };
                proof {
                    match last_move_group {
                        Some(lg) => {
                            assert(occupied(m, last));
                            assert(roots[lg as int] == group_root(m, last));
                            if roots[lg as int] == roots[g as int] {
                                assert(gid_at(space_groups@, roots[lg as int]) == lg as int);
                                assert(gid_at(space_groups@, roots[g as int]) == g as int);
                            }
                            assert(not_exempt == (group_root(m, c) != group_root(m, last)));
                        },
                        None => {
                            assert(!occupied(m, last));
                        },
                    }
                    assert((no_liberty && not_exempt) == captured(m, last, c));
                }
                if no_liberty && not_exempt {
                    surrounded.push((i, j));
                }
            },
            None => {
                proof {
                    assert(gid_at(space_groups@, c) == -1);
                    assert(!(scan_before(c, 361) && occupied(m, c)));
                    assert(!captured(m, last, c));
                }
            },
        }
        proof {
            assert forall|s: (int, int)|
                scan_before(s, n + 1) && #[trigger] captured(m, last, s) implies exists|k: int|
                0 <= k < surrounded@.len() && space_view(#[trigger] surrounded@[k]) == s by {
                if s == c {
                    assert(space_view(surrounded@[surrounded@.len() - 1]) == s);
                } else {
                    assert(scan_before(s, n as int));
                    let k = choose|k: int|
                        0 <= k < old_surrounded.len() && space_view(#[trigger] old_surrounded[k])
                            == s;
                    assert(space_view(surrounded@[k]) == s);
                }
            }
        }
        n = n + 1;
        j = j + 1;
        if j == BOARD_SIZE {
            j = 0;
            i = i + 1;
        }
    }

    proof {
        assert forall|s: (int, int)|
            #[trigger] captured(game_board@, last, s) implies exists|k: int|
            0 <= k < surrounded@.len() && space_view(#[trigger] surrounded@[k]) == s by {
            assert(cell_index(s) < 361);
            assert(scan_before(s, 361));
        }
        assert forall|k1: int, k2: int|
            0 <= k1 < surrounded@.len() && 0 <= k2 < surrounded@.len() && k1 != k2 implies
            surrounded@[k1] != surrounded@[k2] by {
            if k1 < k2 {
                assert(cell_index(space_view(surrounded@[k1])) < cell_index(space_view(
                    surrounded@[k2],
                )));
            } else {
                assert(cell_index(space_view(surrounded@[k2])) < cell_index(space_view(
                    surrounded@[k1],
                )));
            }
        }
        assert(surrounded@.no_duplicates());
    }
    surrounded
}

/// Whether the space `s` occurs in the sequence `q`.
spec fn appears(q: Seq<(usize, usize)>, s: (usize, usize)) -> bool {
    exists|k: int| 0 <= k < q.len() && q[k] == s
}

/// Two sequences of spaces that are strictly ordered by `cell_index` and
/// have the same members are equal.
proof fn lemma_ordered_same_members_equal(a: Seq<(usize, usize)>, b: Seq<(usize, usize)>)
    requires
        forall|k1: int, k2: int|
            0 <= k1 < k2 < a.len() ==> cell_index(space_view(#[trigger] a[k1])) < cell_index(
                space_view(#[trigger] a[k2]),
            ),
        forall|k1: int, k2: int|
            0 <= k1 < k2 < b.len() ==> cell_index(space_view(#[trigger] b[k1])) < cell_index(
                space_view(#[trigger] b[k2]),
            ),
        forall|s: (usize, usize)|
            #![trigger appears(a, s)]
            #![trigger appears(b, s)]
            appears(a, s) <==> appears(b, s),
    ensures
        a == b,
    decreases a.len(),
{
    if a.len() == 0 {
        if b.len() > 0 {
            assert(appears(b, b[0]));
            assert(appears(a, b[0]));
            let k = choose|k: int| 0 <= k < a.len() && a[k] == b[0];
            assert(false);
        }
        assert(a =~= b);
    } else {
        assert(appears(a, a[0]));
        assert(appears(b, a[0]));
        let kb = choose|k: int| 0 <= k < b.len() && b[k] == a[0];
        assert(appears(b, b[0]));
        assert(appears(a, b[0]));
        let ka = choose|k: int| 0 <= k < a.len() && a[k] == b[0];
        assert(a[0] == b[0]) by {
            if kb > 0 {
                assert(cell_index(space_view(b[0])) < cell_index(space_view(b[kb])));
                if ka > 0 {
                    assert(cell_index(space_view(a[0])) < cell_index(space_view(a[ka])));
                }
            }
        }
        let at = a.subrange(1, a.len() as int);
        let bt = b.subrange(1, b.len() as int);
        assert forall|s: (usize, usize)|
            #![trigger appears(at, s)]
            #![trigger appears(bt, s)]
            appears(at, s) <==> appears(bt, s) by {
            if appears(at, s) {
                let k = choose|k: int| 0 <= k < at.len() && at[k] == s;
                assert(a[k + 1] == s);
                assert(cell_index(space_view(a[0])) < cell_index(space_view(s)));
                assert(appears(a, s));
                let k2 = choose|k2: int| 0 <= k2 < b.len() && b[k2] == s;
                assert(k2 > 0);
                assert(bt[k2 - 1] == s);
                assert(appears(bt, s));
            }
            if appears(bt, s) {
                let k = choose|k: int| 0 <= k < bt.len() && bt[k] == s;
                assert(b[k + 1] == s);
                assert(cell_index(space_view(b[0])) < cell_index(space_view(s)));
                assert(appears(b, s));
                let k2 = choose|k2: int| 0 <= k2 < a.len() && a[k2] == s;
                assert(k2 > 0);
                assert(at[k2 - 1] == s);
                assert(appears(at, s));
            }
        }
        lemma_ordered_same_members_equal(at, bt);
        assert(a.len() == b.len());
        assert forall|k: int| 0 <= k < a.len() implies a[k] == b[k] by {
            if k > 0 {
                assert(a[k] == at[k - 1]);
                assert(b[k] == bt[k - 1]);
            }
        }
        assert(a =~= b);
    }
}

/// Law: group detection is deterministic. Any two results that satisfy the
/// contract of [`get_surrounded_positions`] for one board and one move are
/// equal, so invoking the detector twice on an unchanged board yields
/// identical group and capture assignments.
pub proof fn lemma_detection_deterministic(
    m: Map<(int, int), usize>,
    last: (int, int),
    a: Seq<(usize, usize)>,
    b: Seq<(usize, usize)>,
)
    requires
        forall|k: int| 0 <= k < a.len() ==> captured(m, last, space_view(#[trigger] a[k])),
        forall|s: (int, int)|
            #[trigger] captured(m, last, s) ==> exists|k: int|
                0 <= k < a.len() && space_view(#[trigger] a[k]) == s,
        forall|k1: int, k2: int|
            0 <= k1 < k2 < a.len() ==> cell_index(space_view(#[trigger] a[k1])) < cell_index(
                space_view(#[trigger] a[k2]),
            ),
        forall|k: int| 0 <= k < b.len() ==> captured(m, last, space_view(#[trigger] b[k])),
        forall|s: (int, int)|
            #[trigger] captured(m, last, s) ==> exists|k: int|
                0 <= k < b.len() && space_view(#[trigger] b[k]) == s,
        forall|k1: int, k2: int|
            0 <= k1 < k2 < b.len() ==> cell_index(space_view(#[trigger] b[k1])) < cell_index(
                space_view(#[trigger] b[k2]),
            ),
    ensures
        a == b,
{
    assert forall|s: (usize, usize)|
        #![trigger appears(a, s)]
        #![trigger appears(b, s)]
        appears(a, s) <==> appears(b, s) by {
        if appears(a, s) {
            let k = choose|k: int| 0 <= k < a.len() && a[k] == s;
            assert(captured(m, last, space_view(s)));
            let k2 = choose|k2: int|
                0 <= k2 < b.len() && space_view(#[trigger] b[k2]) == space_view(s);
            assert(b[k2] == s);
            assert(appears(b, s));
        }
        if appears(b, s) {
            let k = choose|k: int| 0 <= k < b.len() && b[k] == s;
            assert(captured(m, last, space_view(s)));
            let k2 = choose|k2: int|
                0 <= k2 < a.len() && space_view(#[trigger] a[k2]) == space_view(s);
            assert(a[k2] == s);
            assert(appears(a, s));
        }
    }
    lemma_ordered_same_members_equal(a, b);
}

} // verus!
