//! Who owns a string.
//!
//! A string in storage is a global's, a parameter's or in hand, and it is no two names'. What a
//! construct makes on the way it releases, so that behind it there are the strings that the names
//! have, those that were in hand before, and the construct's own where it comes to one that is no
//! name's.

use vstd::prelude::*;

use super::builder::{Program};
use super::effects::{held, lemma_expr_meant, lemma_frames_alike, lemma_function_found};
use super::evaluation::{
    Env, Held, Outcome, Piece, Stretch, arms_meant, block_meant, call_meant, closed_again, compares,
    comparison, counted, counted_arms, counted_block, counted_branch, counted_function,
    counted_number, counted_part, counted_parts, counted_program, counted_range, counted_stmt,
    counted_stmts, counted_string, counted_value, discarded, evenly, fitted, floating, frame_of,
    fstring_meant, function_from, globals_released, group_written, groups_written, handed,
    items_meant, joined, kept_value, made, meant, name_held, name_replaced, name_written,
    number_meant, numbers_meant, opened, own, params_bound, pieces_meant, pieces_released,
    pieces_text, plain, program_meant, range_meant, released, rendered, result_meant, rounds_meant,
    scope_released, segments_meant, settles, stmt_meant, stmts_meant, value_meant,
};
use super::execution::{
    Floats, Machine, Strings, code_of, content_of, reaches, string_released, text_of,
};
use super::results::{finished, globals_of, nothing_run, programs_compute_what_they_mean, started};
use super::lowering::{
    block_result_type, lowered, node_at, owns_str_result, program_owns_str, program_type, str_parts,
    type_of,
};
use super::meaning::{goes_on, wrapped};
use super::validity::{countable, ended};
use super::soundness::{told_apart};
use crate::runtime::string::{decimal_bytes};
use crate::parser::ast::{
    BinOp, BlockView, ExprId, FStrSegment, FuncDefView, IfArmView, NodeView, Param, PinpType, Place,
    StmtView, SymId, TopLevelView, symbol_of,
};

verus! {

/// A name has a string.
pub open spec fn named(names: Map<u32, Held>, sym: u32, string: int) -> bool {
    names.contains_key(sym) && names[sym].kind == PinpType::Str && names[sym].value == string
}

/// A global or a parameter has a string.
pub open spec fn has(
    globals: Map<u32, Held>,
    params: Map<u32, Held>,
    local: bool,
    sym: u32,
    string: int,
) -> bool {
    named(
        if local {
            params
        } else {
            globals
        },
        sym,
        string,
    )
}

/// Every string in storage is in hand or a name's, and no two names have the same; what a name has is
/// in storage or is the empty string.
#[verifier::opaque]
pub open spec fn owned(
    globals: Map<u32, Held>,
    params: Map<u32, Held>,
    strings: Strings,
    hand: Set<int>,
) -> bool {
    &&& strings.next > 0
    &&& forall|h: int| #[trigger] strings.kept.contains_key(h) ==> 0 < h < strings.next
    &&& forall|local: bool, sym: u32, h: int| #[trigger]
        has(globals, params, local, sym, h) ==> h == 0 || strings.kept.contains_key(h)
            && !hand.contains(h)
    &&& forall|local: bool, sym: u32, beside: bool, other: u32, h: int|
        h != 0 && #[trigger] has(globals, params, local, sym, h) && #[trigger] has(
            globals,
            params,
            beside,
            other,
            h,
        ) ==> local == beside && sym == other
    &&& forall|h: int| #[trigger] hand.contains(h) ==> strings.kept.contains_key(h)
    &&& forall|h: int| #[trigger]
        strings.kept.contains_key(h) ==> hand.contains(h) || exists|local: bool, sym: u32|
            has(globals, params, local, sym, h)
}

/// The names that the parameters of a function are among.
pub open spec fn outermost(frames: Seq<Map<u32, Held>>) -> Map<u32, Held> {
    if frames.len() > 0 {
        frames[0]
    } else {
        Map::empty()
    }
}

/// Blocks have no strings of their own.
#[verifier::opaque]
pub open spec fn frames_plain(frames: Seq<Map<u32, Held>>) -> bool {
    forall|k: int, sym: u32|
        0 < k < frames.len() && #[trigger] frames[k].contains_key(sym) ==> frames[k][sym].kind
            != PinpType::Str
}

/// What the names stand for, with these strings in hand.
pub open spec fn sound(env: Env, hand: Set<int>) -> bool {
    &&& env.frames.len() > 0
    &&& owned(env.globals, outermost(env.frames), env.strings, hand)
    &&& frames_plain(env.frames)
}

/// A name is one of a string.
pub open spec fn texted(names: Map<u32, Held>, sym: u32) -> bool {
    names.contains_key(sym) && names[sym].kind == PinpType::Str
}

/// The same parameters have strings.
pub open spec fn same_base(before: Env, after: Env) -> bool {
    &&& after.frames.len() == before.frames.len()
    &&& forall|sym: u32|
        (#[trigger] texted(outermost(after.frames), sym)) == texted(outermost(before.frames), sym)
}

/// What the names stand for behind something, with these strings in hand.
pub open spec fn follows(before: Env, after: Env, hand: Set<int>) -> bool {
    sound(after, hand) && same_base(before, after)
}

/// The strings that are in hand behind an expression.
pub open spec fn with_result(
    p: Program,
    expr_id: ExprId,
    number: Option<int>,
    hand: Set<int>,
) -> Set<int> {
    if type_of(p, expr_id) == PinpType::Str && owns_str_result(p, expr_id) {
        hand.insert(number->0)
    } else {
        hand
    }
}

/// The same, and that the string is new in hand.
pub open spec fn comes_to(
    p: Program,
    expr_id: ExprId,
    before: Env,
    env: Env,
    number: Option<int>,
    hand: Set<int>,
) -> bool {
    &&& follows(before, env, with_result(p, expr_id, number, hand))
    &&& type_of(p, expr_id) == PinpType::Str && owns_str_result(p, expr_id) ==> number is Some
        && !hand.contains(number->0)
}

proof fn lemma_made_owned(env: Env, text: Option<Seq<u8>>, hand: Set<int>)
    requires
        sound(env, hand),
        made(env, text) is Some,
    ensures
        ({
            let (after, string) = made(env, text)->0;
            &&& sound(after, hand.insert(string))
            &&& !hand.contains(string)
        }),
{
    reveal(owned);
    let (after, string) = made(env, text)->0;
    let now = hand.insert(string);
    let base = outermost(env.frames);
    assert forall|h: int| #[trigger] after.strings.kept.contains_key(h) implies now.contains(h)
        || exists|local: bool, sym: u32| has(env.globals, base, local, sym, h) by {
        if h != string {
            assert(env.strings.kept.contains_key(h));
        }
    }
}

proof fn lemma_released_owned(env: Env, string: int, hand: Set<int>)
    requires
        sound(env, hand),
        hand.contains(string),
    ensures
        released(env, string) is Some,
        sound(released(env, string)->0, hand.remove(string)),
{
    reveal(owned);
    assert(env.strings.kept.contains_key(string));
    let after = released(env, string)->0;
    let now = hand.remove(string);
    let base = outermost(env.frames);
    assert forall|h: int| #[trigger] after.strings.kept.contains_key(h) implies now.contains(h)
        || exists|local: bool, sym: u32| has(env.globals, base, local, sym, h) by {
        assert(env.strings.kept.contains_key(h));
    }
}

/// A name's string is in storage or empty, so that it can be read and released.
pub proof fn names_have_live_strings(env: Env, hand: Set<int>, sym_id: SymId, global: bool)
    requires
        sound(env, hand),
        name_held(env, sym_id, global) is Some,
        name_held(env, sym_id, global)->0.kind == PinpType::Str,
    ensures
        text_of(env.strings, name_held(env, sym_id, global)->0.value) is Some,
        released(env, name_held(env, sym_id, global)->0.value) is Some,
{
    reveal(owned);
    reveal(frames_plain);
    let held = name_held(env, sym_id, global)->0;
    let top = env.frames.len() as int;
    let k = frame_of(env.frames, top, sym_id.0);
    lemma_frames_alike(env.frames, env.frames, top, sym_id.0);
    let local = !global && k >= 0;
    if local {
        assert(env.frames[k].contains_key(sym_id.0));
        assert(k == 0);
    }
    assert(has(env.globals, outermost(env.frames), local, sym_id.0, held.value));
}

/// A string in hand is in storage, so that it can be read and released.
pub proof fn strings_in_hand_are_live(env: Env, hand: Set<int>, string: int)
    requires
        sound(env, hand),
        hand.contains(string),
    ensures
        text_of(env.strings, string) is Some,
        released(env, string) is Some,
{
    reveal(owned);
    assert(env.strings.kept.contains_key(string));
}

/// A name gives its string back and takes another one over; zero is none.
proof fn lemma_taken_over(
    globals: Map<u32, Held>,
    params: Map<u32, Held>,
    strings: Strings,
    local: bool,
    sym: u32,
    old: int,
    string: int,
    hand: Set<int>,
)
    requires
        owned(globals, params, strings, hand),
        has(globals, params, local, sym, old),
        string == 0 || hand.contains(string),
    ensures
        string_released(strings, old) is Some,
        ({
            let held = Held { kind: PinpType::Str, value: string };
            owned(
                if local {
                    globals
                } else {
                    globals.insert(sym, held)
                },
                if local {
                    params.insert(sym, held)
                } else {
                    params
                },
                string_released(strings, old)->0,
                hand.remove(string),
            )
        }),
{
    reveal(owned);
    let given = string_released(strings, old)->0;
    let held = Held { kind: PinpType::Str, value: string };
    let g = if local {
        globals
    } else {
        globals.insert(sym, held)
    };
    let q = if local {
        params.insert(sym, held)
    } else {
        params
    };
    let now = hand.remove(string);
    assert(string != 0 ==> strings.kept.contains_key(string) && string != old);
    assert forall|at: bool, name: u32, h: int| #[trigger] has(g, q, at, name, h) implies h == 0
        || given.kept.contains_key(h) && !now.contains(h) by {
        if at != local || name != sym {
            assert(has(globals, params, at, name, h));
        }
    }
    assert forall|at: bool, name: u32, beside: bool, other: u32, h: int|
        h != 0 && #[trigger] has(g, q, at, name, h) && #[trigger] has(
            g,
            q,
            beside,
            other,
            h,
        ) implies at == beside && name == other by {
        if at != local || name != sym {
            assert(has(globals, params, at, name, h));
        }
        if beside != local || other != sym {
            assert(has(globals, params, beside, other, h));
        }
    }
    assert forall|h: int| #[trigger] now.contains(h) implies given.kept.contains_key(h) by {
        assert(hand.contains(h));
        assert(strings.kept.contains_key(h));
    }
    assert forall|h: int| #[trigger] given.kept.contains_key(h) implies now.contains(h)
        || exists|at: bool, name: u32| has(g, q, at, name, h) by {
        assert(strings.kept.contains_key(h));
        if h == string {
            assert(has(g, q, local, sym, h));
        } else if !hand.contains(h) {
            let (at, name) = choose|at: bool, name: u32| has(globals, params, at, name, h);
            assert(has(globals, params, at, name, h));
            assert(has(g, q, at, name, h));
        }
    }
}

/// Names that have the same strings own the same.
proof fn lemma_same_names(
    globals: Map<u32, Held>,
    params: Map<u32, Held>,
    g: Map<u32, Held>,
    q: Map<u32, Held>,
    strings: Strings,
    hand: Set<int>,
)
    requires
        owned(globals, params, strings, hand),
        forall|local: bool, sym: u32, h: int|
            (#[trigger] has(g, q, local, sym, h)) == has(globals, params, local, sym, h),
    ensures
        owned(g, q, strings, hand),
{
    reveal(owned);
    assert forall|h: int| #[trigger] strings.kept.contains_key(h) implies hand.contains(h)
        || exists|local: bool, sym: u32| has(g, q, local, sym, h) by {
        if !hand.contains(h) {
            let (local, sym) = choose|local: bool, sym: u32| has(globals, params, local, sym, h);
            assert(has(g, q, local, sym, h));
        }
    }
}

/// A name given a number.
proof fn lemma_number_owned(env: Env, place: Place, kind: PinpType, x: int, hand: Set<int>)
    requires
        sound(env, hand),
        kind != PinpType::Str,
        name_written(env, place, kind, x) is Some,
    ensures
        follows(env, name_written(env, place, kind, x)->0, hand),
{
    let after = name_written(env, place, kind, x)->0;
    let sym = symbol_of(place).0;
    let top = env.frames.len() as int;
    lemma_frames_alike(env.frames, env.frames, top, sym);
    let base = outermost(env.frames);
    let now = outermost(after.frames);
    lemma_same_names(env.globals, base, after.globals, now, env.strings, hand);
    assert(frames_plain(after.frames)) by {
        reveal(frames_plain);
        assert forall|k: int, name: u32|
            0 < k < after.frames.len() && #[trigger] after.frames[k].contains_key(
                name,
            ) implies after.frames[k][name].kind != PinpType::Str by {
            if env.frames[k].contains_key(name) {
                assert(env.frames[k][name].kind != PinpType::Str);
            }
        }
    }
}

/// A name given a string that is in hand.
proof fn lemma_string_owned(env: Env, place: Place, string: int, hand: Set<int>)
    requires
        sound(env, hand),
        hand.contains(string),
        name_written(env, place, PinpType::Str, string) is Some,
    ensures
        follows(env, name_written(env, place, PinpType::Str, string)->0, hand.remove(string)),
{
    let sym = symbol_of(place).0;
    let base = outermost(env.frames);
    let old = name_replaced(env, place)->0;
    let top = env.frames.len() as int;
    let k = frame_of(env.frames, top, sym);
    lemma_frames_alike(env.frames, env.frames, top, sym);
    let local = place is Local && k >= 0;
    if local {
        reveal(frames_plain);
        assert(env.frames[k].contains_key(sym));
        assert(k == 0);
    }
    assert(has(env.globals, base, local, sym, old.value));
    lemma_taken_over(
        env.globals,
        base,
        env.strings,
        local,
        sym,
        old.value,
        string,
        hand,
    );
    let held = Held { kind: PinpType::Str, value: string };
    let given = Env { strings: string_released(env.strings, old.value)->0, ..env };
    let after = name_written(env, place, PinpType::Str, string)->0;
    assert(after == if local {
        Env { frames: env.frames.update(0, env.frames[0].insert(sym, held)), ..given }
    } else {
        Env { globals: env.globals.insert(sym, held), ..given }
    });
    assert(frames_plain(after.frames)) by {
        reveal(frames_plain);
        assert forall|j: int, name: u32|
            0 < j < after.frames.len() && #[trigger] after.frames[j].contains_key(
                name,
            ) implies after.frames[j][name].kind != PinpType::Str by {
            assert(env.frames[j].contains_key(name));
        }
    }
}

// ---------------------------------------------------------------------------
// Several strings in hand
// ---------------------------------------------------------------------------

/// A part that is to be released.
pub open spec fn hits(pieces: Seq<Piece>, j: int, string: int) -> bool {
    0 <= j < pieces.len() && pieces[j].owned && pieces[j].string == string
}

/// The parts from the one at `from` on in hand too.
pub open spec fn in_hand(hand: Set<int>, pieces: Seq<Piece>, from: int) -> Set<int> {
    Set::new(
        |h: int| hand.contains(h) || exists|j: int| from <= j && #[trigger] hits(pieces, j, h),
    )
}

/// The parts that are to be released are apart from each other and from what is in hand.
pub open spec fn apart(hand: Set<int>, pieces: Seq<Piece>) -> bool {
    &&& forall|j: int, h: int| #[trigger] hits(pieces, j, h) ==> !hand.contains(h)
    &&& forall|i: int, j: int, h: int| #[trigger]
        hits(pieces, i, h) && #[trigger] hits(pieces, j, h) ==> i == j
}

proof fn lemma_none_in_hand(hand: Set<int>, pieces: Seq<Piece>, from: int)
    requires
        from >= pieces.len(),
    ensures
        in_hand(hand, pieces, from) == hand,
        pieces.len() == 0 ==> apart(hand, pieces),
{
    assert(in_hand(hand, pieces, from) =~= hand);
}

proof fn lemma_more_in_hand(hand: Set<int>, pieces: Seq<Piece>, piece: Piece)
    requires
        apart(hand, pieces),
        piece.owned ==> !in_hand(hand, pieces, 0).contains(piece.string),
    ensures
        apart(hand, pieces.push(piece)),
        in_hand(hand, pieces.push(piece), 0) == if piece.owned {
            in_hand(hand, pieces, 0).insert(piece.string)
        } else {
            in_hand(hand, pieces, 0)
        },
{
    let more = pieces.push(piece);
    let n = pieces.len() as int;
    assert forall|j: int, h: int| #[trigger] hits(more, j, h) implies if j < n {
        hits(pieces, j, h)
    } else {
        j == n && piece.owned && h == piece.string
    } by {}
    assert forall|j: int, h: int| #[trigger] hits(pieces, j, h) implies hits(more, j, h) by {}
    let now = if piece.owned {
        in_hand(hand, pieces, 0).insert(piece.string)
    } else {
        in_hand(hand, pieces, 0)
    };
    assert forall|h: int| in_hand(hand, more, 0).contains(h) == now.contains(h) by {
        if in_hand(hand, more, 0).contains(h) && !hand.contains(h) {
            let j = choose|j: int| 0 <= j && #[trigger] hits(more, j, h);
            assert(hits(more, j, h));
            if j < n {
                assert(hits(pieces, j, h));
            }
        }
        if now.contains(h) && !hand.contains(h) {
            if in_hand(hand, pieces, 0).contains(h) {
                let j = choose|j: int| 0 <= j && #[trigger] hits(pieces, j, h);
                assert(hits(more, j, h));
            } else {
                assert(hits(more, n, h));
            }
        }
    }
    assert(in_hand(hand, more, 0) =~= now);
    assert forall|j: int, h: int| #[trigger] hits(more, j, h) implies !hand.contains(h) by {
        if j < n {
            assert(hits(pieces, j, h));
        }
    }
    assert forall|i: int, j: int, h: int| #[trigger] hits(more, i, h) && #[trigger] hits(
        more,
        j,
        h,
    ) implies i == j by {
        if i < n {
            assert(hits(pieces, i, h));
        }
        if j < n {
            assert(hits(pieces, j, h));
        }
        if i < n && j >= n {
            assert(in_hand(hand, pieces, 0).contains(h));
        }
        if j < n && i >= n {
            assert(in_hand(hand, pieces, 0).contains(h));
        }
    }
}

proof fn lemma_fewer_in_hand(hand: Set<int>, pieces: Seq<Piece>, from: int)
    requires
        apart(hand, pieces),
        0 <= from < pieces.len(),
    ensures
        pieces[from].owned ==> in_hand(hand, pieces, from).contains(pieces[from].string),
        in_hand(hand, pieces, from + 1) == if pieces[from].owned {
            in_hand(hand, pieces, from).remove(pieces[from].string)
        } else {
            in_hand(hand, pieces, from)
        },
{
    let string = pieces[from].string;
    if pieces[from].owned {
        assert(hits(pieces, from, string));
    }
    let now = if pieces[from].owned {
        in_hand(hand, pieces, from).remove(string)
    } else {
        in_hand(hand, pieces, from)
    };
    assert forall|h: int| in_hand(hand, pieces, from + 1).contains(h) == now.contains(h) by {
        if in_hand(hand, pieces, from + 1).contains(h) {
            if !hand.contains(h) {
                let j = choose|j: int| from + 1 <= j && #[trigger] hits(pieces, j, h);
                assert(hits(pieces, j, h));
            }
        }
        if now.contains(h) && !hand.contains(h) {
            let j = choose|j: int| from <= j && #[trigger] hits(pieces, j, h);
            assert(hits(pieces, j, h));
        }
    }
    assert(in_hand(hand, pieces, from + 1) =~= now);
}

proof fn lemma_pieces_released_owned(env: Env, pieces: Seq<Piece>, from: int, hand: Set<int>)
    requires
        0 <= from,
        apart(hand, pieces),
        sound(env, in_hand(hand, pieces, from)),
    ensures
        pieces_released(env, pieces, from) is Some,
        sound(pieces_released(env, pieces, from)->0, hand),
        pieces_released(env, pieces, from)->0.frames == env.frames,
    decreases pieces.len() - from,
{
    if from < pieces.len() {
        lemma_fewer_in_hand(hand, pieces, from);
        if pieces[from].owned {
            lemma_released_owned(env, pieces[from].string, in_hand(hand, pieces, from));
            let after = released(env, pieces[from].string)->0;
            lemma_pieces_released_owned(after, pieces, from + 1, hand);
        } else {
            lemma_pieces_released_owned(env, pieces, from + 1, hand);
        }
    } else {
        lemma_none_in_hand(hand, pieces, from);
    }
}

proof fn lemma_joined_owned(env: Env, pieces: Seq<Piece>, hand: Set<int>)
    requires
        apart(hand, pieces),
        sound(env, in_hand(hand, pieces, 0)),
        joined(env, pieces) is Some,
    ensures
        ({
            let (last, string) = joined(env, pieces)->0;
            &&& sound(last, hand.insert(string))
            &&& last.frames == env.frames
            &&& !hand.contains(string)
        }),
{
    let text = pieces_text(env.strings, pieces, pieces.len() as int);
    let (mid, string) = made(env, text)->0;
    let all = in_hand(hand, pieces, 0);
    lemma_made_owned(env, text, all);
    let now = hand.insert(string);
    assert(in_hand(now, pieces, 0) =~= all.insert(string));
    assert(!hand.contains(string)) by {
        if hand.contains(string) {
            assert(all.contains(string));
        }
    }
    assert forall|j: int, h: int| #[trigger] hits(pieces, j, h) implies !now.contains(h) by {
        assert(all.contains(h));
    }
    assert(apart(now, pieces));
    lemma_pieces_released_owned(mid, pieces, 0, now);
}

proof fn lemma_rendered_owned(env: Env, kind: PinpType, x: int, hand: Set<int>)
    requires
        sound(env, hand),
        kind != PinpType::Str,
        rendered(env, kind, x) is Some,
    ensures
        ({
            let (after, string) = rendered(env, kind, x)->0;
            &&& sound(after, hand.insert(string))
            &&& !hand.contains(string)
        }),
{
    if kind == PinpType::Int {
        lemma_made_owned(env, Some(decimal_bytes(x)), hand);
    } else if kind == PinpType::Float {
        lemma_made_owned(env, Some((env.floats.digits)(x)), hand);
    } else {
        lemma_made_owned(
            env,
            Some(
                content_of(
                    if x != 0 {
                        "true"@
                    } else {
                        "false"@
                    },
                ),
            ),
            hand,
        );
    }
}

proof fn lemma_segments_owned(
    p: Program,
    env: Env,
    segments: Seq<FStrSegment>,
    done: Seq<Piece>,
    hand: Set<int>,
)
    requires
        apart(hand, done),
        sound(env, in_hand(hand, done, 0)),
        segments_meant(p, env, segments, done) is Some,
    ensures
        ({
            let (last, all) = segments_meant(p, env, segments, done)->0;
            &&& apart(hand, all)
            &&& sound(last, in_hand(hand, all, 0))
            &&& last.frames == env.frames
        }),
    decreases segments.len() - done.len(),
{
    if done.len() < segments.len() {
        let now = in_hand(hand, done, 0);
        match segments[done.len() as int] {
            FStrSegment::Literal(str_id) => {
                let text = Some(content_of(p.ast.strings[str_id.0 as int]));
                let (after, string) = made(env, text)->0;
                let piece = Piece { string, owned: true };
                lemma_made_owned(env, text, now);
                lemma_more_in_hand(hand, done, piece);
                lemma_segments_owned(p, after, segments, done.push(piece), hand);
            },
            FStrSegment::Interp(place) => {
                let held = name_held(env, symbol_of(place), place is Global)->0;
                let (after, string) = rendered(env, held.kind, held.value)->0;
                let piece = Piece { string, owned: held.kind != PinpType::Str };
                if held.kind != PinpType::Str {
                    lemma_rendered_owned(env, held.kind, held.value, now);
                }
                lemma_more_in_hand(hand, done, piece);
                lemma_segments_owned(p, after, segments, done.push(piece), hand);
            },
        }
    }
}

proof fn lemma_fstring_owned(p: Program, env: Env, segments: Seq<FStrSegment>, hand: Set<int>)
    requires
        sound(env, hand),
        fstring_meant(p, env, segments) is Some,
    ensures
        ({
            let (last, string) = fstring_meant(p, env, segments)->0;
            &&& sound(last, hand.insert(string))
            &&& last.frames == env.frames
            &&& !hand.contains(string)
        }),
{
    if segments.len() == 0 {
        lemma_made_owned(env, Some(content_of(""@)), hand);
    } else if segments.len() == 1 && segments[0] is Literal {
        let text = p.ast.strings[segments[0]->Literal_0.0 as int];
        lemma_made_owned(env, Some(content_of(text)), hand);
    } else {
        lemma_none_in_hand(hand, Seq::empty(), 0);
        lemma_segments_owned(p, env, segments, Seq::empty(), hand);
        let (after, pieces) = segments_meant(p, env, segments, Seq::empty())->0;
        lemma_joined_owned(after, pieces, hand);
    }
}

// ---------------------------------------------------------------------------
// Expressions
// ---------------------------------------------------------------------------

/// The strings among the values of an assignment or a call.
pub open spec fn taken(p: Program, values: Seq<ExprId>, numbers: Seq<int>) -> Seq<Piece> {
    Seq::new(
        numbers.len(),
        |k: int| Piece { string: numbers[k], owned: type_of(p, values[k]) == PinpType::Str },
    )
}

/// Where no value is a string, none is in hand.
proof fn lemma_no_piece(hand: Set<int>, pieces: Seq<Piece>, from: int)
    requires
        forall|k: int| 0 <= k < pieces.len() ==> !(#[trigger] pieces[k]).owned,
    ensures
        in_hand(hand, pieces, from) == hand,
        apart(hand, pieces),
{
    assert forall|j: int, h: int| !(#[trigger] hits(pieces, j, h)) by {}
    assert(in_hand(hand, pieces, from) =~= hand);
}

/// Behind an expression there are the strings that the globals have, those that were in hand before,
/// and the expression's own where it is no name's: what is made on the way is released.
pub proof fn expressions_release_what_they_make(
    p: Program,
    env: Env,
    expr_id: ExprId,
    limit: int,
    fuel: nat,
    hand: Set<int>,
)
    requires
        counted_program(p),
        counted(p, expr_id, limit),
        sound(env, hand),
        meant(p, env, expr_id, limit, fuel) is Some,
    ensures
        comes_to(
            p,
            expr_id,
            env,
            meant(p, env, expr_id, limit, fuel)->0.env,
            meant(p, env, expr_id, limit, fuel)->0.number,
            hand,
        ),
    decreases fuel, limit, 0int, p, 0int,
{
    let id = expr_id.0 as int;
    let t = type_of(p, expr_id);
    match node_at(p, expr_id) {
        NodeView::Str(str_id) => {
            lemma_made_owned(env, Some(content_of(p.ast.strings[str_id.0 as int])), hand);
        },
        NodeView::FStr(segments) => {
            lemma_fstring_owned(p, env, segments, hand);
        },
        NodeView::Unary(_, a) => {
            lemma_value_owned(p, env, a, id, fuel, hand);
        },
        NodeView::Bin(operator, a, b) => {
            if t == PinpType::Str {
                let parts = str_parts(p, a, id).push(b);
                lemma_none_in_hand(hand, Seq::empty(), 0);
                lemma_parts_owned(p, env, parts, Seq::empty(), id, fuel, hand);
                let (after, pieces) = pieces_meant(p, env, parts, Seq::empty(), id, fuel)->0;
                lemma_joined_owned(after, pieces, hand);
            } else if compares(operator) && type_of(p, a) == PinpType::Str {
                lemma_comparison_owned(p, env, operator, a, b, id, fuel, hand);
            } else if floating(operator, t, type_of(p, a), type_of(p, b)) {
                let (after, x) = number_meant(p, env, a, id, fuel)->0;
                assert(counted_number(p, a, id) && counted_number(p, b, id));
                lemma_value_owned(p, env, a, id, fuel, hand);
                lemma_value_owned(p, after, b, id, fuel, hand);
            } else {
                let (after, x) = number_meant(p, env, a, id, fuel)->0;
                assert(counted_value(p, a, id) && counted_value(p, b, id));
                lemma_value_owned(p, env, a, id, fuel, hand);
                if !settles(operator, x) {
                    lemma_value_owned(p, after, b, id, fuel, hand);
                }
            }
        },
        NodeView::Membership(a, range) => {
            let (after, x) = number_meant(p, env, a, id, fuel)->0;
            lemma_value_owned(p, env, a, id, fuel, hand);
            lemma_range_owned(p, after, range, id, fuel, hand);
        },
        NodeView::Call(callee, args) => {
            lemma_call_owned(p, env, expr_id, callee, args, id, fuel, hand);
        },
        NodeView::If(arms, else_block) => {
            lemma_arms_owned(p, env, t, arms, 0, else_block, id, fuel, hand);
        },
        _ => {},
    }
}

/// The same of a value.
proof fn lemma_value_owned(
    p: Program,
    env: Env,
    expr_id: ExprId,
    limit: int,
    fuel: nat,
    hand: Set<int>,
)
    requires
        counted_program(p),
        counted(p, expr_id, limit),
        sound(env, hand),
        number_meant(p, env, expr_id, limit, fuel) is Some,
    ensures
        ({
            let (after, x) = number_meant(p, env, expr_id, limit, fuel)->0;
            comes_to(p, expr_id, env, after, Some(x), hand)
        }),
    decreases fuel, limit, 1int, p, 0int,
{
    expressions_release_what_they_make(p, env, expr_id, limit, fuel, hand);
}

proof fn lemma_parts_owned(
    p: Program,
    env: Env,
    parts: Seq<ExprId>,
    done: Seq<Piece>,
    limit: int,
    fuel: nat,
    hand: Set<int>,
)
    requires
        counted_program(p),
        counted_parts(p, parts, limit),
        apart(hand, done),
        sound(env, in_hand(hand, done, 0)),
        pieces_meant(p, env, parts, done, limit, fuel) is Some,
    ensures
        ({
            let (last, all) = pieces_meant(p, env, parts, done, limit, fuel)->0;
            &&& apart(hand, all)
            &&& follows(env, last, in_hand(hand, all, 0))
        }),
    decreases fuel, limit, 3int, p, parts.len() - done.len(),
{
    if done.len() < parts.len() {
        let part = parts[done.len() as int];
        assert(counted_part(p, part, limit));
        let kind = type_of(p, part);
        let now = in_hand(hand, done, 0);
        let (after, x) = number_meant(p, env, part, limit, fuel)->0;
        let (last, string) = rendered(after, kind, x)->0;
        let piece = Piece { string, owned: kind != PinpType::Str || owns_str_result(p, part) };
        lemma_value_owned(p, env, part, limit, fuel, now);
        if kind != PinpType::Str {
            lemma_rendered_owned(after, kind, x, now);
        }
        lemma_more_in_hand(hand, done, piece);
        lemma_parts_owned(p, last, parts, done.push(piece), limit, fuel, hand);
    }
}

proof fn lemma_comparison_owned(
    p: Program,
    env: Env,
    operator: BinOp,
    a: ExprId,
    b: ExprId,
    limit: int,
    fuel: nat,
    hand: Set<int>,
)
    requires
        counted_program(p),
        counted_string(p, a, limit),
        counted_string(p, b, limit),
        sound(env, hand),
        number_meant(p, env, a, limit, fuel) matches Some((after, x)) && number_meant(
            p,
            after,
            b,
            limit,
            fuel,
        ) matches Some((last, y)) && comparison(
            last,
            operator,
            Piece { string: x, owned: owns_str_result(p, a) },
            Piece { string: y, owned: owns_str_result(p, b) },
        ) is Some,
    ensures
        ({
            let (after, x) = number_meant(p, env, a, limit, fuel)->0;
            let (last, y) = number_meant(p, after, b, limit, fuel)->0;
            follows(
                env,
                comparison(
                    last,
                    operator,
                    Piece { string: x, owned: owns_str_result(p, a) },
                    Piece { string: y, owned: owns_str_result(p, b) },
                )->0.env,
                hand,
            )
        }),
    decreases fuel, limit, 4int, p, 0int,
{
    let (after, x) = number_meant(p, env, a, limit, fuel)->0;
    let (last, y) = number_meant(p, after, b, limit, fuel)->0;
    let one = Piece { string: x, owned: owns_str_result(p, a) };
    let two = Piece { string: y, owned: owns_str_result(p, b) };
    let none = Seq::<Piece>::empty();
    lemma_none_in_hand(hand, none, 0);
    lemma_value_owned(p, env, a, limit, fuel, hand);
    lemma_more_in_hand(hand, none, one);
    let first = none.push(one);
    lemma_value_owned(p, after, b, limit, fuel, in_hand(hand, first, 0));
    lemma_more_in_hand(hand, first, two);
    assert(first.push(two) =~= seq![one, two]);
    lemma_pieces_released_owned(last, seq![one, two], 0, hand);
}

proof fn lemma_range_owned(
    p: Program,
    env: Env,
    range: ExprId,
    limit: int,
    fuel: nat,
    hand: Set<int>,
)
    requires
        counted_program(p),
        counted_range(p, range, limit),
        sound(env, hand),
        range_meant(p, env, range, limit, fuel) is Some,
    ensures
        ({
            let (after, bounds) = range_meant(p, env, range, limit, fuel)->0;
            follows(env, after, hand)
        }),
    decreases fuel, limit, 0int, p, 0int,
{
    let id = range.0 as int;
    if let NodeView::Range(start, stop, step, kind) = node_at(p, range) {
        let (e1, first) = number_meant(p, env, start, id, fuel)->0;
        let (e2, last) = number_meant(p, e1, stop, id, fuel)->0;
        lemma_value_owned(p, env, start, id, fuel, hand);
        lemma_value_owned(p, e1, stop, id, fuel, hand);
        if let Some(by) = step {
            lemma_value_owned(p, e2, by, id, fuel, hand);
        }
    }
}

proof fn lemma_values_owned(
    p: Program,
    env: Env,
    values: Seq<ExprId>,
    done: Seq<int>,
    limit: int,
    fuel: nat,
    hand: Set<int>,
)
    requires
        counted_program(p),
        counted_parts(p, values, limit),
        done.len() <= values.len(),
        apart(hand, taken(p, values, done)),
        sound(env, in_hand(hand, taken(p, values, done), 0)),
        numbers_meant(p, env, values, done, limit, fuel) is Some,
    ensures
        ({
            let (last, all) = numbers_meant(p, env, values, done, limit, fuel)->0;
            &&& all.len() == values.len()
            &&& apart(hand, taken(p, values, all))
            &&& follows(env, last, in_hand(hand, taken(p, values, all), 0))
        }),
    decreases fuel, limit, 3int, p, values.len() - done.len(),
{
    if done.len() < values.len() {
        let value = values[done.len() as int];
        assert(counted_part(p, value, limit));
        let text = type_of(p, value) == PinpType::Str;
        let pieces = taken(p, values, done);
        let now = in_hand(hand, pieces, 0);
        let (after, x) = number_meant(p, env, value, limit, fuel)->0;
        let mine = !text || owns_str_result(p, value);
        let (last, y) = own(after, x, mine)->0;
        lemma_value_owned(p, env, value, limit, fuel, now);
        if !mine {
            lemma_made_owned(after, text_of(after.strings, x), now);
        }
        let piece = Piece { string: y, owned: text };
        lemma_more_in_hand(hand, pieces, piece);
        assert(taken(p, values, done.push(y)) =~= pieces.push(piece));
        lemma_values_owned(p, last, values, done.push(y), limit, fuel, hand);
    }
}

proof fn lemma_call_owned(
    p: Program,
    env: Env,
    expr_id: ExprId,
    callee: SymId,
    args: Seq<ExprId>,
    limit: int,
    fuel: nat,
    hand: Set<int>,
)
    requires
        counted_program(p),
        counted(p, expr_id, limit + 1),
        expr_id.0 == limit,
        node_at(p, expr_id) == NodeView::Call(callee, args),
        sound(env, hand),
        meant(p, env, expr_id, limit + 1, fuel) is Some,
    ensures
        comes_to(
            p,
            expr_id,
            env,
            meant(p, env, expr_id, limit + 1, fuel)->0.env,
            meant(p, env, expr_id, limit + 1, fuel)->0.number,
            hand,
        ),
    decreases fuel, limit, 13int, p, 0int,
{
    let name = p.ast.names[callee.0 as int];
    assert("identity"@ != "str"@ && "identity"@ != "meminfo"@ && "str"@ != "meminfo"@) by {
        reveal_strlit("identity");
        reveal_strlit("str");
        reveal_strlit("meminfo");
        assert("identity"@.len() == 8 && "str"@.len() == 3 && "meminfo"@.len() == 7);
    }
    if name == "str"@ && args.len() == 1 {
        let arg = args[0];
        let (after, x) = number_meant(p, env, arg, limit, fuel)->0;
        assert(counted_part(p, arg, limit));
        lemma_value_owned(p, env, arg, limit, fuel, hand);
        if type_of(p, arg) != PinpType::Str {
            lemma_rendered_owned(after, type_of(p, arg), x, hand);
        } else if !owns_str_result(p, arg) {
            lemma_made_owned(after, text_of(after.strings, x), hand);
        }
    } else if name == "meminfo"@ && args.len() == 0 {
    } else {
        let none = taken(p, args, Seq::empty());
        let (after, numbers) = numbers_meant(p, env, args, Seq::empty(), limit, fuel)->0;
        let func = function_from(p, 0, callee.0)->0;
        lemma_none_in_hand(hand, none, 0);
        lemma_values_owned(p, env, args, Seq::empty(), limit, fuel, hand);
        lemma_function_found(p, 0, callee.0);
        let given = fitted(p, after.floats, args, func.params, numbers);
        lemma_fitted_owned(p, after.floats, args, func.params, numbers, hand);
        lemma_run_owned(p, after, func, args, given, (fuel - 1) as nat, hand);
    }
}

/// On their way to the parameters strings stay what they are.
proof fn lemma_fitted_owned(
    p: Program,
    floats: Floats,
    args: Seq<ExprId>,
    params: Seq<Param>,
    numbers: Seq<int>,
    hand: Set<int>,
)
    requires
        apart(hand, taken(p, args, numbers)),
    ensures
        ({
            let given = fitted(p, floats, args, params, numbers);
            &&& apart(hand, taken(p, args, given))
            &&& in_hand(hand, taken(p, args, given), 0) == in_hand(
                hand,
                taken(p, args, numbers),
                0,
            )
        }),
{
    let before = taken(p, args, numbers);
    let after = taken(p, args, fitted(p, floats, args, params, numbers));
    assert forall|j: int, h: int| #[trigger] hits(after, j, h) == hits(before, j, h) by {}
    assert forall|h: int|
        in_hand(hand, after, 0).contains(h) == in_hand(hand, before, 0).contains(h) by {
        if exists|j: int| 0 <= j && #[trigger] hits(after, j, h) {
            let j = choose|j: int| 0 <= j && #[trigger] hits(after, j, h);
            assert(hits(before, j, h));
        }
        if exists|j: int| 0 <= j && #[trigger] hits(before, j, h) {
            let j = choose|j: int| 0 <= j && #[trigger] hits(before, j, h);
            assert(hits(after, j, h));
        }
    }
    assert(in_hand(hand, after, 0) =~= in_hand(hand, before, 0));
}

/// The strings that names have.
pub open spec fn strings_of(names: Map<u32, Held>) -> Set<int> {
    Set::new(|h: int| h != 0 && exists|sym: u32| named(names, sym, h))
}

/// The parameters hold their numbers.
proof fn lemma_params_hold(params: Seq<Param>, numbers: Seq<int>, count: int)
    requires
        0 <= count <= params.len(),
        params.len() == numbers.len(),
        forall|j: int, k: int|
            0 <= j < k < params.len() ==> (#[trigger] params[j]).name.0 != (
            #[trigger] params[k]).name.0,
    ensures
        forall|k: int|
            0 <= k < count ==> params_bound(params, numbers, count).contains_key(
                (#[trigger] params[k]).name.0,
            ) && params_bound(params, numbers, count)[params[k].name.0] == (Held {
                kind: params[k].param_type,
                value: numbers[k],
            }),
        forall|sym: u32| #[trigger]
            params_bound(params, numbers, count).contains_key(sym) ==> exists|k: int|
                0 <= k < count && (#[trigger] params[k]).name.0 == sym,
    decreases count,
{
    if count > 0 {
        lemma_params_hold(params, numbers, count - 1);
        let less = params_bound(params, numbers, count - 1);
        let more = params_bound(params, numbers, count);
        assert forall|sym: u32| #[trigger] more.contains_key(sym) implies exists|k: int|
            0 <= k < count && (#[trigger] params[k]).name.0 == sym by {
            if sym == params[count - 1].name.0 {
            } else {
                assert(less.contains_key(sym));
            }
        }
    }
}

/// A function takes the strings it is handed over; while it runs, the caller's are in hand.
proof fn lemma_handed_over(
    p: Program,
    globals: Map<u32, Held>,
    base: Map<u32, Held>,
    strings: Strings,
    params: Seq<Param>,
    args: Seq<ExprId>,
    numbers: Seq<int>,
    hand: Set<int>,
)
    requires
        params.len() == numbers.len() == args.len(),
        handed(p, args, params),
        forall|j: int, k: int|
            0 <= j < k < params.len() ==> (#[trigger] params[j]).name.0 != (
            #[trigger] params[k]).name.0,
        apart(hand, taken(p, args, numbers)),
        owned(globals, base, strings, in_hand(hand, taken(p, args, numbers), 0)),
    ensures
        owned(
            globals,
            params_bound(params, numbers, params.len() as int),
            strings,
            hand.union(strings_of(base)),
        ),
{
    reveal(owned);
    let n = params.len() as int;
    let bound = params_bound(params, numbers, n);
    let pieces = taken(p, args, numbers);
    let all = in_hand(hand, pieces, 0);
    let now = hand.union(strings_of(base));
    lemma_params_hold(params, numbers, n);
    assert forall|sym: u32, h: int| #[trigger] named(bound, sym, h) implies exists|k: int|
        #[trigger] hits(pieces, k, h) && params[k].name.0 == sym by {
        let k = choose|k: int| 0 <= k < n && (#[trigger] params[k]).name.0 == sym;
        assert(type_of(p, args[k]) == PinpType::Str);
        assert(hits(pieces, k, h));
    }
    assert forall|k: int, h: int| #[trigger] hits(pieces, k, h) implies named(
        bound,
        params[k].name.0,
        h,
    ) by {
        assert(type_of(p, args[k]) == PinpType::Str);
    }
    assert forall|local: bool, sym: u32, h: int| #[trigger]
        has(globals, bound, local, sym, h) implies h == 0 || strings.kept.contains_key(h)
        && !now.contains(h) by {
        if local {
            let k = choose|k: int| #[trigger] hits(pieces, k, h) && params[k].name.0 == sym;
            assert(hits(pieces, k, h));
            assert(all.contains(h));
            if strings_of(base).contains(h) {
                let name = choose|name: u32| named(base, name, h);
                assert(has(globals, base, true, name, h));
            }
        } else {
            assert(has(globals, base, false, sym, h));
            if hand.contains(h) {
                assert(all.contains(h));
            }
            if strings_of(base).contains(h) {
                let name = choose|name: u32| named(base, name, h);
                assert(has(globals, base, true, name, h));
            }
        }
    }
    assert forall|local: bool, sym: u32, beside: bool, other: u32, h: int|
        h != 0 && #[trigger] has(globals, bound, local, sym, h) && #[trigger] has(
            globals,
            bound,
            beside,
            other,
            h,
        ) implies local == beside && sym == other by {
        if local {
            let k = choose|k: int| #[trigger] hits(pieces, k, h) && params[k].name.0 == sym;
            assert(hits(pieces, k, h));
            assert(all.contains(h));
        } else {
            assert(has(globals, base, false, sym, h));
        }
        if beside {
            let k = choose|k: int| #[trigger] hits(pieces, k, h) && params[k].name.0 == other;
            assert(hits(pieces, k, h));
            assert(all.contains(h));
        } else {
            assert(has(globals, base, false, other, h));
        }
    }
    assert forall|h: int| #[trigger] now.contains(h) implies strings.kept.contains_key(h) by {
        if hand.contains(h) {
            assert(all.contains(h));
        } else {
            let name = choose|name: u32| named(base, name, h);
            assert(has(globals, base, true, name, h));
        }
    }
    assert forall|h: int| #[trigger] strings.kept.contains_key(h) implies now.contains(h)
        || exists|local: bool, sym: u32| has(globals, bound, local, sym, h) by {
        if all.contains(h) {
            if !hand.contains(h) {
                let k = choose|k: int| 0 <= k && #[trigger] hits(pieces, k, h);
                assert(hits(pieces, k, h));
                assert(has(globals, bound, true, params[k].name.0, h));
            }
        } else {
            let (local, sym) = choose|local: bool, sym: u32| has(globals, base, local, sym, h);
            assert(has(globals, base, local, sym, h));
            if local {
                assert(named(base, sym, h));
                assert(strings_of(base).contains(h));
            } else {
                assert(has(globals, bound, false, sym, h));
            }
        }
    }
}

/// Behind a function that has released its strings the caller has its own again.
proof fn lemma_handed_back(
    before: Map<u32, Held>,
    globals: Map<u32, Held>,
    base: Map<u32, Held>,
    params: Map<u32, Held>,
    old: Strings,
    strings: Strings,
    hand: Set<int>,
    more: Set<int>,
)
    requires
        owned(before, base, old, hand),
        owned(globals, params, strings, more.union(strings_of(base))),
        forall|sym: u32, h: int| #[trigger] named(params, sym, h) ==> h == 0,
        forall|h: int| #[trigger] more.contains(h) ==> !strings_of(base).contains(h),
    ensures
        owned(globals, base, strings, more),
{
    reveal(owned);
    let all = more.union(strings_of(base));
    assert forall|local: bool, sym: u32, h: int| #[trigger]
        has(globals, base, local, sym, h) implies h == 0 || strings.kept.contains_key(h)
        && !more.contains(h) by {
        if local {
            assert(named(base, sym, h));
            if h != 0 {
                assert(strings_of(base).contains(h));
                assert(all.contains(h));
            }
        } else {
            assert(has(globals, params, false, sym, h));
            if more.contains(h) {
                assert(all.contains(h));
            }
        }
    }
    assert forall|local: bool, sym: u32, beside: bool, other: u32, h: int|
        h != 0 && #[trigger] has(globals, base, local, sym, h) && #[trigger] has(
            globals,
            base,
            beside,
            other,
            h,
        ) implies local == beside && sym == other by {
        if local {
            assert(named(base, sym, h));
            assert(strings_of(base).contains(h));
            assert(all.contains(h));
            assert(has(before, base, true, sym, h));
        } else {
            assert(has(globals, params, false, sym, h));
        }
        if beside {
            assert(named(base, other, h));
            assert(strings_of(base).contains(h));
            assert(all.contains(h));
            assert(has(before, base, true, other, h));
        } else {
            assert(has(globals, params, false, other, h));
        }
    }
    assert forall|h: int| #[trigger] more.contains(h) implies strings.kept.contains_key(h) by {
        assert(all.contains(h));
    }
    assert forall|h: int| #[trigger] strings.kept.contains_key(h) implies more.contains(h)
        || exists|local: bool, sym: u32| has(globals, base, local, sym, h) by {
        if all.contains(h) {
            if !more.contains(h) {
                let name = choose|name: u32| named(base, name, h);
                assert(has(globals, base, true, name, h));
            }
        } else {
            let (local, sym) = choose|local: bool, sym: u32| has(globals, params, local, sym, h);
            assert(has(globals, params, local, sym, h));
            if local {
                assert(named(params, sym, h));
            } else {
                assert(has(globals, base, false, sym, h));
            }
        }
    }
}

/// The strings of the innermost names released: those that were in hand are left.
proof fn lemma_scope_owned(env: Env, symbols: int, from: int, hand: Set<int>)
    requires
        0 <= from,
        symbols <= u32::MAX,
        env.frames.len() == 1,
        sound(env, hand),
    ensures
        scope_released(env, symbols, from) is Some,
        ({
            let last = scope_released(env, symbols, from)->0;
            &&& sound(last, hand)
            &&& last.globals == env.globals
            &&& last.frames.len() == 1
            &&& forall|sym: u32| #[trigger]
                last.frames[0].contains_key(sym) ==> env.frames[0].contains_key(sym)
            &&& forall|sym: u32, string: int| #[trigger]
                named(last.frames[0], sym, string) && from <= sym < symbols ==> string == 0
            &&& forall|sym: u32, string: int| #[trigger]
                named(last.frames[0], sym, string) && string != 0 ==> named(
                    env.frames[0],
                    sym,
                    string,
                )
        }),
    decreases symbols - from,
{
    if from < symbols {
        let sym = from as u32;
        if env.frames[0].contains_key(sym) && env.frames[0][sym].kind == PinpType::Str {
            let old = env.frames[0][sym].value;
            assert(has(env.globals, env.frames[0], true, sym, old));
            lemma_taken_over(
                env.globals,
                env.frames[0],
                env.strings,
                true,
                sym,
                old,
                0,
                hand,
            );
            assert(hand.remove(0) =~= hand) by {
                reveal(owned);
            }
            let emptied = Held { kind: PinpType::Str, value: 0 };
            let next = Env {
                frames: env.frames.update(0, env.frames[0].insert(sym, emptied)),
                strings: string_released(env.strings, old)->0,
                ..env
            };
            assert(frames_plain(next.frames)) by {
                reveal(frames_plain);
            }
            assert(next.frames[0] == env.frames[0].insert(sym, emptied));
            lemma_scope_owned(next, symbols, from + 1, hand);
            let last = scope_released(next, symbols, from + 1)->0;
            assert forall|name: u32, string: int| #[trigger]
                named(last.frames[0], name, string) && from <= name
                    < symbols implies string == 0 by {
                if name == sym && string != 0 {
                    assert(named(next.frames[0], sym, string));
                }
            }
            assert forall|name: u32, string: int| #[trigger]
                named(last.frames[0], name, string) && string != 0 implies named(
                env.frames[0],
                name,
                string,
            ) by {
                assert(named(next.frames[0], name, string));
            }
            assert forall|name: u32| #[trigger] last.frames[0].contains_key(
                name,
            ) implies env.frames[0].contains_key(name) by {
                assert(next.frames[0].contains_key(name));
            }
        } else {
            lemma_scope_owned(env, symbols, from + 1, hand);
            let last = scope_released(env, symbols, from + 1)->0;
            assert forall|name: u32, string: int| #[trigger]
                named(last.frames[0], name, string) && from <= name
                    < symbols implies string == 0 by {
                if name == sym && string != 0 {
                    assert(named(env.frames[0], name, string));
                }
            }
        }
    }
}

/// A function releases what it makes and what it was handed.
proof fn lemma_run_owned(
    p: Program,
    env: Env,
    func: FuncDefView,
    args: Seq<ExprId>,
    numbers: Seq<int>,
    fuel: nat,
    hand: Set<int>,
)
    requires
        counted_program(p),
        counted_function(p, func),
        numbers.len() == func.params.len() == args.len(),
        handed(p, args, func.params),
        apart(hand, taken(p, args, numbers)),
        sound(env, in_hand(hand, taken(p, args, numbers), 0)),
        call_meant(p, env, func, numbers, fuel) is Some,
    ensures
        ({
            let outcome = call_meant(p, env, func, numbers, fuel)->0;
            if func.return_type == PinpType::Str {
                &&& outcome.number is Some
                &&& !hand.contains(outcome.number->0)
                &&& follows(env, outcome.env, hand.insert(outcome.number->0))
            } else {
                follows(env, outcome.env, hand)
            }
        }),
    decreases fuel, p.ast.nodes.len() as int, 12int, p, 0int,
{
    let limit = p.ast.nodes.len() as int;
    let symbols = p.ast.names.len() as int;
    let result = func.body.result->0;
    let bound = params_bound(func.params, numbers, func.params.len() as int);
    let start = Env {
        globals: env.globals,
        frames: seq![bound],
        inside: true,
        strings: env.strings,
        floats: env.floats,
    };
    let base = outermost(env.frames);
    let inside = hand.union(strings_of(base));
    lemma_handed_over(
        p,
        env.globals,
        base,
        env.strings,
        func.params,
        args,
        numbers,
        hand,
    );
    assert(frames_plain(start.frames)) by {
        reveal(frames_plain);
    }
    assert(sound(start, inside));
    lemma_stmts_owned(p, start, func.body, 0, limit, fuel, inside);
    let after = stmts_meant(p, start, func.body, 0, limit, fuel)->0;
    expressions_release_what_they_make(p, after, result, limit, fuel, inside);
    let outcome = meant(p, after, result, limit, fuel)->0;
    let ended = result_meant(p, func, result, outcome)->0;
    let text = func.return_type == PinpType::Str;
    if text && !owns_str_result(p, result) {
        lemma_made_owned(
            outcome.env,
            text_of(outcome.env.strings, outcome.number->0),
            inside,
        );
    }
    let more = if text {
        hand.insert(ended.number->0)
    } else {
        hand
    };
    if text {
        assert(inside.insert(ended.number->0) =~= more.union(strings_of(base)));
        assert(!inside.contains(ended.number->0));
    }
    assert(sound(ended.env, more.union(strings_of(base))));
    assert forall|sym: u32| #[trigger] texted(
        outermost(ended.env.frames),
        sym,
    ) implies sym < symbols by {
        assert(texted(outermost(after.frames), sym));
        assert(texted(outermost(start.frames), sym));
        lemma_params_hold(func.params, numbers, func.params.len() as int);
        let k = choose|k: int|
            0 <= k < func.params.len() && (#[trigger] func.params[k]).name.0 == sym;
        assert(func.params[k].name.0 == sym);
    }
    lemma_scope_owned(ended.env, symbols, 0, more.union(strings_of(base)));
    let left = scope_released(ended.env, symbols, 0)->0;
    assert forall|sym: u32, h: int| #[trigger] named(left.frames[0], sym, h) implies h == 0 by {
        if h != 0 {
            assert(named(ended.env.frames[0], sym, h));
            assert(outermost(ended.env.frames) == ended.env.frames[0]);
            assert(texted(outermost(ended.env.frames), sym));
            assert(sym < symbols);
        }
    }
    let all = in_hand(hand, taken(p, args, numbers), 0);
    assert forall|h: int| #[trigger] more.contains(h) implies !strings_of(base).contains(h) by {
        if hand.contains(h) && strings_of(base).contains(h) {
            reveal(owned);
            let name = choose|name: u32| named(base, name, h);
            assert(has(env.globals, base, true, name, h));
            assert(all.contains(h));
        }
    }
    lemma_handed_back(
        env.globals,
        left.globals,
        base,
        left.frames[0],
        env.strings,
        left.strings,
        all,
        more,
    );
}

proof fn lemma_arms_owned(
    p: Program,
    env: Env,
    t: PinpType,
    arms: Seq<IfArmView>,
    from: int,
    else_block: Option<BlockView>,
    limit: int,
    fuel: nat,
    hand: Set<int>,
)
    requires
        counted_program(p),
        counted_arms(p, t, arms, limit),
        else_block matches Some(block) ==> counted_branch(p, t, block, limit),
        plain(t) ==> else_block is Some,
        sound(env, hand),
        0 <= from,
        arms_meant(p, env, t, arms, from, else_block, limit, fuel) is Some,
    ensures
        branch_leaves(
            t,
            env,
            arms_meant(p, env, t, arms, from, else_block, limit, fuel)->0,
            hand,
        ),
    decreases fuel, limit, 11int, p, arms.len() - from,
{
    if from < arms.len() {
        let (after, x) = number_meant(p, env, arms[from].cond, limit, fuel)->0;
        assert(counted_value(p, arms[from].cond, limit) && counted_branch(
            p,
            t,
            arms[from].body,
            limit,
        ));
        lemma_value_owned(p, env, arms[from].cond, limit, fuel, hand);
        if x != 0 {
            lemma_block_owned(p, after, arms[from].body, limit, fuel, hand);
        } else {
            lemma_arms_owned(p, after, t, arms, from + 1, else_block, limit, fuel, hand);
        }
    } else if let Some(block) = else_block {
        lemma_block_owned(p, env, block, limit, fuel, hand);
    }
}

// ---------------------------------------------------------------------------
// Statements
// ---------------------------------------------------------------------------

/// What a branch comes to: a string that is new in hand, where its type is that of strings.
pub open spec fn branch_leaves(
    t: PinpType,
    env: Env,
    outcome: Outcome,
    hand: Set<int>,
) -> bool {
    if t == PinpType::Str {
        &&& outcome.number is Some
        &&& !hand.contains(outcome.number->0)
        &&& follows(env, outcome.env, hand.insert(outcome.number->0))
    } else {
        follows(env, outcome.env, hand)
    }
}

proof fn lemma_block_owned(
    p: Program,
    env: Env,
    block: BlockView,
    limit: int,
    fuel: nat,
    hand: Set<int>,
)
    requires
        counted_program(p),
        counted_stmts(p, block, limit),
        block.result matches Some(result) ==> counted(p, result, limit),
        sound(env, hand),
        block_meant(p, env, block, limit, fuel) is Some,
    ensures
        branch_leaves(
            block_result_type(p, block),
            env,
            block_meant(p, env, block, limit, fuel)->0,
            hand,
        ),
    decreases fuel, limit, 10int, block, block.stmts.len() + 2,
{
    reveal(frames_plain);
    let inner = opened(env);
    assert(frames_plain(inner.frames)) by {
        assert forall|k: int, sym: u32|
            0 < k < inner.frames.len() && #[trigger] inner.frames[k].contains_key(
                sym,
            ) implies inner.frames[k][sym].kind != PinpType::Str by {
            assert(env.frames[k].contains_key(sym));
        }
    }
    lemma_stmts_owned(p, inner, block, 0, limit, fuel, hand);
    let after = stmts_meant(p, inner, block, 0, limit, fuel)->0;
    let last = match block.result {
        Some(result) => {
            expressions_release_what_they_make(p, after, result, limit, fuel, hand);
            lemma_expr_meant(p, after, result, limit, fuel);
            let found = meant(p, after, result, limit, fuel)->0;
            if type_of(p, result) == PinpType::Str && !owns_str_result(p, result) {
                let x = found.number->0;
                lemma_made_owned(found.env, text_of(found.env.strings, x), hand);
            }
            kept_value(p, result, found)->0.env
        },
        None => after,
    };
    lemma_dropped_plain(last.frames);
    assert(outermost(last.frames.drop_last()) == outermost(last.frames));
    assert(outermost(inner.frames) == outermost(env.frames));
}

proof fn lemma_dropped_plain(frames: Seq<Map<u32, Held>>)
    requires
        frames_plain(frames),
    ensures
        frames.len() > 0 ==> frames_plain(frames.drop_last()),
{
    reveal(frames_plain);
    if frames.len() > 0 {
        let less = frames.drop_last();
        assert forall|k: int, sym: u32|
            0 < k < less.len() && #[trigger] less[k].contains_key(sym) implies less[k][sym].kind
            != PinpType::Str by {
            assert(frames[k].contains_key(sym));
        }
    }
}

proof fn lemma_stmts_owned(
    p: Program,
    env: Env,
    block: BlockView,
    from: int,
    limit: int,
    fuel: nat,
    hand: Set<int>,
)
    requires
        counted_program(p),
        counted_stmts(p, block, limit),
        0 <= from,
        sound(env, hand),
        stmts_meant(p, env, block, from, limit, fuel) is Some,
    ensures
        follows(env, stmts_meant(p, env, block, from, limit, fuel)->0, hand),
    decreases fuel, limit, 10int, block, block.stmts.len() - from,
{
    if from < block.stmts.len() {
        let stmt = block.stmts[from];
        assert(counted_stmt(p, stmt, limit));
        let outcome = stmt_meant(p, env, stmt, limit, fuel)->0;
        statements_release_what_they_make(p, env, stmt, limit, fuel, hand);
        lemma_discarded_owned(p, stmt, env, outcome, hand);
        let after = discarded(p, stmt, outcome)->0;
        lemma_stmts_owned(p, after, block, from + 1, limit, fuel, hand);
    }
}

/// What a statement comes to.
pub open spec fn leaves(
    p: Program,
    stmt: StmtView,
    env: Env,
    outcome: Outcome,
    hand: Set<int>,
) -> bool {
    match stmt {
        StmtView::Expr(expr_id) => comes_to(p, expr_id, env, outcome.env, outcome.number, hand),
        _ => follows(env, outcome.env, hand),
    }
}

proof fn lemma_discarded_owned(
    p: Program,
    stmt: StmtView,
    env: Env,
    outcome: Outcome,
    hand: Set<int>,
)
    requires
        leaves(p, stmt, env, outcome, hand),
    ensures
        discarded(p, stmt, outcome) is Some,
        follows(env, discarded(p, stmt, outcome)->0, hand),
{
    if let StmtView::Expr(expr_id) = stmt {
        if type_of(p, expr_id) == PinpType::Str && owns_str_result(p, expr_id) {
            let x = outcome.number->0;
            lemma_released_owned(outcome.env, x, hand.insert(x));
            assert(hand.insert(x).remove(x) =~= hand);
        }
    }
}

/// Behind a statement there are the strings that the globals have and those that were in hand
/// before, and behind an expression its own where it is no name's.
pub proof fn statements_release_what_they_make(
    p: Program,
    env: Env,
    stmt: StmtView,
    limit: int,
    fuel: nat,
    hand: Set<int>,
)
    requires
        counted_program(p),
        counted_stmt(p, stmt, limit),
        sound(env, hand),
        stmt_meant(p, env, stmt, limit, fuel) is Some,
    ensures
        leaves(p, stmt, env, stmt_meant(p, env, stmt, limit, fuel)->0, hand),
    decreases fuel, limit, 10int, stmt, 0int,
{
    match stmt {
        StmtView::Expr(expr_id) => {
            expressions_release_what_they_make(p, env, expr_id, limit, fuel, hand);
        },
        StmtView::Assign(groups, _, values) => {
            lemma_assign_owned(p, env, groups, values, limit, fuel, hand);
        },
        StmtView::While(cond, body) => {
            let (after, x) = number_meant(p, env, cond, limit, fuel)->0;
            lemma_value_owned(p, env, cond, limit, fuel, hand);
            if x != 0 {
                let ran = block_meant(p, after, body, limit, fuel)->0;
                lemma_block_owned(p, after, body, limit, fuel, hand);
                statements_release_what_they_make(
                    p,
                    ran.env,
                    stmt,
                    limit,
                    (fuel - 1) as nat,
                    hand,
                );
            }
        },
        StmtView::Loop(body, cond, until) => {
            let ran = block_meant(p, env, body, limit, fuel)->0;
            lemma_block_owned(p, env, body, limit, fuel, hand);
            let (after, x) = number_meant(p, ran.env, cond, limit, fuel)->0;
            lemma_value_owned(p, ran.env, cond, limit, fuel, hand);
            if (x != 0) != until {
                statements_release_what_they_make(p, after, stmt, limit, (fuel - 1) as nat, hand);
            }
        },
        StmtView::For(var, source, body) => {
            let (after, range) = range_meant(p, env, source, limit, fuel)->0;
            lemma_range_owned(p, env, source, limit, fuel, hand);
            lemma_rounds_owned(p, after, var, range.start, range, body, limit, fuel, hand);
        },
        _ => {},
    }
}

proof fn lemma_rounds_owned(
    p: Program,
    env: Env,
    var: SymId,
    current: int,
    range: Stretch,
    body: BlockView,
    limit: int,
    fuel: nat,
    hand: Set<int>,
)
    requires
        counted_program(p),
        counted_block(p, body, limit),
        sound(env, hand),
        rounds_meant(p, env, var, current, range, body, limit, fuel) is Some,
    ensures
        follows(env, rounds_meant(p, env, var, current, range, body, limit, fuel)->0, hand),
    decreases fuel, limit, 10int, body, body.stmts.len() + 4,
{
    if goes_on(current, range.stop, range.inclusive, range.step > 0) {
        let held = Held { kind: PinpType::Int, value: current };
        let around = Env { frames: env.frames.push(map![var.0 => held]), ..env };
        assert(frames_plain(around.frames)) by {
            reveal(frames_plain);
            assert forall|k: int, sym: u32|
                0 < k < around.frames.len() && #[trigger] around.frames[k].contains_key(
                    sym,
                ) implies around.frames[k][sym].kind != PinpType::Str by {
                if k < env.frames.len() {
                    assert(env.frames[k].contains_key(sym));
                }
            }
        }
        let ran = block_meant(p, around, body, limit, fuel)->0;
        lemma_block_owned(p, around, body, limit, fuel, hand);
        lemma_dropped_plain(ran.env.frames);
        lemma_rounds_owned(
            p,
            closed_again(ran.env),
            var,
            wrapped(ran.env.frames.last()[var.0].value + range.step),
            range,
            body,
            limit,
            (fuel - 1) as nat,
            hand,
        );
    }
}

/// The names of a group take the strings in hand over; those of a later group get copies.
proof fn lemma_group_owned(
    p: Program,
    env: Env,
    group: Seq<Place>,
    values: Seq<ExprId>,
    numbers: Seq<int>,
    first: bool,
    from: int,
    hand: Set<int>,
)
    requires
        0 <= from,
        numbers.len() == values.len(),
        forall|k: int|
            0 <= k < values.len() && type_of(p, #[trigger] values[k]) == PinpType::Str
                ==> group.len() == values.len(),
        apart(hand, taken(p, values, numbers)),
        first ==> sound(env, in_hand(hand, taken(p, values, numbers), from)),
        !first ==> sound(env, hand),
        group_written(p, env, group, values, numbers, first, from) is Some,
    ensures
        follows(env, group_written(p, env, group, values, numbers, first, from)->0, hand),
    decreases group.len() - from,
{
    let pieces = taken(p, values, numbers);
    if from < group.len() && from < numbers.len() {
        let kind = type_of(p, values[from]);
        let (after, x) = own(env, numbers[from], first || kind != PinpType::Str)->0;
        let last = name_written(after, group[from], kind, x)->0;
        lemma_fewer_in_hand(hand, pieces, from);
        if first {
            if kind == PinpType::Str {
                lemma_string_owned(after, group[from], x, in_hand(hand, pieces, from));
            } else {
                lemma_number_owned(after, group[from], kind, x, in_hand(hand, pieces, from));
            }
        } else if kind == PinpType::Str {
            lemma_made_owned(env, text_of(env.strings, numbers[from]), hand);
            lemma_string_owned(after, group[from], x, hand.insert(x));
            assert(hand.insert(x).remove(x) =~= hand);
        } else {
            lemma_number_owned(after, group[from], kind, x, hand);
        }
        lemma_group_owned(p, last, group, values, numbers, first, from + 1, hand);
    } else if first {
        if from >= pieces.len() {
            lemma_none_in_hand(hand, pieces, from);
        } else {
            assert forall|k: int| 0 <= k < pieces.len() implies !(#[trigger] pieces[k]).owned by {
                assert(type_of(p, values[k]) != PinpType::Str);
            }
            lemma_no_piece(hand, pieces, from);
        }
    }
}

proof fn lemma_groups_owned(
    p: Program,
    env: Env,
    groups: Seq<Seq<Place>>,
    values: Seq<ExprId>,
    numbers: Seq<int>,
    from: int,
    hand: Set<int>,
)
    requires
        0 <= from,
        numbers.len() == values.len(),
        evenly(p, groups, values),
        apart(hand, taken(p, values, numbers)),
        from == 0 ==> sound(env, in_hand(hand, taken(p, values, numbers), 0)),
        from > 0 ==> sound(env, hand),
        groups_written(p, env, groups, values, numbers, from) is Some,
    ensures
        follows(env, groups_written(p, env, groups, values, numbers, from)->0, hand),
    decreases groups.len() - from,
{
    let pieces = taken(p, values, numbers);
    if from < groups.len() {
        let group = groups[from];
        assert forall|k: int|
            0 <= k < values.len() && type_of(p, #[trigger] values[k])
                == PinpType::Str implies group.len() == values.len() by {
            assert(groups[from].len() == values.len());
        }
        lemma_group_owned(p, env, group, values, numbers, from == 0, 0, hand);
        let after = group_written(p, env, group, values, numbers, from == 0, 0)->0;
        lemma_groups_owned(p, after, groups, values, numbers, from + 1, hand);
    } else if from == 0 {
        assert forall|k: int| 0 <= k < pieces.len() implies !(#[trigger] pieces[k]).owned by {
            assert(type_of(p, values[k]) != PinpType::Str);
        }
        lemma_no_piece(hand, pieces, 0);
    }
}

proof fn lemma_assign_owned(
    p: Program,
    env: Env,
    groups: Seq<Seq<Place>>,
    values: Seq<ExprId>,
    limit: int,
    fuel: nat,
    hand: Set<int>,
)
    requires
        counted_program(p),
        counted_parts(p, values, limit),
        evenly(p, groups, values),
        sound(env, hand),
        numbers_meant(p, env, values, Seq::empty(), limit, fuel) matches Some((after, numbers))
            && groups_written(p, after, groups, values, numbers, 0) is Some,
    ensures
        ({
            let (after, numbers) = numbers_meant(p, env, values, Seq::empty(), limit, fuel)->0;
            follows(env, groups_written(p, after, groups, values, numbers, 0)->0, hand)
        }),
    decreases fuel, limit, 9int, p, 0int,
{
    let none = taken(p, values, Seq::empty());
    lemma_none_in_hand(hand, none, 0);
    lemma_values_owned(p, env, values, Seq::empty(), limit, fuel, hand);
    let (after, numbers) = numbers_meant(p, env, values, Seq::empty(), limit, fuel)->0;
    lemma_groups_owned(p, after, groups, values, numbers, 0, hand);
}

// ---------------------------------------------------------------------------
// Programs
// ---------------------------------------------------------------------------

/// The strings that are in hand behind the last item: its own, where it is no name's.
pub open spec fn last_in_hand(p: Program, outcome: Outcome) -> Set<int> {
    if outcome.number is Some && program_type(p) == PinpType::Str && program_owns_str(p) {
        set![outcome.number->0]
    } else {
        Set::empty()
    }
}

proof fn lemma_items_owned(p: Program, env: Env, from: int, fuel: nat)
    requires
        counted_program(p),
        0 <= from,
        from < p.ast.top_level.len() || p.ast.top_level.len() == 0 || p.ast.top_level.last() is Func,
        sound(env, Set::empty()),
        items_meant(p, env, from, fuel) is Some,
    ensures
        ({
            let outcome = items_meant(p, env, from, fuel)->0;
            follows(env, outcome.env, last_in_hand(p, outcome))
        }),
    decreases p.ast.top_level.len() - from,
{
    let none = Set::<int>::empty();
    if from < p.ast.top_level.len() {
        match p.ast.top_level[from] {
            TopLevelView::Func(_) => {
                lemma_items_owned(p, env, from + 1, fuel);
            },
            TopLevelView::Stmt(stmt) => {
                let limit = p.ast.nodes.len() as int;
                assert(counted_stmt(p, stmt, limit));
                let outcome = stmt_meant(p, env, stmt, limit, fuel)->0;
                statements_release_what_they_make(p, env, stmt, limit, fuel, none);
                assert(leaves(p, stmt, env, outcome, none));
                if from == p.ast.top_level.len() - 1 {
                    if let StmtView::Expr(expr_id) = stmt {
                        if type_of(p, expr_id) == PinpType::Str && owns_str_result(p, expr_id) {
                            let x = outcome.number->0;
                            assert(none.insert(x) =~= set![x]);
                        }
                    }
                } else {
                    lemma_discarded_owned(p, stmt, env, outcome, none);
                    let after = discarded(p, stmt, outcome)->0;
                    lemma_items_owned(p, after, from + 1, fuel);
                }
            },
        }
    }
}

/// The strings of the globals released: those that were in hand are left.
proof fn lemma_globals_owned(env: Env, symbols: int, from: int, hand: Set<int>)
    requires
        0 <= from,
        symbols <= u32::MAX,
        sound(env, hand),
    ensures
        globals_released(env, symbols, from) is Some,
        ({
            let last = globals_released(env, symbols, from)->0;
            &&& sound(last, hand)
            &&& last.globals.dom() == env.globals.dom()
            &&& last.frames == env.frames
            &&& forall|sym: u32, string: int| #[trigger]
                named(last.globals, sym, string) && from <= sym < symbols ==> string == 0
            &&& forall|sym: u32, string: int| #[trigger]
                named(last.globals, sym, string) && string != 0 ==> named(env.globals, sym, string)
        }),
    decreases symbols - from,
{
    if from < symbols {
        let sym = from as u32;
        if env.globals.contains_key(sym) && env.globals[sym].kind == PinpType::Str {
            let old = env.globals[sym].value;
            let base = outermost(env.frames);
            assert(has(env.globals, base, false, sym, old));
            lemma_taken_over(env.globals, base, env.strings, false, sym, old, 0, hand);
            assert(hand.remove(0) =~= hand) by {
                reveal(owned);
            }
            let given = released(env, env.globals[sym].value)->0;
            let emptied = Held { kind: PinpType::Str, value: 0 };
            let next = Env { globals: env.globals.insert(sym, emptied), ..given };
            lemma_globals_owned(next, symbols, from + 1, hand);
            let last = globals_released(next, symbols, from + 1)->0;
            assert(next.globals.dom() =~= env.globals.dom());
            assert forall|name: u32, string: int| #[trigger]
                named(last.globals, name, string) && from <= name < symbols implies string == 0 by {
                if name == sym && string != 0 {
                    assert(named(next.globals, sym, string));
                }
            }
            assert forall|name: u32, string: int| #[trigger]
                named(last.globals, name, string) && string != 0 implies named(
                env.globals,
                name,
                string,
            ) by {
                assert(named(next.globals, name, string));
            }
        } else {
            lemma_globals_owned(env, symbols, from + 1, hand);
            let last = globals_released(env, symbols, from + 1)->0;
            assert forall|name: u32, string: int| #[trigger]
                named(last.globals, name, string) && from <= name < symbols implies string == 0 by {
                if name == sym && string != 0 {
                    assert(named(env.globals, name, string));
                }
            }
        }
    }
}

/// Where nothing has run no string is in storage.
proof fn lemma_nothing_owned(p: Program, floats: Floats)
    ensures
        sound(nothing_run(p, floats), Set::empty()),
{
    reveal(owned);
    reveal(frames_plain);
    let env = nothing_run(p, floats);
    assert forall|local: bool, sym: u32, h: int| #[trigger]
        has(env.globals, outermost(env.frames), local, sym, h) implies h == 0 by {}
}

/// The strings that a program leaves: its value, where that is a string, and no other.
pub open spec fn left_over(p: Program, number: Option<int>) -> Set<int> {
    if program_type(p) == PinpType::Str && number is Some {
        set![number->0]
    } else {
        Set::empty()
    }
}

proof fn lemma_program_owned(p: Program, floats: Floats, fuel: nat)
    requires
        counted_program(p),
        forall|sym: u32| #[trigger] globals_of(p).contains_key(sym) ==> sym < p.ast.names.len(),
        program_meant(p, nothing_run(p, floats), fuel) is Some,
        program_meant(p, nothing_run(p, floats), fuel)->0.env.globals.dom() == globals_of(p).dom(),
    ensures
        ({
            let outcome = program_meant(p, nothing_run(p, floats), fuel)->0;
            outcome.env.strings.kept.dom() == left_over(p, outcome.number)
        }),
{
    let env = nothing_run(p, floats);
    let symbols = p.ast.names.len() as int;
    let ran = items_meant(p, env, 0, fuel)->0;
    lemma_nothing_owned(p, floats);
    lemma_items_owned(p, env, 0, fuel);
    let last = value_meant(p, ran)->0;
    let hand = left_over(p, last.number);
    if program_type(p) == PinpType::Str && ran.number is Some {
        let x = ran.number->0;
        if !program_owns_str(p) {
            lemma_made_owned(ran.env, text_of(ran.env.strings, x), Set::empty());
            assert(Set::<int>::empty().insert(last.number->0) =~= hand);
        }
    }
    assert(follows(env, last.env, hand));
    assert(last.env.frames.len() == 1);
    lemma_scope_owned(last.env, symbols, 0, hand);
    let left = scope_released(last.env, symbols, 0)->0;
    lemma_globals_owned(left, symbols, 0, hand);
    let end = globals_released(left, symbols, 0)->0;
    assert forall|h: int| end.strings.kept.dom().contains(h) == hand.contains(h) by {
        reveal(owned);
        if end.strings.kept.contains_key(h) && !hand.contains(h) {
            let base = outermost(end.frames);
            let (local, sym) = choose|local: bool, sym: u32|
                has(end.globals, base, local, sym, h);
            assert(has(end.globals, base, local, sym, h));
            assert(!local) by {
                assert(!texted(outermost(env.frames), sym));
                assert(!texted(outermost(last.env.frames), sym));
                if local {
                    assert(named(left.frames[0], sym, h));
                    assert(named(last.env.frames[0], sym, h));
                    assert(texted(outermost(last.env.frames), sym));
                }
            }
            assert(named(end.globals, sym, h));
            assert(end.globals.dom().contains(sym));
            assert(globals_of(p).dom().contains(sym));
            assert(globals_of(p).contains_key(sym));
            assert(sym < symbols);
        }
    }
    assert(end.strings.kept.dom() =~= hand);
}

/// A compiled program that means something leaves no string behind: a machine that runs it comes to
/// its end with no string in storage but the program's value, where that is a string. The machine
/// does not go on where a string is read or released that has been released before, so on the way
/// each is released once and none is read afterwards. A program on whose way a name's string is read
/// behind its release, such as `s + f()` where `f` writes `::s`, means nothing.
pub proof fn programs_release_every_string(p: Program, floats: Floats, fuel: nat)
    requires
        counted_program(p),
        told_apart(p.ast),
        countable(lowered(p)),
        forall|sym: u32| #[trigger] globals_of(p).contains_key(sym) ==> sym < p.ast.names.len(),
        program_meant(p, nothing_run(p, floats), fuel) is Some,
    ensures
        ({
            let code = code_of(lowered(p));
            let number = program_meant(p, nothing_run(p, floats), fuel)->0.number;
            exists|after: Machine|
                {
                    &&& #[trigger] reaches(code, started(p, floats), after)
                    &&& finished(code, after)
                    &&& after.strings.kept.dom() == left_over(p, number)
                }
        }),
{
    programs_compute_what_they_mean(p, floats, fuel);
    lemma_program_owned(p, floats, fuel);
    let code = code_of(lowered(p));
    let outcome = program_meant(p, nothing_run(p, floats), fuel)->0;
    let after = choose|after: Machine|
        #[trigger] reaches(code, started(p, floats), after) && finished(code, after) && after.strings
            == outcome.env.strings;
    assert(reaches(code, started(p, floats), after) && finished(code, after) && after.strings
        == outcome.env.strings);
}

} // verus!
