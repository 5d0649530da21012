//! The game's phases and the decisions between them: title screen, a run,
//! the game-over screen and the high-score name prompt. The flight itself
//! (positions, fuel, collisions) is driven by the renderer's frame loop;
//! these functions take what happened in a frame and say what comes next.

use vstd::prelude::*;
use vstd::utf8::encode_utf8;
use crate::cheats::printable;
use crate::scores::{board_after_insert, qualifies, EntryView, Scores};
use crate::text::{pop_char, push_char};

verus! {

/// Bytes the name prompt accepts.
pub const NAME_MAX: usize = 8;

/// Where the game is.
#[derive(Clone)]
pub enum GamePhase {
    Title,
    Playing,
    Dead { score: u32 },
    EnteringName { score: u32, buf: String },
}

/// The keys of one frame that the phases react to, and the characters typed.
pub struct FrameInput {
    pub space: bool,
    pub enter: bool,
    pub escape: bool,
    pub backspace: bool,
    pub typed: Vec<char>,
}

/// What the frame loop must do besides switching phase.
#[derive(Clone, Copy, Debug, PartialEq, Eq, Structural)]
pub enum PhaseAction {
    /// Nothing more.
    Stay,
    /// Reset the world, the player and the cheats for a new run.
    StartRun,
}

/// The length of a name in bytes, as `String::len` counts it.
pub open spec fn name_len(buf: Seq<char>) -> usize {
    encode_utf8(buf).len() as usize
}

/// The prompt takes `c`: printable ASCII, not the `|` that frames stored
/// rows, and the name is still shorter than `NAME_MAX` bytes.
pub open spec fn name_accepts(buf: Seq<char>, c: char) -> bool {
    printable(c) && c != '|' && name_len(buf) < NAME_MAX
}

/// The name after the characters `typed` reach the prompt, one by one.
pub open spec fn typed_into(buf: Seq<char>, typed: Seq<char>) -> Seq<char>
    decreases typed.len(),
{
    if typed.len() == 0 {
        buf
    } else {
        let b = typed_into(buf, typed.drop_last());
        if name_accepts(b, typed.last()) {
            b.push(typed.last())
        } else {
            b
        }
    }
}

/// The name after one frame: the typed characters, then a backspace if
/// pressed.
pub open spec fn edited_name(buf: Seq<char>, typed: Seq<char>, backspace: bool) -> Seq<char> {
    let b = typed_into(buf, typed);
    if backspace && b.len() > 0 {
        b.drop_last()
    } else {
        b
    }
}

/// A name as the prompt keeps it: at most `NAME_MAX` printable ASCII
/// characters, none of them `|`.
pub open spec fn prompt_name(b: Seq<char>) -> bool {
    b.len() <= NAME_MAX && forall|i: int| 0 <= i < b.len() ==> printable(#[trigger] b[i]) && b[i] != '|'
}

proof fn lemma_typed_into(buf: Seq<char>, typed: Seq<char>)
    requires
        prompt_name(buf),
    ensures
        prompt_name(typed_into(buf, typed)),
    decreases typed.len(),
{
    broadcast use vstd::utf8::is_ascii_chars_encode_utf8;
    if typed.len() > 0 {
        lemma_typed_into(buf, typed.drop_last());
        let b = typed_into(buf, typed.drop_last());
        assert(vstd::utf8::is_ascii_chars(b));
        assert(name_len(b) == b.len());
    }
}

/// Whatever is typed, a name the prompt builds from a prompt name (the empty
/// one it starts with, say) stays at most `NAME_MAX` printable ASCII
/// characters with neither `|` nor a line break, so the stored board reads
/// it back unchanged.
pub proof fn lemma_prompt_keeps_names_storable(buf: Seq<char>, typed: Seq<char>, backspace: bool)
    requires
        prompt_name(buf),
    ensures
        prompt_name(edited_name(buf, typed, backspace)),
        !edited_name(buf, typed, backspace).contains('|'),
        !edited_name(buf, typed, backspace).contains('\n'),
{
    lemma_typed_into(buf, typed);
    let e = edited_name(buf, typed, backspace);
    let b = typed_into(buf, typed);
    assert forall|i: int| 0 <= i < e.len() implies printable(#[trigger] e[i]) && e[i] != '|' by {
        assert(e[i] == b[i]);
    }
    if e.contains('\n') {
        let k = choose|k: int| 0 <= k < e.len() && e[k] == '\n';
        assert(printable(e[k]));
    }
}

/// Backspace takes exactly the last character off the name the frame's
/// typing produced (nothing when that name is empty), whatever was typed;
/// with nothing typed it shortens the current name by one.
pub proof fn lemma_backspace_removes_last(buf: Seq<char>, typed: Seq<char>)
    ensures
        edited_name(buf, typed, true) == if edited_name(buf, typed, false).len() > 0 {
            edited_name(buf, typed, false).drop_last()
        } else {
            edited_name(buf, typed, false)
        },
        edited_name(buf, seq![], false) == buf,
        buf.len() > 0 ==> edited_name(buf, seq![], true) == buf.drop_last(),
        edited_name(buf, typed, true).len() + 1 >= edited_name(buf, typed, false).len(),
{
}

impl GamePhase {
    /// The phase a run ends in: the name prompt when the score earns a
    /// place on the board, the game-over screen otherwise.
    pub fn after_death(scores: &Scores, score: u32) -> (p: GamePhase)
        ensures
            qualifies(scores@, score) ==> (p matches GamePhase::EnteringName { score: s, buf }
                && s == score && buf@ == Seq::<char>::empty()),
            !qualifies(scores@, score) ==> p == (GamePhase::Dead { score }),
    {
        if scores.is_high_score(score) {
            GamePhase::EnteringName { score, buf: String::new() }
        } else {
            GamePhase::Dead { score }
        }
    }

    /// Escape quits the game, except at the name prompt where it skips the
    /// entry.
    pub fn quits_on(&self, escape: bool) -> (q: bool)
        ensures
            q == (escape && !(self is EnteringName)),
    {
        escape && !matches!(self, GamePhase::EnteringName { .. })
    }

    /// The keys of a frame, phase by phase: Space starts a run from the
    /// title and returns to the title from the game-over screen; the name
    /// prompt takes typed characters and Backspace. A run goes on as it is.
    pub fn on_keys(self, input: &FrameInput) -> (r: (GamePhase, PhaseAction))
        ensures
            match self {
                GamePhase::Title => r == if input.space {
                    (GamePhase::Playing, PhaseAction::StartRun)
                } else {
                    (GamePhase::Title, PhaseAction::Stay)
                },
                GamePhase::Playing => r == (GamePhase::Playing, PhaseAction::Stay),
                GamePhase::Dead { score } => r == if input.space {
                    (GamePhase::Title, PhaseAction::Stay)
                } else {
                    (GamePhase::Dead { score }, PhaseAction::Stay)
                },
                GamePhase::EnteringName { score, buf } => {
                    &&& r.1 == PhaseAction::Stay
                    &&& r.0 matches GamePhase::EnteringName { score: s, buf: b }
                    &&& s == score
                    &&& b@ == edited_name(buf@, input.typed@, input.backspace)
                },
            },
    {
        match self {
            GamePhase::Title => {
                if input.space {
                    (GamePhase::Playing, PhaseAction::StartRun)
                } else {
                    (GamePhase::Title, PhaseAction::Stay)
                }
            },
            GamePhase::Playing => (GamePhase::Playing, PhaseAction::Stay),
            GamePhase::Dead { score } => {
                if input.space {
                    (GamePhase::Title, PhaseAction::Stay)
                } else {
                    (GamePhase::Dead { score }, PhaseAction::Stay)
                }
            },
            GamePhase::EnteringName { score, buf } => {
                let mut buf = buf;
                let ghost start = buf@;
                for i in 0..input.typed.len()
                    invariant
                        buf@ == typed_into(start, input.typed@.take(i as int)),
                {
                    let c = input.typed[i];
                    let ghost prefix = input.typed@.take(i + 1);
                    assert(prefix.drop_last() =~= input.typed@.take(i as int));
                    assert(prefix.last() == c);
                    if c >= ' ' && c <= '~' && c != '|' && buf.as_str().len() < NAME_MAX {
                        push_char(&mut buf, c);
                    }
                }
                assert(input.typed@.take(input.typed.len() as int) =~= input.typed@);
                if input.backspace {
                    let _ = pop_char(&mut buf);
                }
                (GamePhase::EnteringName { score, buf }, PhaseAction::Stay)
            },
        }
    }

    /// Enter or Escape at the name prompt ends it and returns to the title;
    /// Enter with a non-empty name adds the score to the board first. The
    /// returned flag says whether the board changed and must be stored.
    /// Other phases pass through untouched.
    pub fn settle_name_entry(self, input: &FrameInput, scores: &mut Scores) -> (r: (
        GamePhase,
        bool,
    ))
        ensures
            match self {
                GamePhase::EnteringName { score, buf } => if input.enter || input.escape {
                    &&& r.0 == GamePhase::Title
                    &&& r.1 == (input.enter && buf@.len() > 0)
                    &&& final(scores)@ == if r.1 {
                        board_after_insert(old(scores)@, EntryView { name: buf@, score })
                    } else {
                        old(scores)@
                    }
                } else {
                    &&& r.0 == self
                    &&& !r.1
                    &&& final(scores)@ == old(scores)@
                },
                _ => r.0 == self && !r.1 && final(scores)@ == old(scores)@,
            },
    {
        match self {
            GamePhase::EnteringName { score, buf } => {
                if input.enter || input.escape {
                    if input.enter && !buf.as_str().is_empty() {
                        scores.insert(buf, score);
                        (GamePhase::Title, true)
                    } else {
                        (GamePhase::Title, false)
                    }
                } else {
                    (GamePhase::EnteringName { score, buf }, false)
                }
            },
            other => (other, false),
        }
    }
}

} // verus!
