//! Cheat-code engine: typed characters collect in a short sliding buffer;
//! when the buffer ends with a known code its effect applies and the buffer
//! is cleared, so a second activation needs the code typed again.
//!
//! Codes: `petrol` toggles unlimited fuel; `111`, `222`, `333`, `444` lock the
//! theme to Dawn, Midday, Dusk, Night; `555` resumes automatic cycling;
//! `baufort10` multiplies the wind force by ten and `baufort0` turns it off.

use vstd::prelude::*;
use crate::palette::TimeOfDay;

verus! {

/// Characters the buffer keeps.
pub const BUFFER_MAX: usize = 16;

/// The codes the engine knows.
#[derive(Clone, Copy, Debug, PartialEq, Eq, Structural)]
pub enum CheatCode {
    StrongWind,
    NoWind,
    ToggleFuel,
    LockTheme(TimeOfDay),
    AutoTheme,
}

/// A typed character the buffer takes: ASCII and not a control character.
pub open spec fn printable(c: char) -> bool {
    ' ' <= c && c <= '~'
}

/// The characters of `s` that the buffer takes, in order.
pub open spec fn printable_only(s: Seq<char>) -> Seq<char>
    decreases s.len(),
{
    if s.len() == 0 {
        seq![]
    } else if printable(s.last()) {
        printable_only(s.drop_last()).push(s.last())
    } else {
        printable_only(s.drop_last())
    }
}

/// The last `BUFFER_MAX` characters of `s`.
pub open spec fn keep_last(s: Seq<char>) -> Seq<char> {
    if s.len() > BUFFER_MAX {
        s.skip(s.len() - BUFFER_MAX)
    } else {
        s
    }
}

/// `s` ends with `suffix`.
pub open spec fn ends_with(s: Seq<char>, suffix: Seq<char>) -> bool {
    suffix.len() <= s.len() && s.skip(s.len() - suffix.len()) == suffix
}

/// The text that activates a code.
pub open spec fn code_text(c: CheatCode) -> Seq<char> {
    match c {
        CheatCode::StrongWind => seq!['b', 'a', 'u', 'f', 'o', 'r', 't', '1', '0'],
        CheatCode::NoWind => seq!['b', 'a', 'u', 'f', 'o', 'r', 't', '0'],
        CheatCode::ToggleFuel => seq!['p', 'e', 't', 'r', 'o', 'l'],
        CheatCode::LockTheme(TimeOfDay::Dawn) => seq!['1', '1', '1'],
        CheatCode::LockTheme(TimeOfDay::Midday) => seq!['2', '2', '2'],
        CheatCode::LockTheme(TimeOfDay::Dusk) => seq!['3', '3', '3'],
        CheatCode::LockTheme(TimeOfDay::Night) => seq!['4', '4', '4'],
        CheatCode::AutoTheme => seq!['5', '5', '5'],
    }
}

/// The code the buffer ends with, tried in this order: `baufort10`,
/// `baufort0`, `petrol`, `111`, `222`, `333`, `444`, `555`.
pub open spec fn code_at_end(buf: Seq<char>) -> Option<CheatCode> {
    if ends_with(buf, code_text(CheatCode::StrongWind)) {
        Some(CheatCode::StrongWind)
    } else if ends_with(buf, code_text(CheatCode::NoWind)) {
        Some(CheatCode::NoWind)
    } else if ends_with(buf, code_text(CheatCode::ToggleFuel)) {
        Some(CheatCode::ToggleFuel)
    } else if ends_with(buf, code_text(CheatCode::LockTheme(TimeOfDay::Dawn))) {
        Some(CheatCode::LockTheme(TimeOfDay::Dawn))
    } else if ends_with(buf, code_text(CheatCode::LockTheme(TimeOfDay::Midday))) {
        Some(CheatCode::LockTheme(TimeOfDay::Midday))
    } else if ends_with(buf, code_text(CheatCode::LockTheme(TimeOfDay::Dusk))) {
        Some(CheatCode::LockTheme(TimeOfDay::Dusk))
    } else if ends_with(buf, code_text(CheatCode::LockTheme(TimeOfDay::Night))) {
        Some(CheatCode::LockTheme(TimeOfDay::Night))
    } else if ends_with(buf, code_text(CheatCode::AutoTheme)) {
        Some(CheatCode::AutoTheme)
    } else {
        None
    }
}

/// Cheat state. The wind multiplier is the whole factor the cheats set:
/// 1 by default, 10 after `baufort10`, 0 after `baufort0`.
pub struct Cheats {
    /// Characters typed since the last activation (at most `BUFFER_MAX`
    /// after every update).
    pub buffer: Vec<char>,
    pub unlimited_fuel: bool,
    /// `Some(theme)` locks the display; `None` resumes auto-cycling.
    pub theme_override: Option<TimeOfDay>,
    /// Multiplied onto the raw wind force every frame.
    pub wind_multiplier: u32,
}

/// `s` ends with `suffix`.
fn buffer_ends_with(s: &Vec<char>, suffix: &Vec<char>) -> (b: bool)
    ensures
        b == ends_with(s@, suffix@),
{
    if suffix.len() > s.len() {
        return false;
    }
    let off = s.len() - suffix.len();
    let mut i: usize = 0;
    while i < suffix.len()
        invariant
            off + suffix.len() == s.len(),
            i <= suffix.len(),
            forall|j: int| 0 <= j < i ==> s@[off + j] == suffix@[j],
        decreases suffix.len() - i,
    {
        if s[off + i] != suffix[i] {
            assert(s@.skip(off as int)[i as int] != suffix@[i as int]);
            return false;
        }
        i = i + 1;
    }
    assert(s@.skip(off as int) =~= suffix@);
    true
}

/// The text of a code, as characters.
fn code_chars(c: CheatCode) -> (v: Vec<char>)
    ensures
        v@ == code_text(c),
{
    match c {
        CheatCode::StrongWind => vec!['b', 'a', 'u', 'f', 'o', 'r', 't', '1', '0'],
        CheatCode::NoWind => vec!['b', 'a', 'u', 'f', 'o', 'r', 't', '0'],
        CheatCode::ToggleFuel => vec!['p', 'e', 't', 'r', 'o', 'l'],
        CheatCode::LockTheme(TimeOfDay::Dawn) => vec!['1', '1', '1'],
        CheatCode::LockTheme(TimeOfDay::Midday) => vec!['2', '2', '2'],
        CheatCode::LockTheme(TimeOfDay::Dusk) => vec!['3', '3', '3'],
        CheatCode::LockTheme(TimeOfDay::Night) => vec!['4', '4', '4'],
        CheatCode::AutoTheme => vec!['5', '5', '5'],
    }
}

/// The code the buffer ends with, if any (see `code_at_end`).
fn detect(buf: &Vec<char>) -> (r: Option<CheatCode>)
    ensures
        r == code_at_end(buf@),
{
    if buffer_ends_with(buf, &code_chars(CheatCode::StrongWind)) {
        Some(CheatCode::StrongWind)
    } else if buffer_ends_with(buf, &code_chars(CheatCode::NoWind)) {
        Some(CheatCode::NoWind)
    } else if buffer_ends_with(buf, &code_chars(CheatCode::ToggleFuel)) {
        Some(CheatCode::ToggleFuel)
    } else if buffer_ends_with(buf, &code_chars(CheatCode::LockTheme(TimeOfDay::Dawn))) {
        Some(CheatCode::LockTheme(TimeOfDay::Dawn))
    } else if buffer_ends_with(buf, &code_chars(CheatCode::LockTheme(TimeOfDay::Midday))) {
        Some(CheatCode::LockTheme(TimeOfDay::Midday))
    } else if buffer_ends_with(buf, &code_chars(CheatCode::LockTheme(TimeOfDay::Dusk))) {
        Some(CheatCode::LockTheme(TimeOfDay::Dusk))
    } else if buffer_ends_with(buf, &code_chars(CheatCode::LockTheme(TimeOfDay::Night))) {
        Some(CheatCode::LockTheme(TimeOfDay::Night))
    } else if buffer_ends_with(buf, &code_chars(CheatCode::AutoTheme)) {
        Some(CheatCode::AutoTheme)
    } else {
        None
    }
}

/// The buffer after a frame's typing: the printable characters appended,
/// then cut to the last `BUFFER_MAX`.
pub open spec fn buffered(before: Seq<char>, typed: Seq<char>) -> Seq<char> {
    keep_last(before + printable_only(typed))
}

proof fn lemma_printable_only_all(s: Seq<char>)
    requires
        forall|i: int| 0 <= i < s.len() ==> printable(#[trigger] s[i]),
    ensures
        printable_only(s) == s,
    decreases s.len(),
{
    if s.len() > 0 {
        lemma_printable_only_all(s.drop_last());
        assert(printable(s[s.len() - 1]));
        assert(s.drop_last().push(s.last()) =~= s);
    }
}

proof fn lemma_not_ends_with(b: Seq<char>, t: Seq<char>, k: int)
    requires
        1 <= k <= t.len(),
        k <= b.len(),
        b[b.len() - k] != t[t.len() - k],
    ensures
        !ends_with(b, t),
{
    if ends_with(b, t) {
        assert(b.skip(b.len() - t.len())[t.len() - k] == b[b.len() - k]);
    }
}

/// Detection is sound and complete: a code is reported only when the buffer
/// ends with that code's full text, and some code is reported whenever the
/// buffer ends with the text of any code.
pub proof fn lemma_detection_matches_codes(b: Seq<char>)
    ensures
        forall|c: CheatCode| code_at_end(b) == Some(c) ==> ends_with(b, code_text(c)),
        (code_at_end(b) is None) <==> (forall|c: CheatCode|
            !ends_with(b, #[trigger] code_text(c))),
{
    if code_at_end(b) is None {
        assert forall|c: CheatCode| !ends_with(b, #[trigger] code_text(c)) by {
            match c {
                CheatCode::LockTheme(t) => {
                    match t {
                        TimeOfDay::Dawn => {},
                        TimeOfDay::Midday => {},
                        TimeOfDay::Dusk => {},
                        TimeOfDay::Night => {},
                    }
                },
                _ => {},
            }
        }
    } else {
        let c = code_at_end(b).unwrap();
        assert(ends_with(b, code_text(c)));
    }
}

/// Typing a code in full activates it, whatever was typed before: every
/// code ends in characters no code tried before it ends in.
pub proof fn lemma_code_activates(before: Seq<char>, c: CheatCode)
    ensures
        code_at_end(buffered(before, code_text(c))) == Some(c),
{
    let t = code_text(c);
    assert forall|i: int| 0 <= i < t.len() implies printable(#[trigger] t[i]) by {}
    lemma_printable_only_all(t);
    let b = buffered(before, t);
    let all = before + t;
    assert(b.skip(b.len() - t.len()) =~= t) by {
        assert forall|i: int| 0 <= i < t.len() implies b.skip(b.len() - t.len())[i] == t[i] by {
            assert(all[before.len() + i] == t[i]);
        }
    }
    assert(ends_with(b, t));
    assert(b[b.len() - 1] == t[t.len() - 1]);
    assert(b[b.len() - 2] == t[t.len() - 2]) by {
        assert(all[all.len() - 2] == t[t.len() - 2]);
    }
    let wind = code_text(CheatCode::StrongWind);
    let calm = code_text(CheatCode::NoWind);
    let fuel = code_text(CheatCode::ToggleFuel);
    let dawn = code_text(CheatCode::LockTheme(TimeOfDay::Dawn));
    let midday = code_text(CheatCode::LockTheme(TimeOfDay::Midday));
    let dusk = code_text(CheatCode::LockTheme(TimeOfDay::Dusk));
    let night = code_text(CheatCode::LockTheme(TimeOfDay::Night));
    match c {
        CheatCode::StrongWind => {},
        CheatCode::NoWind => {
            lemma_not_ends_with(b, wind, 2);
        },
        CheatCode::ToggleFuel => {
            lemma_not_ends_with(b, wind, 1);
            lemma_not_ends_with(b, calm, 1);
        },
        CheatCode::LockTheme(theme) => {
            lemma_not_ends_with(b, wind, 1);
            lemma_not_ends_with(b, calm, 1);
            lemma_not_ends_with(b, fuel, 1);
            if theme != TimeOfDay::Dawn {
                lemma_not_ends_with(b, dawn, 1);
            }
            if theme != TimeOfDay::Midday {
                lemma_not_ends_with(b, midday, 1);
            }
            if theme != TimeOfDay::Dusk {
                lemma_not_ends_with(b, dusk, 1);
            }
        },
        CheatCode::AutoTheme => {
            lemma_not_ends_with(b, wind, 1);
            lemma_not_ends_with(b, calm, 1);
            lemma_not_ends_with(b, fuel, 1);
            lemma_not_ends_with(b, dawn, 1);
            lemma_not_ends_with(b, midday, 1);
            lemma_not_ends_with(b, dusk, 1);
            lemma_not_ends_with(b, night, 1);
        },
    }
}

impl Cheats {
    /// No cheat active: finite fuel, automatic theme, normal wind.
    pub fn new() -> (c: Self)
        ensures
            c.buffer@ == Seq::<char>::empty(),
            !c.unlimited_fuel,
            c.theme_override is None,
            c.wind_multiplier == 1,
    {
        Cheats {
            buffer: Vec::new(),
            unlimited_fuel: false,
            theme_override: None,
            wind_multiplier: 1,
        }
    }

    /// Take the characters typed this frame and apply a code the buffer
    /// now ends with. Call once per frame.
    pub fn update(&mut self, typed: &Vec<char>)
        ensures
            final(self).buffer@.len() <= BUFFER_MAX,
            ({
                let b = buffered(old(self).buffer@, typed@);
                match code_at_end(b) {
                    None => {
                        &&& final(self).buffer@ == b
                        &&& final(self).unlimited_fuel == old(self).unlimited_fuel
                        &&& final(self).theme_override == old(self).theme_override
                        &&& final(self).wind_multiplier == old(self).wind_multiplier
                    },
                    Some(code) => {
                        &&& final(self).buffer@ == Seq::<char>::empty()
                        &&& final(self).unlimited_fuel == (if code == CheatCode::ToggleFuel {
                            !old(self).unlimited_fuel
                        } else {
                            old(self).unlimited_fuel
                        })
                        &&& final(self).theme_override == match code {
                            CheatCode::LockTheme(t) => Some(t),
                            CheatCode::AutoTheme => None,
                            _ => old(self).theme_override,
                        }
                        &&& final(self).wind_multiplier == match code {
                            CheatCode::StrongWind => 10,
                            CheatCode::NoWind => 0,
                            _ => old(self).wind_multiplier,
                        }
                    },
                }
            }),
    {
        let ghost start = self.buffer@;
        for i in 0..typed.len()
            invariant
                self.buffer@ == start + printable_only(typed@.take(i as int)),
                start == old(self).buffer@,
                self.unlimited_fuel == old(self).unlimited_fuel,
                self.theme_override == old(self).theme_override,
                self.wind_multiplier == old(self).wind_multiplier,
        {
            let c = typed[i];
            let ghost prefix = typed@.take(i + 1);
            assert(prefix.drop_last() =~= typed@.take(i as int));
            assert(prefix.last() == c);
            if c >= ' ' && c <= '~' {
                self.buffer.push(c);
            }
            assert(self.buffer@ =~= start + printable_only(prefix));
        }
        assert(typed@.take(typed.len() as int) =~= typed@);
        if self.buffer.len() > BUFFER_MAX {
            let from = self.buffer.len() - BUFFER_MAX;
            let mut kept: Vec<char> = Vec::new();
            let mut j = from;
            while j < self.buffer.len()
                invariant
                    from <= j <= self.buffer.len(),
                    kept@ == self.buffer@.subrange(from as int, j as int),
                decreases self.buffer.len() - j,
            {
                kept.push(self.buffer[j]);
                j = j + 1;
                assert(kept@ =~= self.buffer@.subrange(from as int, j as int));
            }
            assert(kept@ =~= self.buffer@.skip(from as int));
            self.buffer = kept;
        }
        self.check();
    }

    /// Apply the code the buffer ends with and clear it.
    fn check(&mut self)
        ensures
            match code_at_end(old(self).buffer@) {
                None => *final(self) == *old(self),
                Some(code) => {
                    &&& final(self).buffer@ == Seq::<char>::empty()
                    &&& final(self).unlimited_fuel == (if code == CheatCode::ToggleFuel {
                        !old(self).unlimited_fuel
                    } else {
                        old(self).unlimited_fuel
                    })
                    &&& final(self).theme_override == match code {
                        CheatCode::LockTheme(t) => Some(t),
                        CheatCode::AutoTheme => None,
                        _ => old(self).theme_override,
                    }
                    &&& final(self).wind_multiplier == match code {
                        CheatCode::StrongWind => 10,
                        CheatCode::NoWind => 0,
                        _ => old(self).wind_multiplier,
                    }
                },
            },
    {
        match detect(&self.buffer) {
            None => {
                return;
            },
            Some(CheatCode::StrongWind) => {
                self.wind_multiplier = 10;
            },
            Some(CheatCode::NoWind) => {
                self.wind_multiplier = 0;
            },
            Some(CheatCode::ToggleFuel) => {
                self.unlimited_fuel = !self.unlimited_fuel;
            },
            Some(CheatCode::LockTheme(t)) => {
                self.theme_override = Some(t);
            },
            Some(CheatCode::AutoTheme) => {
                self.theme_override = None;
            },
        }
        self.buffer.clear();
    }

    /// The theme on screen: the locked one, if a code locked it, otherwise
    /// `auto_theme`, the one the distance travelled selects.
    pub fn current_theme(&self, auto_theme: TimeOfDay) -> (t: TimeOfDay)
        ensures
            t == match self.theme_override {
                Some(locked) => locked,
                None => auto_theme,
            },
    {
        match self.theme_override {
            Some(locked) => locked,
            None => auto_theme,
        }
    }
}

} // verus!
