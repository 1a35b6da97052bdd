//! Operator switches that turn a cache tier off.
//!
//! A switch is read once: its first answer holds for as long as the process runs, whatever
//! becomes of the setting.

use vstd::prelude::*;
use vstd::string::StrSliceExecFns;

verus! {

/// `c` is the letter `lower` or its upper-case form `upper`.
pub open spec fn letter(c: char, lower: char, upper: char) -> bool {
    c == lower || c == upper
}

/// The setting reads `1` or, in any letter case, `true`.
pub open spec fn says_yes(s: Seq<char>) -> bool {
    ||| s == seq!['1']
    ||| s.len() == 4 && letter(s[0], 't', 'T') && letter(s[1], 'r', 'R') && letter(s[2], 'u', 'U')
        && letter(s[3], 'e', 'E')
}

/// The text of a setting, where it is present.
pub open spec fn text(setting: Option<&str>) -> Option<Seq<char>> {
    match setting {
        Some(s) => Some(s@),
        None => None,
    }
}

/// What asking a switch does: the answer kept in the slot holds, and where there is none,
/// the setting gives it. The answer is kept.
pub open spec fn asked(
    before: Option<bool>,
    setting: Option<Seq<char>>,
    answer: bool,
    after: Option<bool>,
) -> bool {
    &&& answer == (match before {
        Some(b) => b,
        None => setting matches Some(s) && says_yes(s),
    })
    &&& after == Some(answer)
}

/// However often a switch is asked and whatever the setting becomes, every answer is the
/// first, and the first is what the setting said then.
pub proof fn lemma_first_answer_holds(
    slots: Seq<Option<bool>>,
    settings: Seq<Option<Seq<char>>>,
    answers: Seq<bool>,
)
    requires
        slots.len() == answers.len() + 1,
        settings.len() == answers.len(),
        slots[0] is None,
        forall|i: int|
            0 <= i < answers.len() ==> asked(slots[i], settings[i], #[trigger] answers[i], slots[i
                + 1]),
    ensures
        forall|i: int|
            0 <= i < answers.len() ==> #[trigger] answers[i] == (settings[0] matches Some(s)
                && says_yes(s)),
    decreases answers.len(),
{
    if answers.len() > 0 {
        let n = answers.len() - 1;
        let front = answers.drop_last();
        assert forall|i: int| 0 <= i < front.len() implies asked(
            slots.drop_last()[i],
            settings.drop_last()[i],
            #[trigger] front[i],
            slots.drop_last()[i + 1],
        ) by {
            assert(asked(slots[i], settings[i], answers[i], slots[i + 1]));
        }
        lemma_first_answer_holds(slots.drop_last(), settings.drop_last(), front);
        assert(asked(slots[n], settings[n], answers[n], slots[n + 1]));
        if n > 0 {
            assert(front[n - 1] == answers[n - 1]);
            assert(asked(slots[n - 1], settings[n - 1], answers[n - 1], slots[n]));
        }
        assert forall|i: int| 0 <= i < answers.len() implies #[trigger] answers[i] == (
        settings[0] matches Some(s) && says_yes(s)) by {
            if i < n {
                assert(front[i] == answers[i]);
            }
        }
    }
}

/// Ask a switch: the answer kept in `slot`, or what the setting says, which is then kept.
pub(crate) fn first_answer(slot: &mut Option<bool>, setting: Option<&str>) -> (r: bool)
    ensures
        asked(*old(slot), text(setting), r, *final(slot)),
{
    let answer: bool = match *slot {
        Some(b) => b,
        None => switched_on(setting),
    };
    *slot = Some(answer);
    answer
}

/// Whether the switch is on: the setting is present and says yes.
pub(crate) fn switched_on(setting: Option<&str>) -> (r: bool)
    ensures
        r == (setting matches Some(s) && says_yes(s@)),
{
    match setting {
        None => false,
        Some(s) => {
            let n: usize = s.unicode_len();
            if n == 1 {
                let one: bool = s.get_char(0) == '1';
                proof {
                    if one {
                        assert(s@ =~= seq!['1']);
                    }
                }
                one
            } else if n == 4 {
                let t: char = s.get_char(0);
                let r: char = s.get_char(1);
                let u: char = s.get_char(2);
                let e: char = s.get_char(3);
                (t == 't' || t == 'T') && (r == 'r' || r == 'R') && (u == 'u' || u == 'U') && (e
                    == 'e' || e == 'E')
            } else {
                false
            }
        },
    }
}

} // verus!
