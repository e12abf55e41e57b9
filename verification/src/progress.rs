//! A percentage bar that is redrawn in place.

use crate::text;
use vstd::prelude::*;
use vstd::string::*;

verus! {

/// How many cells the bar has.
pub const PROGRESS_WIDTH: usize = 32;

/// A percentage bar. Inert where it is not enabled, so that its carriage returns never
/// reach a pipe or a log file.
pub struct Progress {
    pub label: &'static str,
    pub enabled: bool,
    /// The percentage that is on the screen, or -1.
    pub shown: i32,
}

/// `percent`, brought to between 0 and 100.
pub open spec fn clamped(percent: i32) -> i32 {
    if percent < 0 {
        0
    } else if percent > 100 {
        100
    } else {
        percent
    }
}

/// How many cells are filled at `percent`.
pub open spec fn filled_of(percent: int) -> int {
    PROGRESS_WIDTH * percent / 100
}

/// The bar at `percent`, as it is drawn over the one before.
pub open spec fn bar_of(label: Seq<char>, percent: int) -> Seq<char> {
    "\r"@ + label + " ["@ + text::repeated('\u{2588}', filled_of(percent)) + text::repeated(
        '\u{00b7}',
        PROGRESS_WIDTH - filled_of(percent),
    ) + "] "@ + text::padded(text::decimal_of(percent as nat), 3, ' ') + "%"@
}

impl Progress {
    /// What is on the screen is nothing or a percentage.
    pub open spec fn wf(self) -> bool {
        -1 <= self.shown <= 100
    }

    /// Whether news of `percent` changes what is on the screen.
    pub open spec fn is_news(self, percent: i32) -> bool {
        self.enabled && clamped(percent) != self.shown
    }

    /// The bar after news of `percent`.
    pub open spec fn after(self, percent: i32) -> Progress {
        if self.is_news(percent) {
            Progress { shown: clamped(percent), ..self }
        } else {
            self
        }
    }

    /// A bar that shows nothing yet. It is enabled where it goes to a terminal.
    pub fn new(label: &'static str, enabled: bool) -> (res: Self)
        ensures
            res == (Progress { label, enabled, shown: -1i32 }),
            res.wf(),
    {
        Progress { label, enabled, shown: -1 }
    }

    /// Takes news of `percent`, and returns what to write to the screen, if anything.
    pub fn set(&mut self, percent: i32) -> (res: Option<String>)
        ensures
            *final(self) == old(self).after(percent),
            old(self).wf() ==> final(self).wf(),
            final(self).label == old(self).label,
            final(self).enabled == old(self).enabled,
            !old(self).enabled ==> final(self).shown == old(self).shown && res is None,
            old(self).enabled ==> {
                &&& 0 <= final(self).shown <= 100
                &&& 0 <= percent <= 100 ==> final(self).shown == percent
                &&& percent < 0 ==> final(self).shown == 0
                &&& percent > 100 ==> final(self).shown == 100
                &&& res is Some <==> final(self).shown != old(self).shown
                &&& res matches Some(line) ==> line@ == bar_of(
                    old(self).label@,
                    final(self).shown as int,
                )
            },
            match res {
                Some(line) => {
                    &&& old(self).is_news(percent)
                    &&& line@ == bar_of(old(self).label@, clamped(percent) as int)
                },
                None => !old(self).is_news(percent),
            },
    {
        let percent: i32 = if percent < 0 {
            0
        } else if percent > 100 {
            100
        } else {
            percent
        };
        if !self.enabled || percent == self.shown {
            return None;
        }
        self.shown = percent;
        let filled: usize = PROGRESS_WIDTH * (percent as usize) / 100;
        let mut line = "\r".to_owned();
        line.append(self.label);
        line.append(" [");
        text::push_repeated(&mut line, '\u{2588}', filled);
        text::push_repeated(&mut line, '\u{00b7}', PROGRESS_WIDTH - filled);
        line.append("] ");
        text::push_padded(&mut line, percent as u128, 3, ' ');
        line.append("%");
        Some(line)
    }

    /// What clears the line, so that what follows takes its place.
    pub fn finish(&mut self) -> (res: Option<String>)
        ensures
            *final(self) == *old(self),
            match res {
                Some(line) => old(self).enabled && line@ == "\r\u{1b}[2K"@,
                None => !old(self).enabled,
            },
    {
        if self.enabled {
            Some("\r\u{1b}[2K".to_owned())
        } else {
            None
        }
    }
}

/// The same news twice draws once, and so does anything beyond either end.
pub proof fn old_news_is_not_drawn(bar: Progress, percent: i32, again: i32)
    requires
        clamped(percent) == clamped(again),
    ensures
        !bar.after(percent).is_news(again),
        bar.after(percent).after(again) == bar.after(percent),
{
}

/// A bar that is not enabled never draws.
pub proof fn disabled_bars_are_inert(bar: Progress, percent: i32)
    requires
        !bar.enabled,
    ensures
        !bar.is_news(percent),
        bar.after(percent) == bar,
{
}

/// A new bar draws whatever comes first, since nothing is on the screen yet.
pub proof fn first_news_is_drawn(label: &'static str, percent: i32)
    ensures
        (Progress { label, enabled: true, shown: -1i32 }).is_news(percent),
{
}

/// Every bar covers the one before it: all are of one length.
pub proof fn bars_have_one_length(label: Seq<char>, percent: int)
    requires
        0 <= percent <= 100,
    ensures
        bar_of(label, percent).len() == label.len() + PROGRESS_WIDTH + 9,
        0 <= filled_of(percent) <= PROGRESS_WIDTH,
{
    reveal_strlit("\r");
    reveal_strlit(" [");
    reveal_strlit("] ");
    reveal_strlit("%");
    reveal_with_fuel(text::decimal_of, 3);
}

/// The bar only grows with the percentage, from empty at 0 to full at 100.
pub proof fn bars_grow(p: int, q: int)
    requires
        0 <= p <= q <= 100,
    ensures
        filled_of(p) <= filled_of(q),
        filled_of(0) == 0,
        filled_of(100) == PROGRESS_WIDTH,
{
}

/// A bar shows its label, 32 cells of which the share that `percent` is of 100 is filled,
/// from the left, and the percentage in three places.
pub proof fn bars_show_the_percentage(label: Seq<char>, percent: int)
    requires
        0 <= percent <= 100,
    ensures
        ({
            let bar = bar_of(label, percent);
            let cells = label.len() as int + 3;
            let number = bar.subrange(cells + 34, cells + 37);
            &&& bar.len() == label.len() + 41
            &&& bar[0] == '\r'
            &&& bar.subrange(1, cells - 2) == label
            &&& bar[cells - 2] == ' ' && bar[cells - 1] == '['
            &&& forall|i: int|
                0 <= i < 32 ==> #[trigger] bar[cells + i] == if 100 * (i + 1) <= 32 * percent {
                    '\u{2588}'
                } else {
                    '\u{00b7}'
                }
            &&& bar[cells + 32] == ']' && bar[cells + 33] == ' '
            &&& bar[cells + 37] == '%'
            &&& number == if percent == 100 {
                seq!['1', '0', '0']
            } else if percent >= 10 {
                seq![' ', (48 + percent / 10) as char, (48 + percent % 10) as char]
            } else {
                seq![' ', ' ', (48 + percent) as char]
            }
        }),
{
    reveal_strlit("\r");
    reveal_strlit(" [");
    reveal_strlit("] ");
    reveal_strlit("%");
    reveal_with_fuel(text::decimal_of, 3);
    let bar = bar_of(label, percent);
    let cells = label.len() as int + 3;
    let digits = text::padded(text::decimal_of(percent as nat), 3, ' ');
    let number = bar.subrange(cells + 34, cells + 37);
    assert(bar.subrange(1, cells - 2) =~= label);
    assert(number =~= digits);
    if percent == 100 {
        assert(digits =~= seq!['1', '0', '0']);
    } else if percent >= 10 {
        assert(digits =~= seq![' ', (48 + percent / 10) as char, (48 + percent % 10) as char]);
    } else {
        assert(digits =~= seq![' ', ' ', (48 + percent) as char]);
    }
}

} // verus!
