//! The reveal engine: a typewriter-style state machine over a text buffer.
//!
//! The engine owns a buffer and a reveal cursor.  Time is supplied explicitly
//! in milliseconds; the reveal rate is in characters per second.  Each
//! elapsed millisecond contributes `rate` units to an internal accumulator,
//! and every 1000 units the cursor advances one character.  When the cursor
//! stands on the last character and one more interval elapses, the engine
//! finishes: the final character's interval ends the reveal one character
//! short of the full length, which is the defined behavior.

use crate::strutil::push_char;
use crate::tokens::find_char;
use crate::tokens::parse::{is_space, is_space_char};
use vstd::arithmetic::div_mod::{
    lemma_fundamental_div_mod, lemma_fundamental_div_mod_converse, lemma_div_is_ordered,
};
use vstd::arithmetic::mul::lemma_mul_nonnegative;
use vstd::prelude::*;

verus! {

/// A progressive-reveal engine over a text buffer.
///
/// The state machine is: idle (cursor parked, not advancing), running
/// (advancing on every tick), and finished (cursor pinned one character
/// before the end, not advancing).  A new engine is idle at index 0.
#[derive(Debug)]
pub struct TypeWriter {
    finished: bool,
    running: bool,
    /// Accumulated reveal budget, in milliseconds times characters per
    /// second; 1000 units reveal one character.
    acc: u64,
    /// Characters revealed per second; always at least 1.
    rate: u32,
    string: String,
    index: usize,
}

/// The mathematical state of a [`TypeWriter`].
pub ghost struct TypeWriterView {
    pub finished: bool,
    pub running: bool,
    pub acc: int,
    pub rate: int,
    pub text: Seq<char>,
    pub index: int,
}

impl View for TypeWriter {
    type V = TypeWriterView;

    closed spec fn view(&self) -> TypeWriterView {
        TypeWriterView {
            finished: self.finished,
            running: self.running,
            acc: self.acc as int,
            rate: self.rate as int,
            text: self.string@,
            index: self.index as int,
        }
    }
}

/// The index of the first character at or after `i` that is not whitespace,
/// or `s.len()` if there is none.
pub open spec fn first_non_space(s: Seq<char>, i: int) -> int
    decreases s.len() - i,
{
    if i < 0 || i >= s.len() {
        s.len() as int
    } else if !is_space(s[i]) {
        i
    } else {
        first_non_space(s, i + 1)
    }
}

/// The index of the last character at or before `i` that is not whitespace,
/// or `-1` if there is none.
pub open spec fn last_non_space(s: Seq<char>, i: int) -> int
    decreases i + 1,
{
    if i < 0 || i >= s.len() {
        -1
    } else if !is_space(s[i]) {
        i
    } else {
        last_non_space(s, i - 1)
    }
}

/// `s` with leading and trailing whitespace removed.
pub open spec fn trim_spec(s: Seq<char>) -> Seq<char> {
    let a = first_non_space(s, 0);
    if a >= s.len() {
        Seq::empty()
    } else {
        s.subrange(a, last_non_space(s, s.len() - 1) + 1)
    }
}

/// `n` spaces (none if `n` is negative).
pub open spec fn spaces(n: int) -> Seq<char> {
    Seq::new(
        if n < 0 {
            0
        } else {
            n as nat
        },
        |i: int| ' ',
    )
}

/// What the reveal engine's state becomes after one tick of `elapsed`
/// milliseconds, and how many characters the tick revealed.
///
/// A tick only has effect while running and not finished.  The elapsed time
/// times the rate joins the accumulator; every full 1000 units is one
/// character interval.  Intervals advance the cursor until it stands on the
/// last character; the next interval after that finishes the reveal instead
/// of advancing (one character short of the full length, by design), leaving
/// the engine stopped.
pub open spec fn spec_tick(v: TypeWriterView, elapsed: int) -> (TypeWriterView, int) {
    if !v.running || v.finished {
        (v, 0)
    } else {
        let budget = v.acc + elapsed * v.rate;
        let k = budget / 1000;
        let a = if v.text.len() == 0 {
            0
        } else if v.index >= v.text.len() - 1 {
            0
        } else {
            v.text.len() - 1 - v.index
        };
        if k <= a {
            (
                TypeWriterView {
                    finished: v.finished,
                    running: v.running,
                    acc: budget % 1000,
                    rate: v.rate,
                    text: v.text,
                    index: v.index + k,
                },
                k,
            )
        } else {
            (
                TypeWriterView {
                    finished: true,
                    running: false,
                    acc: budget - 1000 * (a + 1),
                    rate: v.rate,
                    text: v.text,
                    index: v.index + a,
                },
                a,
            )
        }
    }
}

/// The revealed prefix, padded: if it ends in a space, as many further
/// spaces are appended as there are characters before the next space in the
/// buffer, so a partially revealed word already occupies its final width.
pub open spec fn line_wrap_spec(text: Seq<char>, index: int) -> Seq<char> {
    let prefix = text.subrange(0, index);
    if prefix.len() > 0 && prefix.last() == ' ' {
        let j = find_char(text, ' ', index);
        if j < text.len() {
            prefix + spaces(j - index)
        } else {
            prefix
        }
    } else {
        prefix
    }
}

impl TypeWriter {
    /// A new, idle reveal engine over `string` with its surrounding
    /// whitespace trimmed away, revealing `chars_per_sec` characters per
    /// second (a rate of zero is clamped to 1).
    pub fn new(string: String, chars_per_sec: u32) -> (r: TypeWriter)
        ensures
            r@.text == trim_spec(string@),
            r@.index == 0,
            r@.finished == false,
            r@.running == false,
            r@.acc == 0,
            r@.rate == if chars_per_sec == 0 {
                1int
            } else {
                chars_per_sec as int
            },
    {
        let rate = if chars_per_sec == 0 {
            1
        } else {
            chars_per_sec
        };
        let s = string.as_str();
        let len = s.unicode_len();
        let mut start: usize = 0;
        while start < len && is_space_char(s.get_char(start))
            invariant
                0 <= start <= len,
                len == s@.len(),
                first_non_space(s@, 0) == first_non_space(s@, start as int),
            decreases len - start,
        {
            start = start + 1;
        }
        proof {
            assert(start == first_non_space(s@, 0));
        }
        let trimmed: String;
        if start == len {
            trimmed = String::new();
        } else {
            let mut end: usize = len - 1;
            while is_space_char(s.get_char(end))
                invariant
                    start <= end < len,
                    len == s@.len(),
                    !is_space(s@[start as int]),
                    last_non_space(s@, len - 1) == last_non_space(s@, end as int),
                decreases end,
            {
                end = end - 1;
            }
            proof {
                assert(end == last_non_space(s@, len - 1));
            }
            trimmed = s.substring_char(start, end + 1).to_owned();
        }
        TypeWriter { finished: false, running: false, acc: 0, rate, string: trimmed, index: 0 }
    }

    /// Advances the reveal by `elapsed_ms` milliseconds and returns how many
    /// characters this tick revealed; a caller that watches individual
    /// characters acts once per revealed character.  Has no effect unless
    /// the engine is running.
    pub fn tick(&mut self, elapsed_ms: u64) -> (advanced: usize)
        requires
            old(self)@.acc + elapsed_ms * old(self)@.rate <= u64::MAX,
        ensures
            final(self)@ == spec_tick(old(self)@, elapsed_ms as int).0,
            advanced == spec_tick(old(self)@, elapsed_ms as int).1,
    {
        if !self.running || self.finished {
            return 0;
        }
        let budget: u64 = self.acc + elapsed_ms * (self.rate as u64);
        let k: u64 = budget / 1000;
        let len = self.string.as_str().unicode_len();
        let a: usize = if len == 0 {
            0
        } else if self.index >= len - 1 {
            0
        } else {
            len - 1 - self.index
        };
        if k <= a as u64 {
            self.index = self.index + (k as usize);
            self.acc = budget % 1000;
            k as usize
        } else {
            proof {
                lemma_fundamental_div_mod(budget as int, 1000);
            }
            self.index = self.index + a;
            self.acc = budget - 1000 * (a as u64 + 1);
            self.finished = true;
            self.running = false;
            a
        }
    }

    /// Returns the engine to idle at index 0 with a cleared accumulator.
    pub fn reset(&mut self)
        ensures
            final(self)@ == (TypeWriterView {
                finished: false,
                running: false,
                acc: 0,
                rate: old(self)@.rate,
                text: old(self)@.text,
                index: 0,
            }),
    {
        self.running = false;
        self.acc = 0;
        self.index = 0;
        self.finished = false;
    }

    /// Starts revealing; does nothing if already running or finished.
    pub fn start(&mut self)
        ensures
            old(self)@.finished ==> final(self)@ == old(self)@,
            !old(self)@.finished ==> final(self)@ == (TypeWriterView {
                running: true,
                ..old(self)@
            }),
    {
        if !self.finished {
            self.running = true;
        }
    }

    /// Resets and immediately starts again: afterwards the cursor is at
    /// index 0, the reveal is not finished, and the engine is running.
    pub fn restart(&mut self)
        ensures
            final(self)@ == (TypeWriterView {
                finished: false,
                running: true,
                acc: 0,
                rate: old(self)@.rate,
                text: old(self)@.text,
                index: 0,
            }),
    {
        self.reset();
        self.start();
    }

    /// Replaces the buffer; intended for use while idle.
    pub fn with_string(&mut self, string: String)
        ensures
            final(self)@ == (TypeWriterView { text: string@, ..old(self)@ }),
    {
        self.string = string;
    }

    /// Replaces the reveal rate (a rate of zero is clamped to 1); intended
    /// for use while idle.
    pub fn with_speed(&mut self, chars_per_sec: u32)
        ensures
            final(self)@ == (TypeWriterView {
                rate: if chars_per_sec == 0 {
                    1int
                } else {
                    chars_per_sec as int
                },
                ..old(self)@
            }),
    {
        self.rate = if chars_per_sec == 0 {
            1
        } else {
            chars_per_sec
        };
    }

    /// Whether the reveal has finished.
    pub fn finished(&self) -> (r: bool)
        ensures
            r == self@.finished,
    {
        self.finished
    }

    /// The currently revealed prefix of the buffer.
    pub fn revealed_text(&self) -> (r: &str)
        requires
            self@.index <= self@.text.len(),
        ensures
            r@ == self@.text.subrange(0, self@.index),
    {
        self.string.as_str().substring_char(0, self.index)
    }

    /// The revealed prefix, padded for stable line wrapping: if it ends in
    /// a space, enough spaces are appended to cover the next word up to (not
    /// including) the next space in the buffer.
    pub fn revealed_text_with_line_wrap(&self) -> (r: String)
        requires
            self@.index <= self@.text.len(),
        ensures
            r@ == line_wrap_spec(self@.text, self@.index),
    {
        let s = self.string.as_str();
        let len = s.unicode_len();
        let prefix = s.substring_char(0, self.index);
        let mut out = prefix.to_owned();
        if self.index > 0 && s.get_char(self.index - 1) == ' ' {
            let mut j: usize = self.index;
            while j < len && s.get_char(j) != ' '
                invariant
                    self@.index <= j <= len,
                    len == s@.len(),
                    find_char(s@, ' ', self@.index) == find_char(s@, ' ', j as int),
                decreases len - j,
            {
                j = j + 1;
            }
            if j < len {
                let pad = j - self.index;
                let mut k: usize = 0;
                while k < pad
                    invariant
                        0 <= k <= pad,
                        out@ == prefix@ + spaces(k as int),
                    decreases pad - k,
                {
                    push_char(&mut out, ' ');
                    proof {
                        assert(prefix@ + spaces(k + 1) =~= (prefix@ + spaces(k as int)).push(' '));
                    }
                    k = k + 1;
                }
            }
            proof {
                assert(prefix@.len() > 0 && prefix@.last() == ' ');
                assert(out@ == line_wrap_spec(self@.text, self@.index));
            }
        } else {
            proof {
                if self@.index > 0 {
                    assert(prefix@.last() == self@.text[self@.index - 1]);
                }
                assert(!(prefix@.len() > 0 && prefix@.last() == ' '));
            }
        }
        out
    }
}

/// The total of a sequence of elapsed times.
pub open spec fn total_elapsed(es: Seq<int>) -> int
    decreases es.len(),
{
    if es.len() == 0 {
        0
    } else {
        es[0] + total_elapsed(es.drop_first())
    }
}

/// The state after a sequence of ticks.
pub open spec fn run_ticks(v: TypeWriterView, es: Seq<int>) -> TypeWriterView
    decreases es.len(),
{
    if es.len() == 0 {
        v
    } else {
        run_ticks(spec_tick(v, es[0]).0, es.drop_first())
    }
}

proof fn lemma_total_nonneg(es: Seq<int>)
    requires
        forall|i: int| 0 <= i < es.len() ==> es[i] >= 0,
    ensures
        total_elapsed(es) >= 0,
    decreases es.len(),
{
    if es.len() > 0 {
        assert(forall|i: int|
            0 <= i < es.drop_first().len() ==> #[trigger] es.drop_first()[i] == es[i + 1]);
        lemma_total_nonneg(es.drop_first());
    }
}

proof fn lemma_run_ticks_stopped(v: TypeWriterView, es: Seq<int>)
    requires
        !v.running || v.finished,
    ensures
        run_ticks(v, es) == v,
    decreases es.len(),
{
    if es.len() > 0 {
        lemma_run_ticks_stopped(v, es.drop_first());
    }
}

proof fn lemma_run_ticks_general(v: TypeWriterView, es: Seq<int>)
    requires
        v.running,
        !v.finished,
        v.rate >= 1,
        0 <= v.acc < 1000,
        v.text.len() >= 1,
        0 <= v.index <= v.text.len() - 1,
        forall|i: int| 0 <= i < es.len() ==> es[i] >= 0,
    ensures
        ({
            let b = v.acc + total_elapsed(es) * v.rate;
            let k = b / 1000;
            let a = v.text.len() - 1 - v.index;
            let vf = run_ticks(v, es);
            &&& (k <= a ==> vf == (TypeWriterView {
                finished: false,
                running: true,
                acc: b % 1000,
                rate: v.rate,
                text: v.text,
                index: v.index + k,
            }))
            &&& (k > a ==> vf.finished && !vf.running && vf.index == v.text.len() - 1
                && vf.text == v.text && vf.rate == v.rate)
        }),
    decreases es.len(),
{
    let b = v.acc + total_elapsed(es) * v.rate;
    let k = b / 1000;
    let a = v.text.len() - 1 - v.index;
    if es.len() == 0 {
        assert(b == v.acc);
        assert(k == 0) by {
            lemma_fundamental_div_mod_converse(b, 1000, 0, b);
        }
        assert(b % 1000 == b) by {
            lemma_fundamental_div_mod_converse(b, 1000, 0, b);
        }
        assert(run_ticks(v, es) == v);
    } else {
        let e = es[0];
        let rest = es.drop_first();
        assert(forall|i: int| 0 <= i < rest.len() ==> #[trigger] rest[i] == es[i + 1]);
        let srest = total_elapsed(rest);
        lemma_total_nonneg(rest);
        lemma_mul_nonnegative(e, v.rate);
        lemma_mul_nonnegative(srest, v.rate);
        let budget1 = v.acc + e * v.rate;
        let k1 = budget1 / 1000;
        lemma_fundamental_div_mod(budget1, 1000);
        let v1 = spec_tick(v, e).0;
        assert(total_elapsed(es) == e + srest);
        assert((e + srest) * v.rate == e * v.rate + srest * v.rate) by (nonlinear_arith);
        assert(b == budget1 + srest * v.rate);
        if k1 <= a {
            let b1 = (budget1 % 1000) + srest * v.rate;
            assert(v1 == (TypeWriterView {
                finished: false,
                running: true,
                acc: budget1 % 1000,
                rate: v.rate,
                text: v.text,
                index: v.index + k1,
            }));
            lemma_run_ticks_general(v1, rest);
            let k2 = b1 / 1000;
            lemma_fundamental_div_mod(b1, 1000);
            assert(b == 1000 * k1 + b1);
            assert(b == 1000 * (k1 + k2) + b1 % 1000) by {
                assert(1000 * (k1 + k2) == 1000 * k1 + 1000 * k2) by (nonlinear_arith);
            }
            lemma_fundamental_div_mod_converse(b, 1000, k1 + k2, b1 % 1000);
            assert(k == k1 + k2);
            assert(b % 1000 == b1 % 1000);
            let a1 = v.text.len() - 1 - v1.index;
            assert(a1 == a - k1);
            assert(run_ticks(v, es) == run_ticks(v1, rest));
        } else {
            assert(v1.finished && !v1.running);
            assert(v1.index == v.index + a == v.text.len() - 1);
            lemma_run_ticks_stopped(v1, rest);
            assert(run_ticks(v, es) == v1);
            assert(budget1 <= b);
            lemma_div_is_ordered(budget1, b, 1000);
            assert(k >= k1);
            assert(k > a);
        }
    }
}

/// Progress of the reveal: starting a fresh engine over a non-empty text of
/// length `L` at `rate` characters per second and ticking it by elapsed
/// times `es` (milliseconds, each non-negative) leaves the cursor at
/// `min(L - 1, floor(total * rate / 1000))`, and the reveal is finished
/// exactly when that many whole character intervals reach `L`.
pub proof fn lemma_reveal_progress(text: Seq<char>, rate: int, es: Seq<int>)
    requires
        rate >= 1,
        text.len() >= 1,
        forall|i: int| 0 <= i < es.len() ==> es[i] >= 0,
    ensures
        ({
            let v0 = TypeWriterView {
                finished: false,
                running: true,
                acc: 0,
                rate,
                text,
                index: 0,
            };
            let vf = run_ticks(v0, es);
            let steps = (total_elapsed(es) * rate) / 1000;
            &&& vf.index == if steps <= text.len() - 1 {
                steps
            } else {
                text.len() - 1
            }
            &&& vf.finished == (steps >= text.len())
        }),
{
    let v0 = TypeWriterView { finished: false, running: true, acc: 0, rate, text, index: 0 };
    lemma_run_ticks_general(v0, es);
}

} // verus!
