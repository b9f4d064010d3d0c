//! The interactive line editor: character classes, token boundaries for
//! moving by token, and the state machine that takes key presses.
use vstd::prelude::*;
use crate::calc::{evaluate_chars, evaluation_with};
use crate::lexer::{quote_views, Quote};
use crate::text::{chars_of, find, find_char, is_ascii_digit, is_whitespace, spells, string_of, trim, trim_chars, whitespace, digit};

verus! {

/// The class of a character, for moving and deleting by token.
#[derive(Clone, Copy, Debug, PartialEq, Eq, Structural)]
pub enum CharType {
    Number,
    Operator,
    Paren,
    Whitespace,
    Other,
}

/// The class of a character: digits and `$.,%` make numbers, `+-*/` are
/// operators, `()` parentheses.
pub open spec fn char_type(c: char) -> CharType {
    if digit(c) || c == '$' || c == '.' || c == ',' || c == '%' {
        CharType::Number
    } else if c == '+' || c == '-' || c == '*' || c == '/' {
        CharType::Operator
    } else if c == '(' || c == ')' {
        CharType::Paren
    } else if whitespace(c) {
        CharType::Whitespace
    } else {
        CharType::Other
    }
}

/// The class of a character (see `char_type`).
pub fn get_char_type(c: char) -> (r: CharType)
    ensures
        r == char_type(c),
{
    if is_ascii_digit(c) || c == '$' || c == '.' || c == ',' || c == '%' {
        CharType::Number
    } else if c == '+' || c == '-' || c == '*' || c == '/' {
        CharType::Operator
    } else if c == '(' || c == ')' {
        CharType::Paren
    } else if is_whitespace(c) {
        CharType::Whitespace
    } else {
        CharType::Other
    }
}

/// Back from `i` over whitespace.
pub open spec fn skip_space_back(s: Seq<char>, i: int) -> int
    decreases i,
{
    if i > 0 && whitespace(s[i - 1]) {
        skip_space_back(s, i - 1)
    } else {
        i
    }
}

/// Back from `i` over characters of class `t` that are not whitespace.
pub open spec fn skip_class_back(s: Seq<char>, i: int, t: CharType) -> int
    decreases i,
{
    if i > 0 && char_type(s[i - 1]) == t && !whitespace(s[i - 1]) {
        skip_class_back(s, i - 1, t)
    } else {
        i
    }
}

/// Where the token before `cur` begins: back over whitespace, then over the
/// characters of the class of the one reached.
pub open spec fn prev_boundary(s: Seq<char>, cur: int) -> int {
    if cur == 0 {
        0
    } else {
        let i = skip_space_back(s, cur);
        if i == 0 {
            0
        } else {
            skip_class_back(s, i, char_type(s[i - 1]))
        }
    }
}

/// Forward from `i` over whitespace.
pub open spec fn skip_space(s: Seq<char>, i: int) -> int
    decreases s.len() - i,
{
    if 0 <= i < s.len() && whitespace(s[i]) {
        skip_space(s, i + 1)
    } else {
        i
    }
}

/// Forward from `i` over characters of class `t` that are not whitespace.
pub open spec fn skip_class(s: Seq<char>, i: int, t: CharType) -> int
    decreases s.len() - i,
{
    if 0 <= i < s.len() && char_type(s[i]) == t && !whitespace(s[i]) {
        skip_class(s, i + 1, t)
    } else {
        i
    }
}

/// Where the token at or after `cur` ends: forward over whitespace, then
/// over the characters of the class of the one reached.
pub open spec fn next_boundary(s: Seq<char>, cur: int) -> int {
    if cur >= s.len() {
        s.len() as int
    } else {
        let i = skip_space(s, cur);
        if i >= s.len() {
            s.len() as int
        } else {
            skip_class(s, i, char_type(s[i]))
        }
    }
}

pub proof fn lemma_skip_back_bounds(s: Seq<char>, i: int, t: CharType)
    requires
        0 <= i <= s.len(),
    ensures
        0 <= skip_space_back(s, i) <= i,
        0 <= skip_class_back(s, i, t) <= i,
    decreases i,
{
    if i > 0 {
        lemma_skip_back_bounds(s, i - 1, t);
    }
}

pub proof fn lemma_skip_bounds(s: Seq<char>, i: int, t: CharType)
    requires
        0 <= i <= s.len(),
    ensures
        i <= skip_space(s, i) <= s.len(),
        i <= skip_class(s, i, t) <= s.len(),
    decreases s.len() - i,
{
    if i < s.len() {
        lemma_skip_bounds(s, i + 1, t);
    }
}

/// The start of the token before the cursor.
pub fn find_prev_token_boundary(chars: &[char], current: usize) -> (r: usize)
    requires
        current <= chars@.len(),
    ensures
        r as int == prev_boundary(chars@, current as int),
        r <= current,
{
    if current == 0 {
        return 0;
    }
    let mut i = current;
    while i > 0 && is_whitespace(chars[i - 1])
        invariant
            i <= current <= chars@.len(),
            skip_space_back(chars@, i as int) == skip_space_back(chars@, current as int),
        decreases i,
    {
        i = i - 1;
    }
    if i == 0 {
        return 0;
    }
    let target_type = get_char_type(chars[i - 1]);
    let ghost start = i;
    while i > 0 && get_char_type(chars[i - 1]) == target_type && !is_whitespace(chars[i - 1])
        invariant
            i <= start <= current <= chars@.len(),
            start == skip_space_back(chars@, current as int),
            start > 0,
            target_type == char_type(chars@[start - 1]),
            skip_class_back(chars@, i as int, target_type) == skip_class_back(
                chars@,
                start as int,
                target_type,
            ),
        decreases i,
    {
        i = i - 1;
    }
    i
}

/// The end of the token at or after the cursor.
pub fn find_next_token_boundary(chars: &[char], current: usize) -> (r: usize)
    ensures
        r as int == next_boundary(chars@, current as int),
        r <= chars@.len(),
        current <= chars@.len() ==> current <= r,
{
    if current >= chars.len() {
        return chars.len();
    }
    let mut i = current;
    while i < chars.len() && is_whitespace(chars[i])
        invariant
            current <= i <= chars@.len(),
            skip_space(chars@, i as int) == skip_space(chars@, current as int),
        decreases chars.len() - i,
    {
        i = i + 1;
    }
    if i >= chars.len() {
        return chars.len();
    }
    let target_type = get_char_type(chars[i]);
    let ghost start = i;
    while i < chars.len() && get_char_type(chars[i]) == target_type && !is_whitespace(chars[i])
        invariant
            current <= start <= i <= chars@.len(),
            start == skip_space(chars@, current as int),
            start < chars@.len(),
            target_type == char_type(chars@[start as int]),
            skip_class(chars@, i as int, target_type) == skip_class(
                chars@,
                start as int,
                target_type,
            ),
        decreases chars.len() - i,
    {
        i = i + 1;
    }
    i
}

/// A key, as the editor tells keys apart.
#[derive(Clone, Copy, Debug)]
pub enum Key {
    Char(char),
    Enter,
    Left,
    Right,
    Up,
    Down,
    Backspace,
    Delete,
    Other,
}

/// A key event: the key, whether Control or Alt is held, and whether the
/// key is being released.
#[derive(Clone, Copy, Debug)]
pub struct KeyPress {
    pub key: Key,
    pub ctrl: bool,
    pub alt: bool,
    pub released: bool,
}

/// What the terminal is to do after a key.
#[derive(Debug)]
pub enum ReplAction {
    /// Draw the prompt and the line again.
    Redraw,
    /// Leave the editor.
    Quit,
    /// Clear the screen.
    ClearScreen,
    /// The line was entered: end it; then leave the editor.
    SubmitQuit,
    /// The line was entered: end it; then show the help.
    SubmitHelp,
    /// The line was entered: end it; then clear the screen.
    SubmitClear,
    /// The line was entered: end it; nothing more.
    SubmitNothing,
    /// The line was entered: end it; then print the result.
    SubmitResult(String),
    /// The line was entered: end it; then print the error.
    SubmitError(String),
}

/// `ReplAction` as the contracts see it.
pub enum SpecAction {
    Redraw,
    Quit,
    ClearScreen,
    SubmitQuit,
    SubmitHelp,
    SubmitClear,
    SubmitNothing,
    SubmitResult(Seq<char>),
    SubmitError(Seq<char>),
}

impl View for ReplAction {
    type V = SpecAction;

    open spec fn view(&self) -> SpecAction {
        match self {
            ReplAction::Redraw => SpecAction::Redraw,
            ReplAction::Quit => SpecAction::Quit,
            ReplAction::ClearScreen => SpecAction::ClearScreen,
            ReplAction::SubmitQuit => SpecAction::SubmitQuit,
            ReplAction::SubmitHelp => SpecAction::SubmitHelp,
            ReplAction::SubmitClear => SpecAction::SubmitClear,
            ReplAction::SubmitNothing => SpecAction::SubmitNothing,
            ReplAction::SubmitResult(s) => SpecAction::SubmitResult(s@),
            ReplAction::SubmitError(s) => SpecAction::SubmitError(s@),
        }
    }
}

/// The state of the line editor.
pub struct ReplState {
    buffer: Vec<char>,
    cursor: usize,
    history: Vec<String>,
    history_index: usize,
    temp_buffer: Vec<char>,
}

/// The editor's state as the contracts see it.
pub struct ReplView {
    pub buffer: Seq<char>,
    pub cursor: int,
    pub history: Seq<Seq<char>>,
    pub history_index: int,
    pub temp_buffer: Seq<char>,
}

/// The texts of the history.
pub open spec fn history_texts(h: Seq<String>) -> Seq<Seq<char>> {
    h.map_values(|s: String| s@)
}

impl View for ReplState {
    type V = ReplView;

    closed spec fn view(&self) -> ReplView {
        ReplView {
            buffer: self.buffer@,
            cursor: self.cursor as int,
            history: history_texts(self.history@),
            history_index: self.history_index as int,
            temp_buffer: self.temp_buffer@,
        }
    }
}

/// The cursor is on the line and the history position within the history
/// (one past its end stands for the line being typed).
pub open spec fn well_formed(v: ReplView) -> bool {
    &&& 0 <= v.cursor <= v.buffer.len()
    &&& 0 <= v.history_index <= v.history.len()
}

/// The state with another line and cursor.
pub open spec fn edited(v: ReplView, buffer: Seq<char>, cursor: int) -> ReplView {
    ReplView {
        buffer: buffer,
        cursor: cursor,
        history: v.history,
        history_index: v.history_index,
        temp_buffer: v.temp_buffer,
    }
}

/// An empty line, past the end of the history.
pub open spec fn reset(v: ReplView) -> ReplView {
    ReplView {
        buffer: Seq::empty(),
        cursor: 0,
        history: v.history,
        history_index: v.history.len() as int,
        temp_buffer: Seq::empty(),
    }
}

/// The line shown for the history position: an entry, or the line that was
/// being typed; the cursor at its end.
pub open spec fn recalled(v: ReplView) -> ReplView {
    let b = if v.history_index < v.history.len() {
        v.history[v.history_index]
    } else {
        v.temp_buffer
    };
    edited(v, b, b.len() as int)
}

/// `s` without the characters from `a` to `b`.
pub open spec fn cut(s: Seq<char>, a: int, b: int) -> Seq<char> {
    s.take(a) + s.skip(b)
}

/// The state with entries added to the history.
pub open spec fn with_history(v: ReplView, h: Seq<Seq<char>>) -> ReplView {
    ReplView {
        buffer: v.buffer,
        cursor: v.cursor,
        history: h,
        history_index: v.history_index,
        temp_buffer: v.temp_buffer,
    }
}

/// A line is entered: commands, comments, and expressions, evaluated with
/// the stock prices `q`.
pub open spec fn submit_step(v: ReplView, q: Seq<(Seq<char>, int)>) -> (ReplView, SpecAction) {
    let input = trim(v.buffer);
    if input == "/exit"@ || input == "/quit"@ || input == "exit"@ || input == "quit"@ {
        (v, SpecAction::SubmitQuit)
    } else if input == "/help"@ {
        (reset(v), SpecAction::SubmitHelp)
    } else if input == "/clear"@ {
        (reset(v), SpecAction::SubmitClear)
    } else if input.len() == 0 || input[0] == '#' {
        (reset(v), SpecAction::SubmitNothing)
    } else {
        let expr = match find(input, '#') {
            Some(p) => trim(input.take(p)),
            None => input,
        };
        if expr.len() == 0 {
            (reset(v), SpecAction::SubmitNothing)
        } else {
            match evaluation_with(expr, q) {
                Ok(r) => (
                    reset(with_history(v, v.history.push(expr).push(r))),
                    SpecAction::SubmitResult(r),
                ),
                Err(e) => (
                    reset(with_history(v, v.history.push(expr))),
                    SpecAction::SubmitError(e),
                ),
            }
        }
    }
}

/// What a key does to the editor, and what the terminal is to do; an
/// entered line is evaluated with the stock prices `q`.
pub open spec fn key_step(v: ReplView, k: KeyPress, q: Seq<(Seq<char>, int)>) -> (ReplView, SpecAction) {
    let b = v.buffer;
    let c = v.cursor;
    let n = b.len() as int;
    if k.released {
        (v, SpecAction::Redraw)
    } else {
        match k.key {
            Key::Char(ch) => if k.ctrl && ch == 'c' {
                (v, SpecAction::Quit)
            } else if k.ctrl && ch == 'd' && n == 0 {
                (v, SpecAction::Quit)
            } else if k.ctrl && ch == 'd' {
                if c < n {
                    (edited(v, b.remove(c), c), SpecAction::Redraw)
                } else {
                    (v, SpecAction::Redraw)
                }
            } else if k.ctrl && ch == 'a' {
                (edited(v, b, 0), SpecAction::Redraw)
            } else if k.ctrl && ch == 'e' {
                (edited(v, b, n), SpecAction::Redraw)
            } else if k.ctrl && ch == 'k' {
                (edited(v, b.take(c), c), SpecAction::Redraw)
            } else if k.ctrl && ch == 'u' {
                (edited(v, b.skip(c), 0), SpecAction::Redraw)
            } else if k.ctrl && ch == 'w' {
                let start = prev_boundary(b, c);
                if start < c {
                    (edited(v, cut(b, start, c), start), SpecAction::Redraw)
                } else {
                    (v, SpecAction::Redraw)
                }
            } else if k.ctrl && ch == 'l' {
                (v, SpecAction::ClearScreen)
            } else if k.alt && ch == 'b' {
                (edited(v, b, prev_boundary(b, c)), SpecAction::Redraw)
            } else if k.alt && ch == 'f' {
                (edited(v, b, next_boundary(b, c)), SpecAction::Redraw)
            } else if k.alt && ch == 'd' {
                let end = next_boundary(b, c);
                if end > c {
                    (edited(v, cut(b, c, end), c), SpecAction::Redraw)
                } else {
                    (v, SpecAction::Redraw)
                }
            } else {
                (edited(v, b.insert(c, ch), c + 1), SpecAction::Redraw)
            },
            Key::Enter => submit_step(v, q),
            Key::Left => if c > 0 {
                (edited(v, b, c - 1), SpecAction::Redraw)
            } else {
                (v, SpecAction::Redraw)
            },
            Key::Right => if c < n {
                (edited(v, b, c + 1), SpecAction::Redraw)
            } else {
                (v, SpecAction::Redraw)
            },
            Key::Up => if v.history.len() == 0 {
                (v, SpecAction::Redraw)
            } else {
                let saved = if v.history_index == v.history.len() {
                    b
                } else {
                    v.temp_buffer
                };
                let index = if v.history_index == 0 {
                    v.history.len() as int
                } else {
                    v.history_index - 1
                };
                (
                    recalled(
                        ReplView {
                            buffer: b,
                            cursor: c,
                            history: v.history,
                            history_index: index,
                            temp_buffer: saved,
                        },
                    ),
                    SpecAction::Redraw,
                )
            },
            Key::Down => if v.history.len() == 0 {
                (v, SpecAction::Redraw)
            } else {
                let index = if v.history_index >= v.history.len() {
                    0
                } else {
                    v.history_index + 1
                };
                (
                    recalled(
                        ReplView {
                            buffer: b,
                            cursor: c,
                            history: v.history,
                            history_index: index,
                            temp_buffer: v.temp_buffer,
                        },
                    ),
                    SpecAction::Redraw,
                )
            },
            Key::Backspace => if c > 0 {
                (edited(v, b.remove(c - 1), c - 1), SpecAction::Redraw)
            } else {
                (v, SpecAction::Redraw)
            },
            Key::Delete => if c < n {
                (edited(v, b.remove(c), c), SpecAction::Redraw)
            } else {
                (v, SpecAction::Redraw)
            },
            Key::Other => (v, SpecAction::Redraw),
        }
    }
}

/// `v` without the elements from `a` to `b`.
fn cut_range(v: &Vec<char>, a: usize, b: usize) -> (r: Vec<char>)
    requires
        a <= b <= v.len(),
    ensures
        r@ == cut(v@, a as int, b as int),
{
    let mut r: Vec<char> = Vec::new();
    let mut i: usize = 0;
    while i < a
        invariant
            i <= a <= b <= v.len(),
            r@ == v@.take(i as int),
        decreases a - i,
    {
        r.push(v[i]);
        assert(r@ =~= v@.take(i + 1));
        i = i + 1;
    }
    let mut j: usize = b;
    while j < v.len()
        invariant
            a <= b <= j <= v.len(),
            r@ == v@.take(a as int) + v@.subrange(b as int, j as int),
        decreases v.len() - j,
    {
        r.push(v[j]);
        assert(r@ =~= v@.take(a as int) + v@.subrange(b as int, j + 1));
        j = j + 1;
    }
    assert(v@.subrange(b as int, v.len() as int) =~= v@.skip(b as int));
    r
}

/// A copy of a line.
fn copy_line(v: &Vec<char>) -> (r: Vec<char>)
    ensures
        r@ == v@,
{
    let r = v.clone();
    assert(r@ =~= v@);
    r
}

impl ReplState {
    /// An empty line and an empty history.
    pub fn new() -> (r: ReplState)
        ensures
            r@ == (ReplView {
                buffer: Seq::empty(),
                cursor: 0,
                history: Seq::empty(),
                history_index: 0,
                temp_buffer: Seq::empty(),
            }),
            well_formed(r@),
    {
        let r = ReplState {
            buffer: Vec::new(),
            cursor: 0,
            history: Vec::new(),
            history_index: 0,
            temp_buffer: Vec::new(),
        };
        assert(history_texts(r.history@) =~= Seq::<Seq<char>>::empty());
        r
    }

    /// Clears the line and moves past the end of the history.
    pub fn reset_input(&mut self)
        ensures
            final(self)@ == reset(old(self)@),
    {
        self.buffer.clear();
        self.cursor = 0;
        self.history_index = self.history.len();
        self.temp_buffer.clear();
    }

    /// Shows the history entry at the history position, or the line that
    /// was being typed when the position is past the end.
    pub fn update_buffer_from_history(&mut self)
        ensures
            final(self)@ == recalled(old(self)@),
    {
        if self.history_index < self.history.len() {
            self.buffer = chars_of(self.history[self.history_index].as_str());
        } else {
            self.buffer = copy_line(&self.temp_buffer);
        }
        self.cursor = self.buffer.len();
    }

    /// The line being typed.
    pub fn buffer_string(&self) -> (r: String)
        ensures
            r@ == self@.buffer,
    {
        string_of(&self.buffer)
    }

    /// The cursor's position on the line.
    pub fn cursor(&self) -> (r: usize)
        ensures
            r as int == self@.cursor,
    {
        self.cursor
    }

    /// The history: entered expressions, each followed by its result when
    /// it had one.
    pub fn history(&self) -> (r: &Vec<String>)
        ensures
            history_texts(r@) == self@.history,
    {
        &self.history
    }

    fn push_history(&mut self, entry: String)
        ensures
            final(self)@ == with_history(old(self)@, old(self)@.history.push(entry@)),
    {
        self.history.push(entry);
        assert(history_texts(self.history@) =~= history_texts(old(self).history@).push(entry@));
    }

    /// A line is entered (see `submit_step`).
    fn submit(&mut self, quotes: &Vec<Quote>) -> (r: ReplAction)
        requires
            well_formed(old(self)@),
        ensures
            (final(self)@, r@) == submit_step(old(self)@, quote_views(quotes@)),
    {
        let input = trim_chars(&self.buffer);
        if spells(&input, "/exit") || spells(&input, "/quit") || spells(&input, "exit") || spells(
            &input,
            "quit",
        ) {
            return ReplAction::SubmitQuit;
        }
        if spells(&input, "/help") {
            self.reset_input();
            return ReplAction::SubmitHelp;
        }
        if spells(&input, "/clear") {
            self.reset_input();
            return ReplAction::SubmitClear;
        }
        if input.len() == 0 || input[0] == '#' {
            self.reset_input();
            return ReplAction::SubmitNothing;
        }
        let expr = match find_char(&input, '#') {
            Some(p) => {
                proof {
                    crate::text::lemma_find_facts(input@, '#');
                }
                let mut head: Vec<char> = Vec::new();
                let mut i: usize = 0;
                while i < p
                    invariant
                        i <= p <= input.len(),
                        head@ == input@.take(i as int),
                    decreases p - i,
                {
                    head.push(input[i]);
                    assert(head@ =~= input@.take(i + 1));
                    i = i + 1;
                }
                trim_chars(&head)
            },
            None => input,
        };
        if expr.len() == 0 {
            self.reset_input();
            return ReplAction::SubmitNothing;
        }
        match evaluate_chars(&expr, quotes) {
            Ok(result) => {
                self.push_history(string_of(&expr));
                let shown = copy_string(&result);
                self.push_history(result);
                self.reset_input();
                ReplAction::SubmitResult(shown)
            },
            Err(e) => {
                self.push_history(string_of(&expr));
                self.reset_input();
                ReplAction::SubmitError(e)
            },
        }
    }

    /// Handles one key press (see `key_step`); no stock price is known.
    pub fn handle_key(&mut self, press: KeyPress) -> (r: ReplAction)
        requires
            well_formed(old(self)@),
        ensures
            (final(self)@, r@) == key_step(old(self)@, press, Seq::empty()),
            well_formed(final(self)@),
    {
        let quotes: Vec<Quote> = Vec::new();
        assert(quote_views(quotes@) =~= Seq::<(Seq<char>, int)>::empty());
        self.handle_key_with_prices(press, &quotes)
    }

    /// Handles one key press (see `key_step`); an entered line is evaluated
    /// with the stock prices among `quotes`.
    pub fn handle_key_with_prices(&mut self, press: KeyPress, quotes: &Vec<Quote>) -> (r: ReplAction)
        requires
            well_formed(old(self)@),
        ensures
            (final(self)@, r@) == key_step(old(self)@, press, quote_views(quotes@)),
            well_formed(final(self)@),
    {
        let ghost v = self@;
        let r = self.apply_key(press, quotes);
        proof {
            lemma_key_step_well_formed(v, press, quote_views(quotes@));
        }
        r
    }

    fn apply_key(&mut self, press: KeyPress, quotes: &Vec<Quote>) -> (r: ReplAction)
        requires
            well_formed(old(self)@),
        ensures
            (final(self)@, r@) == key_step(old(self)@, press, quote_views(quotes@)),
    {
        if press.released {
            return ReplAction::Redraw;
        }
        let n = self.buffer.len();
        let c = self.cursor;
        match press.key {
            Key::Char(ch) => {
                if press.ctrl && ch == 'c' {
                    ReplAction::Quit
                } else if press.ctrl && ch == 'd' && n == 0 {
                    ReplAction::Quit
                } else if press.ctrl && ch == 'd' {
                    if c < n {
                        self.buffer.remove(c);
                    }
                    ReplAction::Redraw
                } else if press.ctrl && ch == 'a' {
                    self.cursor = 0;
                    ReplAction::Redraw
                } else if press.ctrl && ch == 'e' {
                    self.cursor = n;
                    ReplAction::Redraw
                } else if press.ctrl && ch == 'k' {
                    self.buffer.truncate(c);
                    ReplAction::Redraw
                } else if press.ctrl && ch == 'u' {
                    self.buffer = cut_range(&self.buffer, 0, c);
                    assert(self.buffer@ =~= old(self).buffer@.skip(c as int));
                    self.cursor = 0;
                    ReplAction::Redraw
                } else if press.ctrl && ch == 'w' {
                    let start = find_prev_token_boundary(self.buffer.as_slice(), c);
                    if start < c {
                        self.buffer = cut_range(&self.buffer, start, c);
                        self.cursor = start;
                    }
                    ReplAction::Redraw
                } else if press.ctrl && ch == 'l' {
                    ReplAction::ClearScreen
                } else if press.alt && ch == 'b' {
                    self.cursor = find_prev_token_boundary(self.buffer.as_slice(), c);
                    ReplAction::Redraw
                } else if press.alt && ch == 'f' {
                    self.cursor = find_next_token_boundary(self.buffer.as_slice(), c);
                    ReplAction::Redraw
                } else if press.alt && ch == 'd' {
                    let end = find_next_token_boundary(self.buffer.as_slice(), c);
                    if end > c {
                        self.buffer = cut_range(&self.buffer, c, end);
                    }
                    ReplAction::Redraw
                } else {
                    self.buffer.insert(c, ch);
                    assert(self.buffer.len() == n + 1);
                    self.cursor = c + 1;
                    ReplAction::Redraw
                }
            },
            Key::Enter => self.submit(quotes),
            Key::Left => {
                if c > 0 {
                    self.cursor = c - 1;
                }
                ReplAction::Redraw
            },
            Key::Right => {
                if c < n {
                    self.cursor = c + 1;
                }
                ReplAction::Redraw
            },
            Key::Up => {
                if self.history.len() == 0 {
                    return ReplAction::Redraw;
                }
                if self.history_index == self.history.len() {
                    self.temp_buffer = copy_line(&self.buffer);
                }
                if self.history_index == 0 {
                    self.history_index = self.history.len();
                } else {
                    self.history_index = self.history_index - 1;
                }
                self.update_buffer_from_history();
                ReplAction::Redraw
            },
            Key::Down => {
                if self.history.len() == 0 {
                    return ReplAction::Redraw;
                }
                if self.history_index >= self.history.len() {
                    self.history_index = 0;
                } else {
                    self.history_index = self.history_index + 1;
                }
                self.update_buffer_from_history();
                ReplAction::Redraw
            },
            Key::Backspace => {
                if c > 0 {
                    self.buffer.remove(c - 1);
                    self.cursor = c - 1;
                }
                ReplAction::Redraw
            },
            Key::Delete => {
                if c < n {
                    self.buffer.remove(c);
                }
                ReplAction::Redraw
            },
            Key::Other => ReplAction::Redraw,
        }
    }
}

/// A copy of a string.
fn copy_string(s: &String) -> (r: String)
    ensures
        r@ == s@,
{
    s.clone()
}

/// Every key keeps the editor's state well formed.
pub proof fn lemma_key_step_well_formed(v: ReplView, k: KeyPress, q: Seq<(Seq<char>, int)>)
    requires
        well_formed(v),
    ensures
        well_formed(key_step(v, k, q).0),
{
    let b = v.buffer;
    let c = v.cursor;
    if !k.released {
        match k.key {
            Key::Char(ch) => {
                lemma_skip_back_bounds(b, c, CharType::Number);
                if c > 0 && skip_space_back(b, c) > 0 {
                    lemma_skip_back_bounds(b, skip_space_back(b, c), char_type(b[skip_space_back(b, c) - 1]));
                }
                lemma_skip_bounds(b, c, CharType::Number);
                if c < b.len() && skip_space(b, c) < b.len() {
                    lemma_skip_bounds(b, skip_space(b, c), char_type(b[skip_space(b, c)]));
                }
            },
            _ => {},
        }
    }
}

} // verus!
