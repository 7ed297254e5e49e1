//! Reading the options that a UCI engine declares, and picking those to tune.

use std::str::FromStr;

use chessframe::uci::UciCommand;
use vstd::prelude::*;
use vstd::string::StrSliceExecFns;

use crate::text::{
    chars_of, copy_range, join_words, lemma_join_push, parse_isize, parse_isize_spec,
    ranges_text, same_chars, same_text, trim, trim_bounds, word_bounds, words,
};

verus! {

/// What `char::is_lowercase` says of `c` (Unicode's `Lowercase` property).
pub uninterp spec fn lowercase_char(c: char) -> bool;

/// `char::is_lowercase`. Its result is named `lowercase_char`; std documents the
/// property as Unicode's `Lowercase`, which holds of `a` to `z` and not of `A` to `Z`.
/// Nothing more of the Unicode tables is stated.
#[verifier::external_body]
fn is_lowercase(c: char) -> (r: bool)
    ensures
        r == lowercase_char(c),
        0x61 <= (c as u32) <= 0x7a ==> r,
        0x41 <= (c as u32) <= 0x5a ==> !r,
{
    c.is_lowercase()
}

/// chessframe's `UciCommand::from_str` on a line whose first word is `option`: its source
/// splits the line at white space and answers `UciCommand::Option` with the words after
/// the first joined by single spaces. The wrapper hands back that text.
#[verifier::external_body]
fn option_command_text(line: &str) -> (r: Option<String>)
    requires
        words(line@).len() > 0,
        words(line@)[0] == "option"@,
    ensures
        r is Some,
        r->0@ == join_words(words(line@).drop_first()),
{
    match UciCommand::from_str(line) {
        Ok(UciCommand::Option(text)) => Some(text),
        _ => None,
    }
}

/// An option that an engine declares, as far as tuning reads it.
#[derive(Clone, Debug)]
pub struct UciOption {
    pub name: String,
    pub default: Option<String>,
    pub min: Option<isize>,
    pub max: Option<isize>,
}

/// A `UciOption` as plain values.
pub struct OptionView {
    pub name: Seq<char>,
    pub default: Option<Seq<char>>,
    pub min: Option<isize>,
    pub max: Option<isize>,
}

impl View for UciOption {
    type V = OptionView;

    open spec fn view(&self) -> OptionView {
        OptionView {
            name: self.name@,
            default: match self.default {
                Some(d) => Some(d@),
                None => None,
            },
            min: self.min,
            max: self.max,
        }
    }
}

/// What one line of an engine's answer to `uci` means to the tuner.
#[derive(Clone, Debug)]
pub enum UciLine {
    /// `uciok`: the engine has declared all its options.
    Done,
    /// An option to tune.
    Tunable(UciOption),
    /// Anything else.
    Other,
}

pub enum UciLineView {
    Done,
    Tunable(OptionView),
    Other,
}

impl View for UciLine {
    type V = UciLineView;

    open spec fn view(&self) -> UciLineView {
        match self {
            UciLine::Done => UciLineView::Done,
            UciLine::Tunable(o) => UciLineView::Tunable(o@),
            UciLine::Other => UciLineView::Other,
        }
    }
}

/// The words that start a part of an option declaration.
pub open spec fn is_option_keyword(w: Seq<char>) -> bool {
    w == "name"@ || w == "type"@ || w == "default"@ || w == "min"@ || w == "max"@ || w == "var"@
}

/// Index of the first word equal to `w`, or `ws.len()`.
pub open spec fn index_of_word(ws: Seq<Seq<char>>, w: Seq<char>) -> int
    decreases ws.len(),
{
    if ws.len() == 0 {
        0
    } else if ws[0] == w {
        0
    } else {
        1 + index_of_word(ws.drop_first(), w)
    }
}

/// Index of the first keyword, or `ws.len()`.
pub open spec fn index_of_keyword(ws: Seq<Seq<char>>) -> int
    decreases ws.len(),
{
    if ws.len() == 0 {
        0
    } else if is_option_keyword(ws[0]) {
        0
    } else {
        1 + index_of_keyword(ws.drop_first())
    }
}

proof fn lemma_index_of_word(ws: Seq<Seq<char>>, w: Seq<char>)
    ensures
        0 <= index_of_word(ws, w) <= ws.len(),
        index_of_word(ws, w) < ws.len() ==> ws[index_of_word(ws, w)] == w,
        forall|k: int| 0 <= k < index_of_word(ws, w) ==> ws[k] != w,
    decreases ws.len(),
{
    if ws.len() > 0 && ws[0] != w {
        lemma_index_of_word(ws.drop_first(), w);
        assert forall|k: int| 0 <= k < index_of_word(ws, w) implies ws[k] != w by {
            if k > 0 {
                assert(ws[k] == ws.drop_first()[k - 1]);
            }
        }
    }
}

proof fn lemma_index_of_keyword(ws: Seq<Seq<char>>)
    ensures
        0 <= index_of_keyword(ws) <= ws.len(),
        index_of_keyword(ws) < ws.len() ==> is_option_keyword(ws[index_of_keyword(ws)]),
        forall|k: int| 0 <= k < index_of_keyword(ws) ==> !is_option_keyword(#[trigger] ws[k]),
    decreases ws.len(),
{
    if ws.len() > 0 && !is_option_keyword(ws[0]) {
        lemma_index_of_keyword(ws.drop_first());
        assert forall|k: int| 0 <= k < index_of_keyword(ws) implies !is_option_keyword(
            #[trigger] ws[k],
        ) by {
            if k > 0 {
                assert(ws[k] == ws.drop_first()[k - 1]);
            }
        }
    }
}

/// The words of the part of a declaration that keyword `key` starts: those after the
/// first `key`, up to the next keyword.
pub open spec fn option_field(ws: Seq<Seq<char>>, key: Seq<char>) -> Option<Seq<Seq<char>>> {
    let i = index_of_word(ws, key);
    if i >= ws.len() {
        None
    } else {
        let rest = ws.subrange(i + 1, ws.len() as int);
        Some(rest.subrange(0, index_of_keyword(rest)))
    }
}

/// The option that a declaration text (`name <id> type <t> default <x> min <x> max <x> ...`)
/// describes: each part's words joined by single spaces; `min` and `max` read as integers.
pub open spec fn option_of(text: Seq<char>) -> OptionView {
    let ws = words(text);
    OptionView {
        name: match option_field(ws, "name"@) {
            Some(v) => join_words(v),
            None => seq![],
        },
        default: match option_field(ws, "default"@) {
            Some(v) => Some(join_words(v)),
            None => None,
        },
        min: match option_field(ws, "min"@) {
            Some(v) => parse_isize_spec(join_words(v)),
            None => None,
        },
        max: match option_field(ws, "max"@) {
            Some(v) => parse_isize_spec(join_words(v)),
            None => None,
        },
    }
}

/// What a line of the engine's answer means: `uciok` ends the list; an `option` line whose
/// option name begins with a lower-case letter declares an option to tune.
pub open spec fn uci_line_of(line: Seq<char>) -> UciLineView {
    let t = trim(line);
    if t == "uciok"@ {
        UciLineView::Done
    } else {
        let ws = words(t);
        if ws.len() > 0 && ws[0] == "option"@ {
            let o = option_of(join_words(ws.drop_first()));
            if o.name.len() > 0 && lowercase_char(o.name[0]) {
                UciLineView::Tunable(o)
            } else {
                UciLineView::Other
            }
        } else {
            UciLineView::Other
        }
    }
}

/// The words of `text` from `from` up to `to`, joined by single spaces.
fn join_range(text: &str, bounds: &Vec<(usize, usize)>, from: usize, to: usize) -> (r: String)
    requires
        from <= to <= bounds@.len(),
        forall|k: int| 0 <= k < bounds@.len() ==> (#[trigger] bounds@[k]).0 <= bounds@[k].1 <= text@.len(),
    ensures
        r@ == join_words(ranges_text(text@, bounds@).subrange(from as int, to as int)),
{
    let ghost ws = ranges_text(text@, bounds@);
    let mut r = String::new();
    let mut m = from;
    assert(ws.subrange(from as int, from as int) =~= Seq::<Seq<char>>::empty());
    while m < to
        invariant
            from <= m <= to <= bounds@.len(),
            ws == ranges_text(text@, bounds@),
            forall|k: int| 0 <= k < bounds@.len() ==> (#[trigger] bounds@[k]).0 <= bounds@[k].1 <= text@.len(),
            r@ == join_words(ws.subrange(from as int, m as int)),
        decreases to - m,
    {
        let (a, b) = bounds[m];
        proof {
            lemma_join_push(ws.subrange(from as int, m as int), ws[m as int]);
            assert(ws.subrange(from as int, m + 1) =~= ws.subrange(from as int, m as int).push(ws[m as int]));
        }
        if m > from {
            r.append(" ");
            proof {
                reveal_strlit(" ");
            }
        }
        r.append(text.substring_char(a, b));
        assert(r@ =~= join_words(ws.subrange(from as int, m + 1)));
        m += 1;
    }
    r
}

/// Index of the first of `bounds`, from `from` on, whose word satisfies the test: equals
/// `word` where it is given, else is a keyword.
#[verifier::spinoff_prover]
fn find_word(tx: &Vec<char>, bounds: &Vec<(usize, usize)>, from: usize, word: Option<&Vec<char>>) -> (r: usize)
    requires
        from <= bounds@.len(),
        forall|k: int| 0 <= k < bounds@.len() ==> (#[trigger] bounds@[k]).0 <= bounds@[k].1 <= tx@.len(),
    ensures
        r == from + match word {
            Some(w) => index_of_word(ranges_text(tx@, bounds@).subrange(from as int, bounds@.len() as int), w@),
            None => index_of_keyword(ranges_text(tx@, bounds@).subrange(from as int, bounds@.len() as int)),
        },
        from <= r <= bounds@.len(),
{
    let ghost ws = ranges_text(tx@, bounds@);
    let n = bounds.len();
    let name_w = chars_of("name");
    let type_w = chars_of("type");
    let default_w = chars_of("default");
    let min_w = chars_of("min");
    let max_w = chars_of("max");
    let var_w = chars_of("var");
    let mut k = from;
    while k < n
        invariant
            from <= k <= n == bounds@.len(),
            ws == ranges_text(tx@, bounds@),
            forall|j: int| 0 <= j < bounds@.len() ==> (#[trigger] bounds@[j]).0 <= bounds@[j].1 <= tx@.len(),
            name_w@ == "name"@,
            type_w@ == "type"@,
            default_w@ == "default"@,
            min_w@ == "min"@,
            max_w@ == "max"@,
            var_w@ == "var"@,
            match word {
                Some(w) => index_of_word(ws.subrange(from as int, n as int), w@) == (k - from)
                    + index_of_word(ws.subrange(k as int, n as int), w@),
                None => index_of_keyword(ws.subrange(from as int, n as int)) == (k - from)
                    + index_of_keyword(ws.subrange(k as int, n as int)),
            },
        decreases n - k,
    {
        let (a, b) = bounds[k];
        let w = copy_range(tx, a, b);
        assert(w@ == ws[k as int]);
        assert(ws.subrange(k as int, n as int)[0] == ws[k as int]);
        assert(ws.subrange(k as int, n as int).drop_first() =~= ws.subrange(k + 1, n as int));
        let hit = match word {
            Some(target) => same_chars(&w, target),
            None => same_chars(&w, &name_w) || same_chars(&w, &type_w) || same_chars(&w, &default_w)
                || same_chars(&w, &min_w) || same_chars(&w, &max_w) || same_chars(&w, &var_w),
        };
        if hit {
            return k;
        }
        k += 1;
    }
    proof {
        assert(ws.subrange(n as int, n as int) =~= Seq::<Seq<char>>::empty());
    }
    k
}

/// The part that `key` starts, in terms of where `key` stands and where the next keyword
/// after it stands.
proof fn lemma_option_field(ws: Seq<Seq<char>>, key: Seq<char>, i: int, end: int)
    requires
        i == index_of_word(ws, key),
        i < ws.len() ==> end == i + 1 + index_of_keyword(ws.subrange(i + 1, ws.len() as int)),
    ensures
        0 <= i <= ws.len(),
        i < ws.len() ==> i + 1 <= end <= ws.len(),
        option_field(ws, key) == if i >= ws.len() {
            None
        } else {
            Some(ws.subrange(i + 1, end))
        },
{
    lemma_index_of_word(ws, key);
    if i < ws.len() {
        let rest = ws.subrange(i + 1, ws.len() as int);
        lemma_index_of_keyword(rest);
        assert(rest.subrange(0, index_of_keyword(rest)) =~= ws.subrange(i + 1, end));
    }
}

/// The words of the part of the declaration that `key` starts, joined by single spaces.
#[verifier::spinoff_prover]
fn field_text(text: &str, tx: &Vec<char>, bounds: &Vec<(usize, usize)>, key: &str) -> (r: Option<String>)
    requires
        tx@ == text@,
        ranges_text(tx@, bounds@) == words(text@),
        forall|k: int| 0 <= k < bounds@.len() ==> (#[trigger] bounds@[k]).0 <= bounds@[k].1 <= tx@.len(),
    ensures
        match option_field(words(text@), key@) {
            Some(v) => r matches Some(s) && s@ == join_words(v),
            None => r is None,
        },
{
    let ghost ws = words(text@);
    let key_w = chars_of(key);
    let n = bounds.len();
    let i = find_word(tx, bounds, 0, Some(&key_w));
    assert(ws.subrange(0, n as int) =~= ws);
    if i == n {
        proof {
            lemma_option_field(ws, key@, i as int, 0);
        }
        return None;
    }
    let end = find_word(tx, bounds, i + 1, None);
    proof {
        lemma_option_field(ws, key@, i as int, end as int);
    }
    Some(join_range(text, bounds, i + 1, end))
}

/// The option that a declaration text describes.
fn read_option(text: &str) -> (o: UciOption)
    ensures
        o@ == option_of(text@),
{
    let tx = chars_of(text);
    let bounds = word_bounds(&tx);
    let name = match field_text(text, &tx, &bounds, "name") {
        Some(s) => s,
        None => String::new(),
    };
    let default = field_text(text, &tx, &bounds, "default");
    let min = match field_text(text, &tx, &bounds, "min") {
        Some(s) => parse_isize(&chars_of(s.as_str())),
        None => None,
    };
    let max = match field_text(text, &tx, &bounds, "max") {
        Some(s) => parse_isize(&chars_of(s.as_str())),
        None => None,
    };
    let o = UciOption { name, default, min, max };
    assert(o@.name =~= option_of(text@).name);
    o
}

/// What one line of an engine's answer to `uci` means to the tuner: see `uci_line_of`.
pub fn read_uci_line(line: &str) -> (r: UciLine)
    ensures
        r@ == uci_line_of(line@),
{
    let lc = chars_of(line);
    let (a, b) = trim_bounds(&lc);
    let t = line.substring_char(a, b);
    if same_text(t, "uciok") {
        return UciLine::Done;
    }
    let tc = chars_of(t);
    let bounds = word_bounds(&tc);
    let option_w = chars_of("option");
    if bounds.len() == 0 {
        return UciLine::Other;
    }
    let first = copy_range(&tc, bounds[0].0, bounds[0].1);
    if !same_chars(&first, &option_w) {
        return UciLine::Other;
    }
    let text = match option_command_text(t) {
        Some(text) => text,
        None => {
            return UciLine::Other;
        },
    };
    let o = read_option(text.as_str());
    let name = chars_of(o.name.as_str());
    if name.len() > 0 && is_lowercase(name[0]) {
        UciLine::Tunable(o)
    } else {
        UciLine::Other
    }
}

impl UciOption {
    /// The declared default, minimum and maximum of the option, where it declares all three
    /// and its default is an integer.
    pub fn spin_values(&self) -> (r: Option<(isize, isize, isize)>)
        ensures
            r == match (self@.default, self@.min, self@.max) {
                (Some(d), Some(lo), Some(hi)) => match parse_isize_spec(d) {
                    Some(v) => Some((v, lo, hi)),
                    None => None,
                },
                _ => None,
            },
    {
        match (&self.default, self.min, self.max) {
            (Some(d), Some(lo), Some(hi)) => match parse_isize(&chars_of(d.as_str())) {
                Some(v) => Some((v, lo, hi)),
                None => None,
            },
            _ => None,
        }
    }
}

} // verus!
