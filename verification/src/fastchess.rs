//! Reading the outcome of a fastchess match from its console report.

use vstd::prelude::*;

use crate::text::{
    chars_of, copy_range, find_char_from, first_line_with_prefix, first_with_prefix,
    has_prefix, lemma_find_char, lines, parse_isize, parse_isize_spec, split_on,
    strip_prefix, trim, trim_chars, decimal_text, signed_text, usize_text, isize_text,
    lemma_parse_usize_text, parse_usize_spec,
};

verus! {

/// How a fastchess match between the "plus" and the "minus" engine is run.
#[derive(Clone)]
pub struct MatchConfig {
    pub engine: String,
    pub tc: String,
    pub book: String,
    pub games: usize,
    pub concurrency: usize,
}

/// The argument that sets engine option `o.0` to `o.1`.
pub open spec fn option_arg(o: (String, isize)) -> Seq<char> {
    "option."@ + o.0@ + "="@ + signed_text(o.1 as int)
}

/// The arguments that declare one engine of the match: its command, its label, a
/// 64 MB hash, and its options in the order given.
pub open spec fn engine_args(engine: Seq<char>, label: Seq<char>, opts: Seq<(String, isize)>) -> Seq<Seq<char>> {
    seq!["-engine"@, "cmd="@ + engine, "name="@ + label, "option.Hash=64"@] + opts.map_values(
        |o: (String, isize)| option_arg(o),
    )
}

/// The fastchess command line of a match between the engine with the `plus` options and
/// the engine with the `minus` options: `games / 2` rounds of repeated openings from the
/// book in random order, seed 1234, recovering crashed engines, no interim ratings.
pub open spec fn match_args(c: MatchConfig, plus: Seq<(String, isize)>, minus: Seq<(String, isize)>) -> Seq<Seq<char>> {
    engine_args(c.engine@, "plus"@, plus) + engine_args(c.engine@, "minus"@, minus) + seq![
        "-each"@,
        "tc="@ + c.tc@,
        "-rounds"@,
        decimal_text((c.games / 2) as nat),
        "-repeat"@,
        "-srand"@,
        "1234"@,
        "-openings"@,
        "file="@ + c.book@,
        "format=pgn"@,
        "order=random"@,
        "-concurrency"@,
        decimal_text(c.concurrency as nat),
        "-recover"@,
        "-ratinginterval"@,
        "0"@,
    ]
}

/// The layout of a match's command line: the plus engine (its command, label, hash and
/// each of its options in order), then the minus engine likewise, then the match settings.
/// The argument after `-rounds` reads back as half the games and the one after
/// `-concurrency` as the number of games played at once.
pub proof fn law_match_command_line(c: MatchConfig, plus: Seq<(String, isize)>, minus: Seq<(String, isize)>)
    ensures
        ({
            let a = match_args(c, plus, minus);
            let m = 4 + plus.len() as int;
            let n = a.len() as int;
            &&& n == plus.len() + minus.len() + 24
            &&& a[0] == "-engine"@ && a[1] == "cmd="@ + c.engine@ && a[2] == "name=plus"@
            &&& a[3] == "option.Hash=64"@
            &&& forall|i: int|
                0 <= i < plus.len() ==> #[trigger] a[4 + i] == "option."@ + plus[i].0@ + "="@
                    + signed_text(plus[i].1 as int)
            &&& a[m] == "-engine"@ && a[m + 1] == "cmd="@ + c.engine@ && a[m + 2] == "name=minus"@
            &&& a[m + 3] == "option.Hash=64"@
            &&& forall|i: int|
                0 <= i < minus.len() ==> #[trigger] a[m + 4 + i] == "option."@ + minus[i].0@ + "="@
                    + signed_text(minus[i].1 as int)
            &&& a[n - 16] == "-each"@ && a[n - 15] == "tc="@ + c.tc@
            &&& a[n - 14] == "-rounds"@ && parse_usize_spec(a[n - 13]) == Some((c.games / 2) as usize)
            &&& a[n - 12] == "-repeat"@ && a[n - 11] == "-srand"@ && a[n - 10] == "1234"@
            &&& a[n - 9] == "-openings"@ && a[n - 8] == "file="@ + c.book@
            &&& a[n - 7] == "format=pgn"@ && a[n - 6] == "order=random"@
            &&& a[n - 5] == "-concurrency"@ && parse_usize_spec(a[n - 4]) == Some(c.concurrency)
            &&& a[n - 3] == "-recover"@ && a[n - 2] == "-ratinginterval"@ && a[n - 1] == "0"@
        }),
{
    let a = match_args(c, plus, minus);
    let p = engine_args(c.engine@, "plus"@, plus);
    let q = engine_args(c.engine@, "minus"@, minus);
    let m = 4 + plus.len() as int;
    let n = a.len();
    lemma_parse_usize_text((c.games / 2) as usize);
    lemma_parse_usize_text(c.concurrency);
    assert(p.len() == m);
    assert(q.len() == 4 + minus.len());
    assert forall|i: int| 0 <= i < plus.len() implies #[trigger] a[4 + i] == "option."@ + plus[i].0@
        + "="@ + signed_text(plus[i].1 as int) by {
        assert(a[4 + i] == p[4 + i]);
    }
    assert forall|i: int| 0 <= i < minus.len() implies #[trigger] a[m + 4 + i] == "option."@
        + minus[i].0@ + "="@ + signed_text(minus[i].1 as int) by {
        assert(a[m + 4 + i] == q[4 + i]);
    }
    reveal_strlit("name=");
    reveal_strlit("plus");
    reveal_strlit("minus");
    reveal_strlit("name=plus");
    reveal_strlit("name=minus");
    assert("name="@ + "plus"@ =~= "name=plus"@);
    assert("name="@ + "minus"@ =~= "name=minus"@);
    let t = a.subrange((p.len() + q.len()) as int, n as int);
    assert(a =~= p + q + t);
    assert(a[0] == p[0] && a[1] == p[1] && a[2] == p[2] && a[3] == p[3]);
    assert(a[m] == q[0] && a[m + 1] == q[1] && a[m + 2] == q[2] && a[m + 3] == q[3]);
}

pub open spec fn texts(v: Seq<String>) -> Seq<Seq<char>> {
    v.map_values(|s: String| s@)
}

fn text_of(a: &str) -> (r: String)
    ensures
        r@ == a@,
{
    let mut r = String::new();
    r.append(a);
    assert(r@ =~= a@);
    r
}

fn joined(a: &str, b: &str) -> (r: String)
    ensures
        r@ == a@ + b@,
{
    let mut r = String::new();
    r.append(a);
    r.append(b);
    assert(r@ =~= a@ + b@);
    r
}

fn push_text(v: &mut Vec<String>, s: String)
    ensures
        texts(final(v)@) == texts(old(v)@).push(s@),
{
    v.push(s);
    assert(texts(final(v)@) =~= texts(old(v)@).push(s@));
}

fn push_engine_args(v: &mut Vec<String>, engine: &String, label: &str, opts: &[(String, isize)])
    ensures
        texts(final(v)@) == texts(old(v)@) + engine_args(engine@, label@, opts@),
{
    let ghost start = texts(v@);
    push_text(v, text_of("-engine"));
    push_text(v, joined("cmd=", engine.as_str()));
    push_text(v, joined("name=", label));
    push_text(v, text_of("option.Hash=64"));
    let ghost head = seq!["-engine"@, "cmd="@ + engine@, "name="@ + label@, "option.Hash=64"@];
    assert(texts(v@) =~= start + head);
    let mut i: usize = 0;
    while i < opts.len()
        invariant
            i <= opts@.len(),
            texts(v@) == start + head + opts@.take(i as int).map_values(
                |o: (String, isize)| option_arg(o),
            ),
        decreases opts.len() - i,
    {
        let mut a = joined("option.", opts[i].0.as_str());
        a.append("=");
        a.append(isize_text(opts[i].1).as_str());
        assert(a@ =~= option_arg(opts@[i as int]));
        push_text(v, a);
        assert(opts@.take(i + 1).map_values(|o: (String, isize)| option_arg(o)) =~= opts@.take(
            i as int,
        ).map_values(|o: (String, isize)| option_arg(o)).push(option_arg(opts@[i as int])));
        i += 1;
    }
    assert(opts@.take(opts@.len() as int) =~= opts@);
    assert(texts(v@) =~= start + engine_args(engine@, label@, opts@));
}

/// The command line for fastchess that plays the match: see `match_args`.
pub fn fastchess_args(config: &MatchConfig, plus: &[(String, isize)], minus: &[(String, isize)]) -> (r: Vec<String>)
    ensures
        texts(r@) == match_args(*config, plus@, minus@),
        r@.len() == plus@.len() + minus@.len() + 24,
        r@[r@.len() - 14]@ == "-rounds"@,
        parse_usize_spec(r@[r@.len() - 13]@) == Some((config.games / 2) as usize),
        r@[r@.len() - 5]@ == "-concurrency"@,
        parse_usize_spec(r@[r@.len() - 4]@) == Some(config.concurrency),
{
    let mut v: Vec<String> = Vec::new();
    assert(texts(v@) =~= Seq::<Seq<char>>::empty());
    push_engine_args(&mut v, &config.engine, "plus", plus);
    push_engine_args(&mut v, &config.engine, "minus", minus);
    let ghost engines = texts(v@);
    push_text(&mut v, text_of("-each"));
    push_text(&mut v, joined("tc=", config.tc.as_str()));
    push_text(&mut v, text_of("-rounds"));
    push_text(&mut v, usize_text(config.games / 2));
    push_text(&mut v, text_of("-repeat"));
    push_text(&mut v, text_of("-srand"));
    push_text(&mut v, text_of("1234"));
    push_text(&mut v, text_of("-openings"));
    push_text(&mut v, joined("file=", config.book.as_str()));
    push_text(&mut v, text_of("format=pgn"));
    push_text(&mut v, text_of("order=random"));
    push_text(&mut v, text_of("-concurrency"));
    push_text(&mut v, usize_text(config.concurrency));
    push_text(&mut v, text_of("-recover"));
    push_text(&mut v, text_of("-ratinginterval"));
    push_text(&mut v, text_of("0"));
    assert(texts(v@) =~= match_args(*config, plus@, minus@));
    proof {
        law_match_command_line(*config, plus@, minus@);
        let n = v@.len() as int;
        assert(texts(v@)[n - 14] == v@[n - 14]@);
        assert(texts(v@)[n - 13] == v@[n - 13]@);
        assert(texts(v@)[n - 5] == v@[n - 5]@);
        assert(texts(v@)[n - 4] == v@[n - 4]@);
    }
    v
}

/// What to do while a match runs.
#[derive(Clone, Copy, Debug, PartialEq, Eq, Structural)]
pub enum MatchStep {
    /// The tuner is stopping: kill the match and give up on it.
    Cancel,
    /// fastchess has exited: read its report.
    Finished,
    /// Look again after a short sleep.
    Wait,
}

/// The next step while a match runs: cancelling wins over a finished match.
pub fn match_step(running: bool, exited: bool) -> (r: MatchStep)
    ensures
        r == if !running {
            MatchStep::Cancel
        } else if exited {
            MatchStep::Finished
        } else {
            MatchStep::Wait
        },
{
    if !running {
        MatchStep::Cancel
    } else if exited {
        MatchStep::Finished
    } else {
        MatchStep::Wait
    }
}

/// One of the three counts on fastchess's stats line.
#[derive(Clone, Copy, Debug, PartialEq, Eq, Structural)]
pub enum StatKey {
    Wins,
    Draws,
    Losses,
}

/// Why a fastchess report yields no score.
#[derive(Clone, Debug)]
pub enum ScoreError {
    /// No line begins with `Results of`.
    MissingResultsHeader,
    /// There is a results header, but no line begins with `Games:`.
    MissingStatsLine,
    /// A field of the stats line carries a value that is no integer (its text, trimmed).
    InvalidValue(StatKey, Vec<char>),
    /// The stats line has no field for this count.
    MissingField(StatKey),
}

/// What a report says, in terms of the report's text.
pub enum ScoreReading {
    Score(isize, isize, isize),
    NoHeader,
    NoStats,
    Invalid(StatKey, Seq<char>),
    Missing(StatKey),
}

pub open spec fn after_prefix(t: Seq<char>, p: Seq<char>) -> Seq<char> {
    t.subrange(p.len() as int, t.len() as int)
}

/// The count that one comma-separated piece of the stats line reports, with the text
/// of its value: the piece is trimmed, must begin with `Wins:`, `Draws:` or `Losses:`,
/// and what follows that label is trimmed again.
pub open spec fn stat_of(part: Seq<char>) -> Option<(StatKey, Seq<char>)> {
    let t = trim(part);
    if has_prefix(t, "Wins:"@) {
        Some((StatKey::Wins, trim(after_prefix(t, "Wins:"@))))
    } else if has_prefix(t, "Draws:"@) {
        Some((StatKey::Draws, trim(after_prefix(t, "Draws:"@))))
    } else if has_prefix(t, "Losses:"@) {
        Some((StatKey::Losses, trim(after_prefix(t, "Losses:"@))))
    } else {
        None
    }
}

/// The counts that the pieces report, in order.
pub open spec fn stat_entries(parts: Seq<Seq<char>>) -> Seq<(StatKey, Seq<char>)>
    decreases parts.len(),
{
    if parts.len() == 0 {
        seq![]
    } else {
        match stat_of(parts[0]) {
            Some(e) => seq![e] + stat_entries(parts.drop_first()),
            None => stat_entries(parts.drop_first()),
        }
    }
}

/// The value text of the last entry for `k`.
pub open spec fn last_value(es: Seq<(StatKey, Seq<char>)>, k: StatKey) -> Option<Seq<char>>
    decreases es.len(),
{
    if es.len() == 0 {
        None
    } else {
        match last_value(es.drop_first(), k) {
            Some(v) => Some(v),
            None => if es[0].0 == k {
                Some(es[0].1)
            } else {
                None
            },
        }
    }
}

/// The first entry whose value text is no integer.
pub open spec fn first_invalid(es: Seq<(StatKey, Seq<char>)>) -> Option<(StatKey, Seq<char>)>
    decreases es.len(),
{
    if es.len() == 0 {
        None
    } else if parse_isize_spec(es[0].1) is None {
        Some(es[0])
    } else {
        first_invalid(es.drop_first())
    }
}

pub open spec fn value_of(t: Option<Seq<char>>) -> isize {
    parse_isize_spec(t.unwrap()).unwrap()
}

/// What the entries of a stats line give: the first value that is no integer is an
/// error; otherwise each count is the last value given for it, and must be given.
pub open spec fn read_stats(es: Seq<(StatKey, Seq<char>)>) -> ScoreReading {
    match first_invalid(es) {
        Some((k, t)) => ScoreReading::Invalid(k, t),
        None => {
            let w = last_value(es, StatKey::Wins);
            let d = last_value(es, StatKey::Draws);
            let l = last_value(es, StatKey::Losses);
            if w is None {
                ScoreReading::Missing(StatKey::Wins)
            } else if d is None {
                ScoreReading::Missing(StatKey::Draws)
            } else if l is None {
                ScoreReading::Missing(StatKey::Losses)
            } else {
                ScoreReading::Score(value_of(w), value_of(d), value_of(l))
            }
        },
    }
}

/// What a fastchess report says: it needs a line beginning with `Results of`; its
/// stats are on the first line beginning with `Games:`, in comma-separated fields.
pub open spec fn read_score(output: Seq<char>) -> ScoreReading {
    if first_with_prefix(lines(output), "Results of"@) is None {
        ScoreReading::NoHeader
    } else {
        match first_with_prefix(lines(output), "Games:"@) {
            None => ScoreReading::NoStats,
            Some(line) => read_stats(stat_entries(split_on(line, ','))),
        }
    }
}

/// The reading that a result of `parse_score_checked` stands for.
pub open spec fn reading_of(r: Result<(isize, isize, isize), ScoreError>) -> ScoreReading {
    match r {
        Ok((w, d, l)) => ScoreReading::Score(w, d, l),
        Err(ScoreError::MissingResultsHeader) => ScoreReading::NoHeader,
        Err(ScoreError::MissingStatsLine) => ScoreReading::NoStats,
        Err(ScoreError::InvalidValue(k, t)) => ScoreReading::Invalid(k, t@),
        Err(ScoreError::MissingField(k)) => ScoreReading::Missing(k),
    }
}

pub open spec fn opt_value(g: Option<Seq<char>>) -> Option<isize> {
    match g {
        Some(t) => parse_isize_spec(t),
        None => None,
    }
}

pub open spec fn seen_valid(g: Option<Seq<char>>) -> bool {
    g matches Some(t) ==> parse_isize_spec(t) is Some
}

proof fn lemma_entries_step(parts: Seq<Seq<char>>)
    requires
        parts.len() > 0,
    ensures
        stat_entries(parts) == match stat_of(parts[0]) {
            Some(e) => seq![e] + stat_entries(parts.drop_first()),
            None => stat_entries(parts.drop_first()),
        },
{
}

proof fn lemma_prepend(e: (StatKey, Seq<char>), rest: Seq<(StatKey, Seq<char>)>)
    ensures
        (seq![e] + rest)[0] == e,
        (seq![e] + rest).drop_first() == rest,
        (seq![e] + rest).len() > 0,
{
    assert((seq![e] + rest).drop_first() =~= rest);
}

proof fn lemma_step(e: (StatKey, Seq<char>), after: Seq<(StatKey, Seq<char>)>)
    ensures
        parse_isize_spec(e.1) is Some ==> first_invalid(seq![e] + after) == first_invalid(after),
        parse_isize_spec(e.1) is None ==> first_invalid(seq![e] + after) == Some(e),
        forall|k: StatKey| #[trigger] last_value(seq![e] + after, k) == match last_value(after, k) {
            Some(v) => Some(v),
            None => if e.0 == k {
                Some(e.1)
            } else {
                None
            },
        },
{
    lemma_prepend(e, after);
}

/// The value text of a field labelled `label`, and the integer it writes.
fn labelled_value(t: &[char], label: &[char]) -> (r: Option<(Vec<char>, Option<isize>)>)
    ensures
        r is None <==> !has_prefix(t@, label@),
        r matches Some((v, n)) ==> v@ == trim(after_prefix(t@, label@)) && n == parse_isize_spec(v@),
{
    match strip_prefix(t, label) {
        Some(rest) => {
            let v = trim_chars(&rest);
            let n = parse_isize(&v);
            Some((v, n))
        },
        None => None,
    }
}

/// The reading of one piece of the stats line.
fn stat_of_part(part: &[char], wins: &[char], draws: &[char], losses: &[char]) -> (r: Option<(StatKey, Vec<char>, Option<isize>)>)
    requires
        wins@ == "Wins:"@,
        draws@ == "Draws:"@,
        losses@ == "Losses:"@,
    ensures
        match r {
            Some((k, v, n)) => stat_of(part@) == Some((k, v@)) && n == parse_isize_spec(v@),
            None => stat_of(part@) is None,
        },
{
    let t = trim_chars(part);
    if let Some((v, n)) = labelled_value(&t, wins) {
        return Some((StatKey::Wins, v, n));
    }
    if let Some((v, n)) = labelled_value(&t, draws) {
        return Some((StatKey::Draws, v, n));
    }
    if let Some((v, n)) = labelled_value(&t, losses) {
        return Some((StatKey::Losses, v, n));
    }
    None
}

/// Reads the counts from a stats line.
fn read_stats_line(line: &[char]) -> (r: Result<(isize, isize, isize), ScoreError>)
    ensures
        reading_of(r) == read_stats(stat_entries(split_on(line@, ','))),
{
    let wins_label = chars_of("Wins:");
    let draws_label = chars_of("Draws:");
    let losses_label = chars_of("Losses:");
    let len = line.len();
    let ghost all = stat_entries(split_on(line@, ','));
    let mut pos: usize = 0;
    let mut wins: Option<isize> = None;
    let mut draws: Option<isize> = None;
    let mut losses: Option<isize> = None;
    let ghost mut gw: Option<Seq<char>> = None;
    let ghost mut gd: Option<Seq<char>> = None;
    let ghost mut gl: Option<Seq<char>> = None;
    assert(line@.subrange(0, len as int) =~= line@);
    #[verifier::loop_isolation(false)]
    loop
        invariant
            pos <= len == line@.len(),
            wins_label@ == "Wins:"@,
            draws_label@ == "Draws:"@,
            losses_label@ == "Losses:"@,
            all == stat_entries(split_on(line@, ',')),
            first_invalid(all) == first_invalid(
                stat_entries(split_on(line@.subrange(pos as int, len as int), ',')),
            ),
            last_value(all, StatKey::Wins) == match last_value(
                stat_entries(split_on(line@.subrange(pos as int, len as int), ',')),
                StatKey::Wins,
            ) {
                Some(v) => Some(v),
                None => gw,
            },
            last_value(all, StatKey::Draws) == match last_value(
                stat_entries(split_on(line@.subrange(pos as int, len as int), ',')),
                StatKey::Draws,
            ) {
                Some(v) => Some(v),
                None => gd,
            },
            last_value(all, StatKey::Losses) == match last_value(
                stat_entries(split_on(line@.subrange(pos as int, len as int), ',')),
                StatKey::Losses,
            ) {
                Some(v) => Some(v),
                None => gl,
            },
            wins == opt_value(gw),
            draws == opt_value(gd),
            losses == opt_value(gl),
            seen_valid(gw),
            seen_valid(gd),
            seen_valid(gl),
        decreases len - pos,
    {
        let ghost rest = line@.subrange(pos as int, len as int);
        let j = find_char_from(line, pos, ',');
        proof {
            lemma_find_char(rest, ',');
        }
        let part = copy_range(line, pos, j);
        let ghost after: Seq<Seq<char>> = if j < len {
            split_on(line@.subrange(j + 1, len as int), ',')
        } else {
            Seq::empty()
        };
        proof {
            assert(rest.subrange(0, j - pos) =~= part@);
            if j < len {
                assert(rest.subrange(j - pos + 1, rest.len() as int) =~= line@.subrange(
                    j + 1,
                    len as int,
                ));
                assert(split_on(rest, ',') == seq![part@] + after);
            } else {
                assert(part@ =~= rest);
                assert(split_on(rest, ',') == seq![part@]);
                assert(seq![part@] =~= seq![part@] + after);
            }
            let ps = seq![part@] + after;
            assert(ps[0] == part@);
            assert(ps.drop_first() =~= after);
            lemma_entries_step(ps);
        }
        let ghost es_after = stat_entries(after);
        let ghost es_rest = stat_entries(split_on(rest, ','));
        match stat_of_part(&part, &wins_label, &draws_label, &losses_label) {
            Some((k, v, n)) => {
                proof {
                    lemma_step((k, v@), es_after);
                    assert(es_rest == seq![(k, v@)] + es_after);
                }
                match n {
                    None => {
                        return Err(ScoreError::InvalidValue(k, v));
                    },
                    Some(x) => {
                        match k {
                            StatKey::Wins => {
                                wins = Some(x);
                                proof {
                                    gw = Some(v@);
                                }
                            },
                            StatKey::Draws => {
                                draws = Some(x);
                                proof {
                                    gd = Some(v@);
                                }
                            },
                            StatKey::Losses => {
                                losses = Some(x);
                                proof {
                                    gl = Some(v@);
                                }
                            },
                        }
                    },
                }
            },
            None => {
                assert(es_rest == es_after);
            },
        }
        if j == len {
            assert(es_after =~= Seq::<(StatKey, Seq<char>)>::empty());
            assert(first_invalid(all) is None);
            return match (wins, draws, losses) {
                (None, _, _) => Err(ScoreError::MissingField(StatKey::Wins)),
                (_, None, _) => Err(ScoreError::MissingField(StatKey::Draws)),
                (_, _, None) => Err(ScoreError::MissingField(StatKey::Losses)),
                (Some(w), Some(d), Some(l)) => Ok((w, d, l)),
            };
        }
        pos = j + 1;
    }
}

/// Reads the score of a fastchess match from its report: `(wins, draws, losses)` of
/// the first engine, or why the report holds none.
pub fn parse_score_checked(output: &str) -> (r: Result<(isize, isize, isize), ScoreError>)
    ensures
        reading_of(r) == read_score(output@),
{
    let text = chars_of(output);
    let header = chars_of("Results of");
    if first_line_with_prefix(&text, &header).is_none() {
        return Err(ScoreError::MissingResultsHeader);
    }
    let games = chars_of("Games:");
    match first_line_with_prefix(&text, &games) {
        None => Err(ScoreError::MissingStatsLine),
        Some(line) => read_stats_line(&line),
    }
}

/// The score read from a report depends only on whether it has a results header and on
/// its first stats line: the other lines, later stats lines and where the header stands
/// do not matter.
pub proof fn law_score_reads_header_and_stats_line(o1: Seq<char>, o2: Seq<char>)
    requires
        (first_with_prefix(lines(o1), "Results of"@) is Some) == (first_with_prefix(
            lines(o2),
            "Results of"@,
        ) is Some),
        first_with_prefix(lines(o1), "Games:"@) == first_with_prefix(lines(o2), "Games:"@),
    ensures
        read_score(o1) == read_score(o2),
{
}

/// A report whose stats line, where there is one, gives each count exactly as an integer.
pub open spec fn stats_well_formed(output: Seq<char>) -> bool {
    !(read_score(output) is Invalid) && !(read_score(output) is Missing)
}

/// Reads the score `(wins, draws, losses)` of a fastchess match from its report, for a
/// report whose stats line gives each count as an integer.
pub fn parse_score(output: &str) -> (r: Result<(isize, isize, isize), ScoreError>)
    requires
        stats_well_formed(output@),
    ensures
        reading_of(r) == read_score(output@),
        r is Ok <==> read_score(output@) is Score,
        r matches Err(e) ==> (e is MissingResultsHeader || e is MissingStatsLine),
{
    parse_score_checked(output)
}

} // verus!
