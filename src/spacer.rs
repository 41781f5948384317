//! Report on or fix beginning of line spacing.
//!
//! The leading run of a line is the spaces and tabs before its first other character.
//! [`read_bol_info`] sorts lines by what their leading run holds, and [`write_new_bols`]
//! writes the text again with every leading run turned into spaces, or into tabs at a
//! given tab width.
//!
//! Both read the text with one state machine. At the beginning of a line a space or a tab
//! is added to the run; any other character, a line feed too, ends the run, which is then
//! counted (and rewritten), and the line goes on. Inside a line only a line feed starts the
//! next one. A run that the end of the text cuts off is neither counted nor written.

use vstd::prelude::*;
use crate::utf8::{
    decode, decoded_utf8, lemma_utf8_of_str_append, lemma_utf8_of_str_push, push_utf8, utf8_of_str,
    DecodeError,
};

verus! {

/// Types of line beginnings.
#[derive(Debug, Clone, Copy, PartialEq, Eq, Structural)]
pub enum BeginningOfLine {
    /// Tabs, each one for `tab_width` columns; the columns left over are kept as spaces,
    /// or dropped when `round_down` is set.
    Tabs { tab_width: usize, round_down: bool },
    /// Spaces, with tabs taken to stop every `tab_width` columns.
    Spaces { tab_width: usize },
}

impl BeginningOfLine {
    /// The tab width that a rewrite uses: the one given, or 1 in place of 0.
    pub open spec fn width(&self) -> nat {
        let w = match *self {
            BeginningOfLine::Tabs { tab_width, .. } => tab_width,
            BeginningOfLine::Spaces { tab_width } => tab_width,
        };
        if w == 0 {
            1
        } else {
            w as nat
        }
    }
}

/// A space or a tab: the characters of a leading run.
pub open spec fn is_blank(c: char) -> bool {
    c == ' ' || c == '\t'
}

/// The leading runs that end before the end of `cs`, in order, for a scan that starts in
/// the state `at_bol`, with `run` gathered so far.
pub open spec fn runs_from(cs: Seq<char>, at_bol: bool, run: Seq<char>) -> Seq<Seq<char>>
    decreases cs.len(),
{
    if cs.len() == 0 {
        Seq::empty()
    } else if at_bol {
        if is_blank(cs[0]) {
            runs_from(cs.skip(1), true, run.push(cs[0]))
        } else {
            seq![run] + runs_from(cs.skip(1), false, Seq::empty())
        }
    } else {
        runs_from(cs.skip(1), cs[0] == '\n', Seq::empty())
    }
}

/// The leading runs of the lines of `cs` that a character other than a space or a tab
/// ends.
pub open spec fn leading_runs(cs: Seq<char>) -> Seq<Seq<char>> {
    runs_from(cs, true, Seq::empty())
}

/// How one run counts, as `(none, spaces, tabs, mixed)`: empty, spaces only, tabs only,
/// or both.
pub open spec fn run_class(run: Seq<char>) -> (nat, nat, nat, nat) {
    let s = run.contains(' ');
    let t = run.contains('\t');
    if !s && !t {
        (1, 0, 0, 0)
    } else if s && t {
        (0, 0, 0, 1)
    } else if s {
        (0, 1, 0, 0)
    } else {
        (0, 0, 1, 0)
    }
}

/// The runs counted by class, as `(none, spaces, tabs, mixed)`.
pub open spec fn bol_tally(runs: Seq<Seq<char>>) -> (nat, nat, nat, nat)
    decreases runs.len(),
{
    if runs.len() == 0 {
        (0, 0, 0, 0)
    } else {
        let t = bol_tally(runs.drop_last());
        let c = run_class(runs.last());
        (t.0 + c.0, t.1 + c.1, t.2 + c.2, t.3 + c.3)
    }
}

/// The column that `run` reaches from column 0 when tabs stop every `w` columns: a space
/// takes one column, and a tab takes the columns up to the next multiple of `w`.
pub open spec fn column(run: Seq<char>, w: nat) -> nat
    decreases run.len(),
{
    if run.len() == 0 {
        0
    } else {
        let p = column(run.drop_last(), w);
        if run.last() == '\t' {
            p + (w - p % w) as nat
        } else {
            p + 1
        }
    }
}

/// `n` spaces.
pub open spec fn spaces(n: nat) -> Seq<char> {
    Seq::new(n, |_i: int| ' ')
}

/// `n` tabs.
pub open spec fn tabs(n: nat) -> Seq<char> {
    Seq::new(n, |_i: int| '\t')
}

/// What a leading run is rewritten to. Its tabs are first expanded to spaces at the tab
/// width of `k`. For spaces that is the result; for tabs, each full tab width of those
/// spaces becomes one tab, and the spaces left over follow, or are dropped when rounding
/// down.
pub open spec fn converted_run(run: Seq<char>, k: BeginningOfLine) -> Seq<char> {
    let w = k.width();
    let col = column(run, w);
    match k {
        BeginningOfLine::Tabs { round_down, .. } => tabs(col / w) + if round_down {
            Seq::empty()
        } else {
            spaces(col % w)
        },
        BeginningOfLine::Spaces { .. } => spaces(col),
    }
}

/// The runs as they are written when rewriting to `k`.
pub open spec fn emitted_runs(runs: Seq<Seq<char>>, k: BeginningOfLine) -> Seq<Seq<char>> {
    runs.map_values(|run: Seq<char>| converted_run(run, k))
}

/// The rest of the rewrite to `k` of a text, from the state `at_bol` with `run` gathered
/// so far and the rest of the text `cs`: a run that a character ends is written as
/// [`converted_run`] gives it, followed by that character; all else is copied.
pub open spec fn rewrite_bols_from(cs: Seq<char>, k: BeginningOfLine, at_bol: bool, run: Seq<
    char,
>) -> Seq<char>
    decreases cs.len(),
{
    if cs.len() == 0 {
        Seq::empty()
    } else if at_bol {
        if is_blank(cs[0]) {
            rewrite_bols_from(cs.skip(1), k, true, run.push(cs[0]))
        } else {
            converted_run(run, k) + seq![cs[0]] + rewrite_bols_from(
                cs.skip(1),
                k,
                false,
                Seq::empty(),
            )
        }
    } else {
        seq![cs[0]] + rewrite_bols_from(cs.skip(1), k, cs[0] == '\n', Seq::empty())
    }
}

/// `cs` with the leading run of each line rewritten to `k`.
pub open spec fn rewrite_bols(cs: Seq<char>, k: BeginningOfLine) -> Seq<char> {
    rewrite_bols_from(cs, k, true, Seq::empty())
}

/// The run still gathered when `cs` ends, for a scan that starts in the state `at_bol`
/// with `run` gathered so far: empty unless the text ends at the beginning of a line.
pub open spec fn pending_from(cs: Seq<char>, at_bol: bool, run: Seq<char>) -> Seq<char>
    decreases cs.len(),
{
    if cs.len() == 0 {
        if at_bol {
            run
        } else {
            Seq::empty()
        }
    } else if at_bol && is_blank(cs[0]) {
        pending_from(cs.skip(1), true, run.push(cs[0]))
    } else if at_bol {
        pending_from(cs.skip(1), false, Seq::empty())
    } else {
        pending_from(cs.skip(1), cs[0] == '\n', Seq::empty())
    }
}

/// The spaces and tabs at the end of `cs` that no other character ends, on a line whose
/// leading run they are; a rewrite drops them.
pub open spec fn pending_run(cs: Seq<char>) -> Seq<char> {
    pending_from(cs, true, Seq::empty())
}

/// Information about line beginnings in the file.
#[derive(Debug, Clone, Copy, PartialEq, Eq, Structural)]
pub struct BolInfo {
    /// Number of lines that have no whitespace at the beginning
    pub none: usize,
    /// Number of all space line beginnings
    pub spaces: usize,
    /// Number of all tab line beginnings
    pub tabs: usize,
    /// Number of mixed space/tab line beginnings
    pub mixed: usize,
}

impl BolInfo {
    /// The counts, as `(none, spaces, tabs, mixed)`.
    pub open spec fn tally(&self) -> (nat, nat, nat, nat) {
        (self.none as nat, self.spaces as nat, self.tabs as nat, self.mixed as nat)
    }

    /// Get the most common beginning of line type in the file: tabs where more lines
    /// begin with tabs only than with spaces only, spaces otherwise.
    pub fn get_common_bol(&self, tab_width: usize, round_down: bool) -> (r: BeginningOfLine)
        ensures
            self.tabs > self.spaces ==> r == (BeginningOfLine::Tabs { tab_width, round_down }),
            self.tabs <= self.spaces ==> r == (BeginningOfLine::Spaces { tab_width }),
    {
        if self.tabs > self.spaces {
            BeginningOfLine::Tabs { tab_width, round_down }
        } else {
            BeginningOfLine::Spaces { tab_width }
        }
    }
}

/// A run with one more character holds what the run held and that character.
proof fn lemma_contains_push(run: Seq<char>, c: char, x: char)
    ensures
        run.push(c).contains(x) <==> (run.contains(x) || c == x),
{
    if run.contains(x) {
        let j = choose|j: int| 0 <= j < run.len() && run[j] == x;
        assert(run.push(c)[j] == x);
    }
    if c == x {
        assert(run.push(c)[run.len() as int] == x);
    }
    if run.push(c).contains(x) {
        let j = choose|j: int| 0 <= j < run.push(c).len() && run.push(c)[j] == x;
        if j < run.len() {
            assert(run[j] == x);
        }
    }
}

/// Counts one more run, given whether it holds a space and whether it holds a tab.
fn record_run(info: &mut BolInfo, has_space: bool, has_tab: bool, Ghost(runs): Ghost<
    Seq<Seq<char>>,
>, Ghost(run): Ghost<Seq<char>>)
    requires
        old(info).tally() == bol_tally(runs),
        old(info).none + old(info).spaces + old(info).tabs + old(info).mixed < usize::MAX,
        has_space <==> run.contains(' '),
        has_tab <==> run.contains('\t'),
    ensures
        final(info).tally() == bol_tally(runs.push(run)),
        final(info).none + final(info).spaces + final(info).tabs + final(info).mixed == old(
            info,
        ).none + old(info).spaces + old(info).tabs + old(info).mixed + 1,
{
    assert(runs.push(run).drop_last() =~= runs);
    if !has_space && !has_tab {
        info.none += 1;
    } else if has_space && has_tab {
        info.mixed += 1;
    } else if has_space {
        info.spaces += 1;
    } else {
        info.tabs += 1;
    }
}

/// Counts the lines of `chars` by what their leading run holds.
pub fn count_bols(chars: &[char]) -> (info: BolInfo)
    ensures
        info.tally() == bol_tally(leading_runs(chars@)),
{
    let n = chars.len();
    let mut info = BolInfo { none: 0, spaces: 0, tabs: 0, mixed: 0 };
    let mut at_bol = true;
    let mut has_space = false;
    let mut has_tab = false;
    let mut i: usize = 0;
    let ghost run: Seq<char> = Seq::empty();
    let ghost runs: Seq<Seq<char>> = Seq::empty();
    assert(chars@.subrange(0, n as int) =~= chars@);
    assert(runs + leading_runs(chars@) =~= leading_runs(chars@));
    while i < n
        invariant
            0 <= i <= n,
            n == chars@.len(),
            leading_runs(chars@) == runs + runs_from(
                chars@.subrange(i as int, n as int),
                at_bol,
                run,
            ),
            info.tally() == bol_tally(runs),
            info.none + info.spaces + info.tabs + info.mixed == runs.len(),
            runs.len() <= i,
            has_space <==> run.contains(' '),
            has_tab <==> run.contains('\t'),
            !at_bol ==> run.len() == 0,
        decreases n - i,
    {
        let ghost s = chars@.subrange(i as int, n as int);
        assert(!Seq::<char>::empty().contains(' ') && !Seq::<char>::empty().contains('\t'));
        assert(s.skip(1) =~= chars@.subrange(i as int + 1, n as int));
        let c = chars[i];
        if at_bol {
            if c == ' ' || c == '\t' {
                proof {
                    lemma_contains_push(run, c, ' ');
                    lemma_contains_push(run, c, '\t');
                    run = run.push(c);
                }
                if c == ' ' {
                    has_space = true;
                } else {
                    has_tab = true;
                }
            } else {
                record_run(&mut info, has_space, has_tab, Ghost(runs), Ghost(run));
                proof {
                    assert(runs + runs_from(s, at_bol, run) =~= runs.push(run) + runs_from(
                        s.skip(1),
                        false,
                        Seq::empty(),
                    ));
                    runs = runs.push(run);
                    run = Seq::empty();
                }
                has_space = false;
                has_tab = false;
                at_bol = false;
            }
        } else {
            assert(run =~= Seq::<char>::empty());
            if c == '\n' {
                at_bol = true;
            }
        }
        i += 1;
    }
    assert(chars@.subrange(n as int, n as int) =~= Seq::<char>::empty());
    assert(runs + Seq::<Seq<char>>::empty() =~= runs);
    info
}

/// A run of spaces reaches the column of its length.
proof fn lemma_column_spaces(n: nat, w: nat)
    ensures
        column(spaces(n), w) == n,
    decreases n,
{
    if n > 0 {
        assert(spaces(n).drop_last() =~= spaces((n - 1) as nat));
        lemma_column_spaces((n - 1) as nat, w);
    }
}

/// A run of `q` tabs reaches column `q * w`.
proof fn lemma_column_tabs(q: nat, w: nat)
    requires
        w >= 1,
    ensures
        column(tabs(q), w) == q * w,
    decreases q,
{
    if q > 0 {
        let p = (q - 1) as nat;
        assert(tabs(q).drop_last() =~= tabs(p));
        lemma_column_tabs(p, w);
        vstd::arithmetic::div_mod::lemma_mod_multiples_basic(p as int, w as int);
        assert(tabs(q).last() == '\t');
        assert(((p * w) as int) % (w as int) == 0);
        assert(column(tabs(q), w) == p * w + w);
        assert(p * w + w == q * w) by (nonlinear_arith)
            requires
                p + 1 == q,
        ;
    } else {
        assert(q * w == 0) by (nonlinear_arith)
            requires
                q == 0,
        ;
    }
}

/// Every run is spaces only, a multiple of `w` long.
pub open spec fn spaces_in_whole_tabs(runs: Seq<Seq<char>>, w: nat) -> bool {
    forall|i: int|
        0 <= i < runs.len() ==> #[trigger] runs[i] == spaces(runs[i].len()) && runs[i].len() % w
            == 0
}

/// Spaces in a multiple of the tab width become tabs and then the same spaces again.
proof fn lemma_run_round_trip(run: Seq<char>, tab_width: usize, round_down: bool)
    requires
        run == spaces(run.len()),
        run.len() % (BeginningOfLine::Spaces { tab_width }).width() == 0,
    ensures
        converted_run(run, BeginningOfLine::Tabs { tab_width, round_down }) == tabs(
            run.len() / (BeginningOfLine::Spaces { tab_width }).width(),
        ),
        converted_run(
            converted_run(run, BeginningOfLine::Tabs { tab_width, round_down }),
            BeginningOfLine::Spaces { tab_width },
        ) == run,
{
    let w = (BeginningOfLine::Spaces { tab_width }).width();
    let q = run.len() / w;
    lemma_column_spaces(run.len(), w);
    assert(spaces(0) =~= Seq::<char>::empty());
    assert(tabs(q) + Seq::<char>::empty() =~= tabs(q));
    lemma_column_tabs(q, w);
    vstd::arithmetic::div_mod::lemma_fundamental_div_mod(run.len() as int, w as int);
    assert(q * w == w * q) by (nonlinear_arith);
}

/// Spaces and tabs read at the beginning of a line only add to the run.
proof fn lemma_rewrite_blanks(u: Seq<char>, rest: Seq<char>, k: BeginningOfLine, run: Seq<char>)
    requires
        forall|j: int| 0 <= j < u.len() ==> is_blank(#[trigger] u[j]),
    ensures
        rewrite_bols_from(u + rest, k, true, run) == rewrite_bols_from(rest, k, true, run + u),
    decreases u.len(),
{
    if u.len() == 0 {
        assert(u + rest =~= rest);
        assert(run + u =~= run);
    } else {
        assert((u + rest)[0] == u[0]);
        assert((u + rest).skip(1) =~= u.skip(1) + rest);
        assert(run.push(u[0]) + u.skip(1) =~= run + u);
        lemma_rewrite_blanks(u.skip(1), rest, k, run.push(u[0]));
    }
}

/// The round trip from the state `at_bol` with `run` gathered so far.
proof fn lemma_round_trip_from(
    cs: Seq<char>,
    at_bol: bool,
    run: Seq<char>,
    tab_width: usize,
    round_down: bool,
)
    requires
        spaces_in_whole_tabs(
            runs_from(cs, at_bol, run),
            (BeginningOfLine::Spaces { tab_width }).width(),
        ),
        pending_from(cs, at_bol, run).len() == 0,
        !at_bol ==> run.len() == 0,
    ensures
        rewrite_bols_from(
            rewrite_bols_from(cs, BeginningOfLine::Tabs { tab_width, round_down }, at_bol, run),
            BeginningOfLine::Spaces { tab_width },
            at_bol,
            Seq::empty(),
        ) == run + cs,
    decreases cs.len(),
{
    let t = BeginningOfLine::Tabs { tab_width, round_down };
    let sp = BeginningOfLine::Spaces { tab_width };
    if cs.len() == 0 {
        assert(run + cs =~= run);
    } else {
        let c = cs[0];
        let rest = cs.skip(1);
        if at_bol && is_blank(c) {
            lemma_round_trip_from(rest, true, run.push(c), tab_width, round_down);
            assert(run.push(c) + rest =~= run + cs);
        } else if at_bol {
            let all = runs_from(cs, at_bol, run);
            let later = runs_from(rest, false, Seq::<char>::empty());
            assert(all == seq![run] + later);
            assert(all[0] == run);
            assert forall|i: int| 0 <= i < later.len() implies #[trigger] later[i] == spaces(
                later[i].len(),
            ) && later[i].len() % sp.width() == 0 by {
                assert(all[i + 1] == later[i]);
            }
            lemma_round_trip_from(rest, false, Seq::empty(), tab_width, round_down);
            lemma_run_round_trip(run, tab_width, round_down);
            let conv = converted_run(run, t);
            let tail = rewrite_bols_from(rest, t, false, Seq::empty());
            assert(conv + seq![c] + tail =~= conv + (seq![c] + tail));
            lemma_rewrite_blanks(conv, seq![c] + tail, sp, Seq::empty());
            assert(Seq::<char>::empty() + conv =~= conv);
            assert((seq![c] + tail)[0] == c);
            assert((seq![c] + tail).skip(1) =~= tail);
            assert(run + seq![c] + rest =~= run + cs);
        } else {
            let tail = rewrite_bols_from(rest, t, c == '\n', Seq::empty());
            lemma_round_trip_from(rest, c == '\n', Seq::empty(), tab_width, round_down);
            assert((seq![c] + tail)[0] == c);
            assert((seq![c] + tail).skip(1) =~= tail);
            assert(seq![c] + rest =~= cs);
            assert(run + cs =~= cs);
        }
    }
}

/// Rewriting a text whose leading runs are all spaces, each a multiple of the tab width
/// long, to tabs and then back to spaces at the same tab width gives the text back. (A
/// run that the end of the text cuts off is dropped by a rewrite, so the text must not
/// end in one.)
pub proof fn lemma_spaces_tabs_spaces_round_trip(cs: Seq<char>, tab_width: usize, round_down: bool)
    requires
        spaces_in_whole_tabs(leading_runs(cs), (BeginningOfLine::Spaces { tab_width }).width()),
        pending_run(cs).len() == 0,
    ensures
        rewrite_bols(
            rewrite_bols(cs, BeginningOfLine::Tabs { tab_width, round_down }),
            BeginningOfLine::Spaces { tab_width },
        ) == cs,
{
    lemma_round_trip_from(cs, true, Seq::empty(), tab_width, round_down);
    assert(Seq::<char>::empty() + cs =~= cs);
}

/// Expands the tabs of `run` to spaces, with tab stops every `w` columns.
fn untabify(run: &Vec<char>, w: usize) -> (t: Vec<char>)
    requires
        w >= 1,
        forall|j: int| 0 <= j < run@.len() ==> is_blank(#[trigger] run@[j]),
    ensures
        t@ == spaces(column(run@, w as nat)),
{
    let mut t: Vec<char> = Vec::new();
    let mut j: usize = 0;
    assert(run@.take(0) =~= Seq::<char>::empty());
    assert(t@ =~= spaces(0));
    while j < run.len()
        invariant
            w >= 1,
            0 <= j <= run@.len(),
            forall|j: int| 0 <= j < run@.len() ==> is_blank(#[trigger] run@[j]),
            t@ == spaces(column(run@.take(j as int), w as nat)),
        decreases run@.len() - j,
    {
        assert(run@.take(j + 1).drop_last() =~= run@.take(j as int));
        if run[j] == '\t' {
            let add = w - t.len() % w;
            let mut m: usize = 0;
            let ghost p = t@.len();
            while m < add
                invariant
                    0 <= m <= add,
                    t@ == spaces(p + m as nat),
                decreases add - m,
            {
                t.push(' ');
                m += 1;
                assert(t@ =~= spaces(p + m as nat));
            }
        } else {
            let ghost p = t@.len();
            t.push(' ');
            assert(t@ =~= spaces(p + 1));
        }
        j += 1;
    }
    assert(run@.take(run@.len() as int) =~= run@);
    t
}

/// Turns each full `w` of the spaces `t` into a tab; the spaces left over follow, or are
/// dropped when `round_down` is set.
fn tabify(t: &Vec<char>, w: usize, round_down: bool) -> (r: Vec<char>)
    requires
        w >= 1,
    ensures
        r@ == tabs(t@.len() / w as nat) + if round_down {
            Seq::empty()
        } else {
            spaces(t@.len() % w as nat)
        },
{
    let mut r: Vec<char> = Vec::new();
    let mut num_spaces: usize = 0;
    let mut j: usize = 0;
    assert(r@ =~= tabs(0));
    while j < t.len()
        invariant
            w >= 1,
            0 <= j <= t@.len(),
            num_spaces < w,
            j == r@.len() * w + num_spaces,
            r@ == tabs(r@.len()),
        decreases t@.len() - j,
    {
        num_spaces += 1;
        if num_spaces == w {
            let ghost q = r@.len();
            r.push('\t');
            assert(r@ =~= tabs(q + 1));
            num_spaces = 0;
            assert((q + 1) * w == q * w + w) by (nonlinear_arith);
        }
        j += 1;
    }
    let ghost q = r@.len();
    proof {
        vstd::arithmetic::div_mod::lemma_fundamental_div_mod_converse(
            t@.len() as int,
            w as int,
            q as int,
            num_spaces as int,
        );
    }
    if !round_down {
        let mut m: usize = 0;
        while m < num_spaces
            invariant
                0 <= m <= num_spaces,
                r@ == tabs(q) + spaces(m as nat),
            decreases num_spaces - m,
        {
            r.push(' ');
            m += 1;
            assert(r@ =~= tabs(q) + spaces(m as nat));
        }
    } else {
        assert(r@ =~= tabs(q) + Seq::<char>::empty());
    }
    r
}

/// Rewrites a leading run to `new_bol`.
fn convert_run(run: &Vec<char>, new_bol: BeginningOfLine) -> (r: Vec<char>)
    requires
        forall|j: int| 0 <= j < run@.len() ==> is_blank(#[trigger] run@[j]),
    ensures
        r@ == converted_run(run@, new_bol),
{
    match new_bol {
        BeginningOfLine::Tabs { tab_width, round_down } => {
            let w = if tab_width == 0 {
                1
            } else {
                tab_width
            };
            let t = untabify(run, w);
            tabify(&t, w, round_down)
        },
        BeginningOfLine::Spaces { tab_width } => {
            let w = if tab_width == 0 {
                1
            } else {
                tab_width
            };
            untabify(run, w)
        },
    }
}

/// Whether `run` holds a space, and whether it holds a tab.
fn classify(run: &Vec<char>) -> (r: (bool, bool))
    ensures
        r.0 <==> run@.contains(' '),
        r.1 <==> run@.contains('\t'),
{
    let mut has_space = false;
    let mut has_tab = false;
    let mut j: usize = 0;
    assert(run@.take(0) =~= Seq::<char>::empty());
    while j < run.len()
        invariant
            0 <= j <= run@.len(),
            has_space <==> run@.take(j as int).contains(' '),
            has_tab <==> run@.take(j as int).contains('\t'),
        decreases run@.len() - j,
    {
        assert(run@.take(j + 1) =~= run@.take(j as int).push(run@[j as int]));
        proof {
            lemma_contains_push(run@.take(j as int), run@[j as int], ' ');
            lemma_contains_push(run@.take(j as int), run@[j as int], '\t');
        }
        if run[j] == ' ' {
            has_space = true;
        } else if run[j] == '\t' {
            has_tab = true;
        }
        j += 1;
    }
    assert(run@.take(run@.len() as int) =~= run@);
    (has_space, has_tab)
}

/// Appends the UTF-8 encoding of `cs` to `out`.
fn push_chars(out: &mut Vec<u8>, cs: &Vec<char>)
    ensures
        final(out)@ == old(out)@ + utf8_of_str(cs@),
{
    let mut j: usize = 0;
    assert(cs@.take(0) =~= Seq::<char>::empty());
    assert(utf8_of_str(Seq::empty()) =~= Seq::<u8>::empty());
    assert(out@ =~= old(out)@ + utf8_of_str(cs@.take(0)));
    while j < cs.len()
        invariant
            0 <= j <= cs@.len(),
            out@ == old(out)@ + utf8_of_str(cs@.take(j as int)),
        decreases cs@.len() - j,
    {
        assert(cs@.take(j + 1) =~= cs@.take(j as int).push(cs@[j as int]));
        proof {
            lemma_utf8_of_str_push(cs@.take(j as int), cs@[j as int]);
        }
        push_utf8(out, cs[j]);
        j += 1;
    }
    assert(cs@.take(cs@.len() as int) =~= cs@);
}

/// Appends `chars` to `output` in UTF-8 with the leading run of each line rewritten to
/// `new_bol`, and counts the lines by what their rewritten run holds.
pub fn convert_bols(chars: &[char], output: &mut Vec<u8>, new_bol: BeginningOfLine) -> (info:
    BolInfo)
    ensures
        final(output)@ == old(output)@ + utf8_of_str(rewrite_bols(chars@, new_bol)),
        info.tally() == bol_tally(emitted_runs(leading_runs(chars@), new_bol)),
{
    let n = chars.len();
    let mut info = BolInfo { none: 0, spaces: 0, tabs: 0, mixed: 0 };
    let mut at_bol = true;
    let mut run: Vec<char> = Vec::new();
    let mut i: usize = 0;
    let ghost runs: Seq<Seq<char>> = Seq::empty();
    let ghost done: Seq<char> = Seq::empty();
    assert(chars@.subrange(0, n as int) =~= chars@);
    assert(runs + leading_runs(chars@) =~= leading_runs(chars@));
    assert(done + rewrite_bols(chars@, new_bol) =~= rewrite_bols(chars@, new_bol));
    assert(utf8_of_str(Seq::empty()) =~= Seq::<u8>::empty());
    assert(output@ =~= old(output)@ + utf8_of_str(done));
    assert(emitted_runs(runs, new_bol) =~= Seq::<Seq<char>>::empty());
    assert(run@ =~= Seq::<char>::empty());
    while i < n
        invariant
            0 <= i <= n,
            n == chars@.len(),
            leading_runs(chars@) == runs + runs_from(
                chars@.subrange(i as int, n as int),
                at_bol,
                run@,
            ),
            rewrite_bols(chars@, new_bol) == done + rewrite_bols_from(
                chars@.subrange(i as int, n as int),
                new_bol,
                at_bol,
                run@,
            ),
            output@ == old(output)@ + utf8_of_str(done),
            info.tally() == bol_tally(emitted_runs(runs, new_bol)),
            info.none + info.spaces + info.tabs + info.mixed == runs.len(),
            runs.len() <= i,
            forall|j: int| 0 <= j < run@.len() ==> is_blank(#[trigger] run@[j]),
            !at_bol ==> run@.len() == 0,
        decreases n - i,
    {
        let ghost s = chars@.subrange(i as int, n as int);
        assert(s.skip(1) =~= chars@.subrange(i as int + 1, n as int));
        let c = chars[i];
        if at_bol {
            if c == ' ' || c == '\t' {
                run.push(c);
            } else {
                let converted = convert_run(&run, new_bol);
                let (has_space, has_tab) = classify(&converted);
                record_run(
                    &mut info,
                    has_space,
                    has_tab,
                    Ghost(emitted_runs(runs, new_bol)),
                    Ghost(converted@),
                );
                push_chars(output, &converted);
                push_utf8(output, c);
                proof {
                    assert(emitted_runs(runs.push(run@), new_bol) =~= emitted_runs(
                        runs,
                        new_bol,
                    ).push(converted@));
                    assert(runs + runs_from(s, at_bol, run@) =~= runs.push(run@) + runs_from(
                        s.skip(1),
                        false,
                        Seq::empty(),
                    ));
                    lemma_utf8_of_str_append(done, converted@);
                    lemma_utf8_of_str_push(done + converted@, c);
                    assert(done + rewrite_bols_from(s, new_bol, at_bol, run@) =~= (done
                        + converted@).push(c) + rewrite_bols_from(
                        s.skip(1),
                        new_bol,
                        false,
                        Seq::empty(),
                    ));
                    runs = runs.push(run@);
                    done = (done + converted@).push(c);
                }
                run.clear();
                at_bol = false;
            }
        } else {
            assert(run@ =~= Seq::<char>::empty());
            push_utf8(output, c);
            proof {
                lemma_utf8_of_str_push(done, c);
                assert(done + rewrite_bols_from(s, new_bol, at_bol, run@) =~= done.push(c)
                    + rewrite_bols_from(s.skip(1), new_bol, c == '\n', Seq::empty()));
                done = done.push(c);
            }
            if c == '\n' {
                at_bol = true;
            }
        }
        i += 1;
    }
    assert(chars@.subrange(n as int, n as int) =~= Seq::<char>::empty());
    assert(runs + Seq::<Seq<char>>::empty() =~= runs);
    assert(done + Seq::<char>::empty() =~= done);
    info
}

/// Read beginning of line information.
///
/// Fails with [`DecodeError`] exactly where the input is not UTF-8 that the decoder reads;
/// otherwise counts the lines of the decoded text by what their leading run holds.
pub fn read_bol_info(input: &[u8]) -> (r: Result<BolInfo, DecodeError>)
    ensures
        r is Ok <==> decoded_utf8(input@) is Some,
        r matches Ok(info) ==> info.tally() == bol_tally(leading_runs(decoded_utf8(input@)->0)),
        forall|cs: Seq<char>| #[trigger]
            utf8_of_str(cs) == input@ ==> decoded_utf8(input@) == Some(cs),
{
    let chars = decode(input)?;
    Ok(count_bols(chars.as_slice()))
}

/// Write input file out with new beginning-of-lines.
///
/// Appends the decoded text to `output` with the leading run of each line rewritten to
/// `new_bol`, and counts the lines by what their rewritten run holds. On input that does
/// not decode it fails with [`DecodeError`] and leaves `output` as it was.
pub fn write_new_bols(input: &[u8], output: &mut Vec<u8>, new_bol: BeginningOfLine) -> (r:
    Result<BolInfo, DecodeError>)
    ensures
        r is Ok <==> decoded_utf8(input@) is Some,
        r matches Ok(info) ==> final(output)@ == old(output)@ + utf8_of_str(
            rewrite_bols(decoded_utf8(input@)->0, new_bol),
        ) && info.tally() == bol_tally(
            emitted_runs(leading_runs(decoded_utf8(input@)->0), new_bol),
        ),
        r is Err ==> final(output)@ == old(output)@,
        forall|cs: Seq<char>| #[trigger]
            utf8_of_str(cs) == input@ ==> decoded_utf8(input@) == Some(cs),
{
    let chars = decode(input)?;
    Ok(convert_bols(chars.as_slice(), output, new_bol))
}

} // verus!
