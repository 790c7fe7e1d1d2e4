//! The two capabilities of the library: a state representation that can be
//! built cell by cell, and a text that can be parsed into such a state.

use vstd::prelude::*;

use vstd::string::StrSliceExecFns;

use crate::grid::grid_cols;
use crate::grid::grid_live;
use crate::grid::grid_rows;
use crate::grid::lemma_line_split_single;
use crate::grid::lemma_line_split_step;
use crate::grid::lemma_live_upto_dead;
use crate::grid::lemma_live_upto_done;
use crate::grid::lemma_live_upto_live;
use crate::grid::lemma_live_upto_row;
use crate::grid::lemma_live_upto_start;
use crate::grid::line_split;
use crate::grid::live_upto;
use crate::grid::max_line_len;
use crate::grid::strip_cr;

verus! {

/// A concrete representation of a cellular-automaton state. Implementing
/// types expose their dimensions and their set of live coordinates as
/// specification-level views; the three operations build a state a cell at
/// a time, each returning the updated value.
pub trait GoLBuilder: Sized {
    /// Row count of this state.
    spec fn gol_rows(&self) -> nat;

    /// Column count of this state.
    spec fn gol_cols(&self) -> nat;

    /// The set of live coordinates of this state.
    spec fn gol_live(&self) -> Set<(nat, nat)>;

    /// A state of the given dimensions with every cell dead.
    fn empty(rows: usize, cols: usize) -> (s: Self)
        ensures
            s.gol_rows() == rows as nat,
            s.gol_cols() == cols as nat,
            s.gol_live() == Set::<(nat, nat)>::empty(),
    ;

    /// The same state with the cell at (`row`, `col`) marked live.
    fn live(self, row: usize, col: usize) -> (s: Self)
        requires
            (row as nat) < self.gol_rows(),
            (col as nat) < self.gol_cols(),
        ensures
            s.gol_rows() == self.gol_rows(),
            s.gol_cols() == self.gol_cols(),
            s.gol_live() == self.gol_live().insert((row as nat, col as nat)),
    ;

    /// The same state with the cell at (`row`, `col`) marked dead.
    fn dead(self, row: usize, col: usize) -> (s: Self)
        requires
            (row as nat) < self.gol_rows(),
            (col as nat) < self.gol_cols(),
        ensures
            s.gol_rows() == self.gol_rows(),
            s.gol_cols() == self.gol_cols(),
            s.gol_live() == self.gol_live().remove((row as nat, col as nat)),
    ;
}

/// A text that describes a grid. `build_gol` parses it into any state type
/// `G`: one row per line, one column per character of the longest line, a
/// cell live exactly where its character is neither `.` nor a space. The
/// error channel exists for representations that reject input; parsing
/// itself is total and always returns `Ok`.
pub trait BuildGol<G: GoLBuilder>: Sized {
    type Err;

    /// The characters of this text.
    spec fn text(&self) -> Seq<char>;

    /// Parse this text into a freshly built state.
    fn build_gol(self) -> (r: Result<G, Self::Err>)
        ensures
            r is Ok,
            r->Ok_0.gol_rows() == grid_rows(self.text()),
            r->Ok_0.gol_cols() == grid_cols(self.text()),
            r->Ok_0.gol_live() == grid_live(self.text()),
    ;
}

/// The views of a sequence of character vectors.
pub open spec fn views_of(lines: Seq<Vec<char>>) -> Seq<Seq<char>> {
    lines.map_values(|l: Vec<char>| l@)
}

/// The characters of `s`, one by one.
fn collect_chars(s: &str) -> (chars: Vec<char>)
    ensures
        chars@ == s@,
{
    let n: usize = s.unicode_len();
    let mut chars: Vec<char> = Vec::new();
    let mut i: usize = 0;
    while i < n
        invariant
            n as nat == s@.len(),
            i <= n,
            chars@ == s@.take(i as int),
        decreases n - i,
    {
        let c = s.get_char(i);
        chars.push(c);
        proof {
            assert(chars@ =~= s@.take(i as int + 1));
        }
        i = i + 1;
    }
    proof {
        assert(chars@ =~= s@);
    }
    chars
}

/// Split `chars` into its lines, as `line_split` describes them.
fn split_lines(chars: &Vec<char>) -> (lines: Vec<Vec<char>>)
    ensures
        views_of(lines@) == line_split(chars@),
{
    let ghost text = chars@;
    let mut lines: Vec<Vec<char>> = Vec::new();
    let mut cur: Vec<char> = Vec::new();
    let ghost mut start: int = 0;
    let mut i: usize = 0;
    proof {
        assert(text.skip(0) =~= text);
        assert(views_of(lines@) =~= Seq::<Seq<char>>::empty());
        assert(views_of(lines@) + line_split(text) =~= line_split(text));
        assert(cur@ =~= text.subrange(0, 0));
    }
    while i < chars.len()
        invariant
            text == chars@,
            i <= text.len(),
            0 <= start <= i as int,
            cur@ == text.subrange(start, i as int),
            forall|j: int| 0 <= j < cur@.len() ==> cur@[j] != '\n',
            line_split(text) == views_of(lines@) + line_split(text.skip(start)),
        decreases text.len() - i,
    {
        let c = chars[i];
        if c == '\n' {
            let ghost cur0 = cur@;
            let ghost rest = text.skip(i as int + 1);
            proof {
                assert(text.skip(start) =~= cur0 + seq!['\n'] + rest);
                lemma_line_split_step(cur0, rest);
            }
            if cur.len() > 0 && cur[cur.len() - 1] == '\r' {
                let _ = cur.pop();
            }
            proof {
                assert(cur@ =~= strip_cr(cur0));
            }
            let ghost lv0 = lines@;
            let ghost cv = cur@;
            lines.push(cur);
            cur = Vec::new();
            proof {
                assert(views_of(lines@) =~= views_of(lv0).push(cv));
                assert(views_of(lv0).push(cv) =~= views_of(lv0) + seq![cv]);
                assert((views_of(lv0) + seq![cv]) + line_split(rest) =~= views_of(lv0) + (
                seq![cv] + line_split(rest)));
                start = i as int + 1;
                assert(cur@ =~= text.subrange(start, i as int + 1));
            }
        } else {
            cur.push(c);
            proof {
                assert(cur@ =~= text.subrange(start, i as int + 1));
            }
        }
        i = i + 1;
    }
    if cur.len() > 0 {
        proof {
            lemma_line_split_single(cur@);
            assert(text.skip(start) =~= cur@);
        }
        let ghost lv0 = lines@;
        let ghost cv = cur@;
        lines.push(cur);
        proof {
            assert(views_of(lines@) =~= views_of(lv0).push(cv));
            assert(views_of(lv0).push(cv) =~= views_of(lv0) + seq![cv]);
        }
    } else {
        proof {
            assert(start == text.len());
            assert(text.skip(start) =~= Seq::<char>::empty());
            assert(line_split(text.skip(start)) == Seq::<Seq<char>>::empty());
            assert(views_of(lines@) + Seq::<Seq<char>>::empty() =~= views_of(lines@));
        }
    }
    lines
}

/// The length of the longest of `lines`, 0 if there are none.
fn max_cols(lines: &Vec<Vec<char>>) -> (m: usize)
    ensures
        m as nat == max_line_len(views_of(lines@)),
        forall|j: int| 0 <= j < lines@.len() ==> views_of(lines@)[j].len() <= m as nat,
{
    let ghost vs = views_of(lines@);
    let mut m: usize = 0;
    let mut r: usize = 0;
    while r < lines.len()
        invariant
            vs == views_of(lines@),
            r <= lines@.len(),
            m as nat == max_line_len(vs.take(r as int)),
            forall|j: int| 0 <= j < r ==> vs[j].len() <= m as nat,
        decreases lines@.len() - r,
    {
        let len = lines[r].len();
        proof {
            assert(vs.take(r as int + 1).drop_last() =~= vs.take(r as int));
            assert(vs.take(r as int + 1).last() == vs[r as int]);
            assert(vs[r as int] == lines@[r as int]@);
        }
        if len > m {
            m = len;
        }
        r = r + 1;
    }
    proof {
        assert(vs.take(lines@.len() as int) =~= vs);
    }
    m
}

/// Parse the characters of `s` into a freshly built state: a row per line,
/// a column per character of the longest line, a cell live exactly where
/// its character is live.
fn parse_text<G: GoLBuilder>(s: &str) -> (g: G)
    ensures
        g.gol_rows() == grid_rows(s@),
        g.gol_cols() == grid_cols(s@),
        g.gol_live() == grid_live(s@),
{
    let chars = collect_chars(s);
    let lines = split_lines(&chars);
    let ghost lview = views_of(lines@);
    let rows: usize = lines.len();
    let cols: usize = max_cols(&lines);
    let mut state: G = G::empty(rows, cols);
    proof {
        lemma_live_upto_start(lview);
    }
    let mut r: usize = 0;
    while r < rows
        invariant
            lview == line_split(s@),
            lview == views_of(lines@),
            rows == lines@.len(),
            cols as nat == max_line_len(lview),
            forall|j: int| 0 <= j < lview.len() ==> lview[j].len() <= cols as nat,
            r <= rows,
            state.gol_rows() == rows as nat,
            state.gol_cols() == cols as nat,
            state.gol_live() == live_upto(lview, r as nat, 0),
        decreases rows - r,
    {
        let line = &lines[r];
        proof {
            assert(line@ == lview[r as int]);
            assert(lview[r as int].len() <= cols as nat);
        }
        let mut c: usize = 0;
        while c < line.len()
            invariant
                lview == views_of(lines@),
                rows == lines@.len(),
                r < rows,
                line@ == lview[r as int],
                line@.len() <= cols as nat,
                c <= line@.len(),
                state.gol_rows() == rows as nat,
                state.gol_cols() == cols as nat,
                state.gol_live() == live_upto(lview, r as nat, c as nat),
            decreases line@.len() - c,
        {
            let ch = line[c];
            if ch == '.' || ch == ' ' {
                proof {
                    lemma_live_upto_dead(lview, r as nat, c as nat);
                }
                state = state.dead(r, c);
            } else {
                proof {
                    lemma_live_upto_live(lview, r as nat, c as nat);
                }
                state = state.live(r, c);
            }
            c = c + 1;
        }
        proof {
            lemma_live_upto_row(lview, r as nat);
        }
        r = r + 1;
    }
    proof {
        lemma_live_upto_done(lview);
    }
    state
}

impl<'a, G: GoLBuilder> BuildGol<G> for &'a str {
    type Err = String;

    open spec fn text(&self) -> Seq<char> {
        (*self)@
    }

    fn build_gol(self) -> (r: Result<G, String>) {
        Ok(parse_text(self))
    }
}

impl<G: GoLBuilder> BuildGol<G> for String {
    type Err = String;

    open spec fn text(&self) -> Seq<char> {
        self@
    }

    fn build_gol(self) -> (r: Result<G, String>) {
        Ok(parse_text(self.as_str()))
    }
}

/// Re-deriving the live-cell set from the same text yields the same result:
/// any two states built from equal texts, whatever their representations,
/// hold exactly the same live cells.
pub proof fn lemma_build_deterministic<A: GoLBuilder, B: GoLBuilder>(
    text: Seq<char>,
    a: A,
    b: B,
)
    requires
        a.gol_live() == grid_live(text),
        b.gol_live() == grid_live(text),
    ensures
        a.gol_live() == b.gol_live(),
{
}

} // verus!
