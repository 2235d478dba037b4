use vstd::prelude::*;
use crate::grid::{Grid, ParseError, valid_cells};

verus! {

/// Characters with the Unicode `White_Space` property.
pub open spec fn is_white(c: char) -> bool {
    ||| ('\u{9}' <= c && c <= '\u{d}')
    ||| c == ' '
    ||| c == '\u{85}'
    ||| c == '\u{a0}'
    ||| c == '\u{1680}'
    ||| ('\u{2000}' <= c && c <= '\u{200a}')
    ||| c == '\u{2028}'
    ||| c == '\u{2029}'
    ||| c == '\u{202f}'
    ||| c == '\u{205f}'
    ||| c == '\u{3000}'
}

pub open spec fn is_digit(c: char) -> bool {
    '0' <= c && c <= '9'
}

pub open spec fn digit_value(c: char) -> u8 {
    (c as int - '0' as int) as u8
}

pub open spec fn digit_char(d: u8) -> char {
    (d + '0' as int) as char
}

/// The characters of `s` that are not whitespace, in order.
pub open spec fn kept(s: Seq<char>) -> Seq<char>
    decreases s.len(),
{
    if s.len() == 0 {
        Seq::empty()
    } else if is_white(s.last()) {
        kept(s.drop_last())
    } else {
        kept(s.drop_last()).push(s.last())
    }
}

pub open spec fn all_digits(t: Seq<char>) -> bool {
    forall|j: int| 0 <= j < t.len() ==> is_digit(#[trigger] t[j])
}

/// `c` is the first character of `t` that is not a digit.
pub open spec fn first_non_digit(t: Seq<char>, c: char) -> bool {
    exists|j: int| 0 <= j < t.len() && #[trigger] t[j] == c && !is_digit(c) && all_digits(t.take(j))
}

/// `s` reads as the board `cells`: once whitespace is dropped, exactly 81 decimal digits.
pub open spec fn parses_to(s: Seq<char>, cells: Seq<u8>) -> bool {
    &&& all_digits(kept(s))
    &&& kept(s).len() == 81
    &&& cells == kept(s).map_values(|c: char| digit_value(c))
}

/// The text of the board: nine lines, each of nine digits each followed by a space.
pub open spec fn render_upto(cells: Seq<u8>, n: nat) -> Seq<char>
    decreases n,
{
    if n == 0 {
        Seq::empty()
    } else {
        let line_end: Seq<char> = if n % 9 == 0 { seq!['\n'] } else { Seq::empty() };
        render_upto(cells, (n - 1) as nat) + seq![digit_char(cells[n - 1]), ' '] + line_end
    }
}

pub open spec fn rendered(cells: Seq<u8>) -> Seq<char> {
    render_upto(cells, 81)
}

fn is_whitespace(c: char) -> (r: bool)
    ensures
        r == is_white(c),
{
    ('\u{9}' <= c && c <= '\u{d}') || c == ' ' || c == '\u{85}' || c == '\u{a0}' || c
        == '\u{1680}' || ('\u{2000}' <= c && c <= '\u{200a}') || c == '\u{2028}' || c
        == '\u{2029}' || c == '\u{202f}' || c == '\u{205f}' || c == '\u{3000}'
}

proof fn lemma_kept_prefix(s: Seq<char>, i: int)
    requires
        0 <= i <= s.len(),
    ensures
        kept(s.take(i)).len() <= kept(s).len(),
        kept(s).take(kept(s.take(i)).len() as int) == kept(s.take(i)),
    decreases s.len() - i,
{
    if i == s.len() {
        assert(s.take(i) =~= s);
        assert(kept(s).take(kept(s).len() as int) =~= kept(s));
    } else {
        lemma_kept_prefix(s, i + 1);
        assert(s.take(i + 1).drop_last() =~= s.take(i));
        let a = kept(s.take(i));
        let b = kept(s.take(i + 1));
        assert(b.take(a.len() as int) =~= a);
        assert(kept(s).take(a.len() as int) =~= b.take(a.len() as int));
    }
}

impl Grid {
    /// Reads a board from text: whitespace is skipped and every other character must be a
    /// decimal digit; exactly 81 digits make a board.
    pub fn parse(s: &str) -> (r: Result<Grid, ParseError>)
        ensures
            r is Ok ==> r->Ok_0.wf() && parses_to(s@, r->Ok_0@),
            r is Ok <==> all_digits(kept(s@)) && kept(s@).len() == 81,
            forall|c: char| r == Err::<Grid, ParseError>(ParseError::InvalidChar(c)) <==> first_non_digit(kept(s@), c),
            forall|n: usize| r == Err::<Grid, ParseError>(ParseError::WrongCount(n)) <==> all_digits(kept(s@)) && kept(s@).len() == n && n != 81,
    {
        let len = s.unicode_len();
        let mut cells: Vec<u8> = Vec::new();
        let mut i: usize = 0;
        while i < len
            invariant
                len == s@.len(),
                i <= len,
                all_digits(kept(s@.take(i as int))),
                cells@ == kept(s@.take(i as int)).map_values(|c: char| digit_value(c)),
            decreases len - i,
        {
            let c = s.get_char(i);
            let ghost before = kept(s@.take(i as int));
            proof {
                assert(s@.take(i + 1).drop_last() =~= s@.take(i as int));
                assert(s@.take(i + 1).last() == c);
            }
            if !is_whitespace(c) {
                if !('0' <= c && c <= '9') {
                    proof {
                        lemma_kept_prefix(s@, i + 1);
                        let t = kept(s@);
                        let j = before.len() as int;
                        assert(kept(s@.take(i + 1)) == before.push(c));
                        assert(t[j] == kept(s@.take(i + 1))[j]);
                        assert(t.take(j) =~= before);
                        assert(first_non_digit(t, c));
                        assert forall|d: char| first_non_digit(t, d) implies d == c by {
                            let k = choose|k: int| 0 <= k < t.len() && #[trigger] t[k] == d && !is_digit(d) && all_digits(t.take(k));
                            if k < j {
                                assert(t.take(j)[k] == t[k]);
                            } else if k > j {
                                assert(t.take(k)[j] == t[j]);
                            }
                        }
                        assert(!all_digits(t));
                    }
                    return Err(ParseError::InvalidChar(c));
                }
                let d: u8 = (c as u32 - '0' as u32) as u8;
                cells.push(d);
                proof {
                    assert(cells@ =~= kept(s@.take(i + 1)).map_values(|c: char| digit_value(c)));
                }
            }
            i += 1;
        }
        proof {
            assert(s@.take(len as int) =~= s@);
            let t = kept(s@);
            assert forall|d: char| !first_non_digit(t, d) by {}
        }
        if cells.len() != 81 {
            return Err(ParseError::WrongCount(cells.len()));
        }
        proof {
            assert(valid_cells(cells@));
        }
        Ok(Grid::from_cells(cells).unwrap())
    }
}


/// Relies on `String::push`: appends one character to the end of the string.
#[verifier::external_body]
fn push_char(s: &mut String, c: char)
    ensures
        final(s)@ == old(s)@.push(c),
{
    s.push(c);
}

impl Grid {
    /// The board as text: nine lines, each of nine digits each followed by a space.
    pub fn to_string(&self) -> (r: String)
        requires
            self.wf(),
        ensures
            r@ == rendered(self@),
    {
        let mut out = String::new();
        let mut p: usize = 0;
        while p < 81
            invariant
                self.wf(),
                p <= 81,
                out@ == render_upto(self@, p as nat),
            decreases 81 - p,
        {
            let d = self.get(p);
            let c = (d + 48u8) as char;
            push_char(&mut out, c);
            push_char(&mut out, ' ');
            if (p + 1) % 9 == 0 {
                push_char(&mut out, '\n');
            }
            proof {
                let n = (p + 1) as nat;
                assert(render_upto(self@, n) == render_upto(self@, p as nat) + seq![
                    digit_char(self@[p as int]),
                    ' ',
                ] + (if n % 9 == 0 { seq!['\n'] } else { Seq::<char>::empty() }));
                assert(out@ =~= render_upto(self@, n));
            }
            p += 1;
        }
        out
    }
}

proof fn lemma_kept_append(a: Seq<char>, b: Seq<char>)
    ensures
        kept(a + b) == kept(a) + kept(b),
    decreases b.len(),
{
    if b.len() == 0 {
        assert(a + b =~= a);
        assert(kept(a) + kept(b) =~= kept(a));
    } else {
        lemma_kept_append(a, b.drop_last());
        assert((a + b).drop_last() =~= a + b.drop_last());
        assert((a + b).last() == b.last());
        if !is_white(b.last()) {
            assert(kept(a) + kept(b.drop_last()).push(b.last()) =~= (kept(a) + kept(b.drop_last())).push(b.last()));
        }
    }
}

proof fn lemma_kept_rendered(cells: Seq<u8>, n: nat)
    requires
        valid_cells(cells),
        n <= 81,
    ensures
        kept(render_upto(cells, n)) == cells.take(n as int).map_values(|d: u8| digit_char(d)),
    decreases n,
{
    if n > 0 {
        let m = (n - 1) as nat;
        lemma_kept_rendered(cells, m);
        let c = digit_char(cells[m as int]);
        let line_end: Seq<char> = if n % 9 == 0 { seq!['\n'] } else { Seq::empty() };
        let pair = seq![c, ' '];
        lemma_kept_append(render_upto(cells, m), pair);
        lemma_kept_append(render_upto(cells, m) + pair, line_end);
        assert(pair.drop_last() =~= seq![c]);
        assert(seq![c].drop_last() =~= Seq::<char>::empty());
        assert(cells[m as int] <= 9);
        assert(!is_white(c) && is_digit(c));
        assert(pair.last() == ' ');
        assert(is_white(' '));
        assert(kept(pair) == kept(seq![c]));
        assert(seq![c].last() == c);
        assert(kept(seq![c]) == kept(Seq::<char>::empty()).push(c));
        assert(kept(pair) =~= seq![c]);
        if n % 9 == 0 {
            assert(line_end.drop_last() =~= Seq::<char>::empty());
            assert(is_white(line_end.last()));
        }
        assert(kept(line_end) =~= Seq::<char>::empty());
        assert(cells.take(n as int).map_values(|d: u8| digit_char(d)) =~= cells.take(m as int).map_values(
            |d: u8| digit_char(d),
        ) + seq![c]);
    }
}

/// Parsing the text of a board gives back that board.
pub proof fn lemma_round_trip(cells: Seq<u8>)
    requires
        valid_cells(cells),
    ensures
        parses_to(rendered(cells), cells),
{
    lemma_kept_rendered(cells, 81);
    let t = kept(rendered(cells));
    assert(cells.take(81) =~= cells);
    assert(all_digits(t));
    assert(t.map_values(|c: char| digit_value(c)) =~= cells);
}

/// A text that holds a letter is not a board.
pub proof fn lemma_letter_rejected(s: Seq<char>, j: int)
    requires
        0 <= j < s.len(),
        ('a' <= s[j] && s[j] <= 'z') || ('A' <= s[j] && s[j] <= 'Z'),
    ensures
        !all_digits(kept(s)),
{
    lemma_kept_prefix(s, j + 1);
    assert(s.take(j + 1).drop_last() =~= s.take(j));
    assert(s.take(j + 1).last() == s[j]);
    let before = kept(s.take(j));
    assert(kept(s.take(j + 1)) == before.push(s[j]));
    let t = kept(s);
    assert(t[before.len() as int] == kept(s.take(j + 1))[before.len() as int]);
    assert(!is_digit(t[before.len() as int]));
}

} // verus!
