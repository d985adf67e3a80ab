use crate::bits::{chars_of, is_white_space};
use vstd::prelude::*;

verus! {

/// `c` is one of `0` to `9`.
pub open spec fn is_digit(c: char) -> bool {
    '0' <= c <= '9'
}

/// The index of the first character at or after `i` that is not whitespace.
pub open spec fn skip_white_space(s: Seq<char>, i: nat) -> nat
    decreases s.len() - i,
{
    if i < s.len() && is_white_space(s[i as int]) {
        skip_white_space(s, i + 1)
    } else {
        i
    }
}

/// The index just past the run of digits that starts at `i`.
pub open spec fn digits_end(s: Seq<char>, i: nat) -> nat
    decreases s.len() - i,
{
    if i < s.len() && is_digit(s[i as int]) {
        digits_end(s, i + 1)
    } else {
        i
    }
}

/// The number written by the digits `s[i .. j]`.
pub open spec fn digits_value(s: Seq<char>, i: nat, j: nat) -> nat
    decreases j,
{
    if j <= i {
        0
    } else {
        digits_value(s, i, (j - 1) as nat) * 10 + ((s[j - 1] as u32) - ('0' as u32)) as nat
    }
}

/// Text the parser accepts: digits and whitespace only, every number in it
/// fitting in a `u32`.
pub open spec fn numbers_text(s: Seq<char>) -> bool {
    &&& forall|i: int| 0 <= i < s.len() ==> is_digit(#[trigger] s[i]) || is_white_space(s[i])
    &&& forall|i: nat| i < s.len() ==> #[trigger] digits_value(s, i, digits_end(s, i)) <= u32::MAX
}

/// Reads whitespace-separated decimal numbers from a text, one at a time.
pub struct NumbersParser {
    input: Vec<char>,
    pos: usize,
}

impl NumbersParser {
    /// The characters of the text.
    pub closed spec fn text(&self) -> Seq<char> {
        self.input@
    }

    /// The index of the next character to read.
    pub closed spec fn position(&self) -> nat {
        self.pos as nat
    }

    /// A parser at the start of `input`.
    pub fn new(input: &str) -> (r: Self)
        ensures
            r.text() == input@,
            r.position() == 0,
    {
        NumbersParser { input: chars_of(input), pos: 0 }
    }

    /// The next number of the text, or `None` when only whitespace is left.
    /// The whitespace character after a number is consumed with it.
    pub fn next_number(&mut self) -> (r: Option<u32>)
        requires
            numbers_text(old(self).text()),
            old(self).position() <= old(self).text().len(),
        ensures
            final(self).text() == old(self).text(),
            final(self).position() <= final(self).text().len(),
            ({
                let s = old(self).text();
                let a = skip_white_space(s, old(self).position());
                let b = digits_end(s, a);
                if a == s.len() {
                    r is None && final(self).position() == s.len()
                } else {
                    &&& r == Some(digits_value(s, a, b) as u32)
                    &&& r->0 as nat == digits_value(s, a, b)
                    &&& final(self).position() == if b < s.len() {
                        b + 1
                    } else {
                        b
                    }
                }
            }),
    {
        let ghost s = self.input@;
        let ghost start = self.pos as nat;
        let len = self.input.len();
        let mut pos = self.pos;
        let mut number: Option<u32> = None;
        let mut done = false;
        let ghost mut a: nat = 0;
        while pos < len && !done
            invariant
                self.input@ == s,
                s == old(self).text(),
                start == old(self).position(),
                len == s.len(),
                numbers_text(s),
                start <= pos <= len,
                number is None ==> !done && skip_white_space(s, start) == skip_white_space(
                    s,
                    pos as nat,
                ),
                number is Some ==> {
                    &&& a == skip_white_space(s, start)
                    &&& a < pos
                    &&& digits_value(s, a, digits_end(s, a)) <= u32::MAX
                    &&& number->0 as nat == digits_value(s, a, if done {
                        (pos - 1) as nat
                    } else {
                        pos as nat
                    })
                    &&& done ==> digits_end(s, a) == pos - 1
                    &&& !done ==> pos <= digits_end(s, a) && digits_end(s, a) == digits_end(
                        s,
                        pos as nat,
                    )
                    &&& forall|k: int| a <= k < pos && !(done && k == pos - 1) ==> is_digit(
                        #[trigger] s[k],
                    )
                },
            decreases len - pos,
        {
            let c = self.input[pos];
            let i = pos;
            pos = pos + 1;
            if '0' <= c && c <= '9' {
                let d = (c as u32) - ('0' as u32);
                match number {
                    None => {
                        proof {
                            lemma_digits_end_from(s, (i + 1) as nat);
                            a = i as nat;
                            assert(digits_value(s, a, digits_end(s, a)) <= u32::MAX);
                            assert(!is_white_space(c)) by {
                                assert(is_digit(c));
                            }
                        }
                        number = Some(d);
                        proof {
                            assert(digits_value(s, a, a) == 0);
                            assert(digits_value(s, a, (i + 1) as nat) == d as nat);
                            assert(digits_end(s, a) == digits_end(s, (i + 1) as nat));
                            assert(a < pos);
                        }
                    },
                    Some(n) => {
                        proof {
                            lemma_digits_end_from(s, (i + 1) as nat);
                            assert(i < digits_end(s, a));
                            lemma_digits_value_grows(s, a, (i + 1) as nat, digits_end(s, a));
                            assert(digits_value(s, a, (i + 1) as nat) == n * 10 + d);
                        }
                        number = Some(n * 10 + d);
                        proof {
                            assert(digits_end(s, i as nat) == digits_end(s, (i + 1) as nat));
                        }
                    },
                }
            } else {
                proof {
                    assert(is_white_space(c));
                }
                if number.is_some() {
                    done = true;
                }
            }
        }
        self.pos = pos;
        number
    }
}

/// Inside a run of digits, every character is a digit.
proof fn lemma_run_digits(s: Seq<char>, a: nat, j: nat)
    requires
        a <= j < digits_end(s, a),
    ensures
        is_digit(s[j as int]),
    decreases j - a,
{
    if j > a {
        lemma_run_digits(s, a + 1, j);
    }
}

/// Reading more digits of a run never lowers its value.
proof fn lemma_digits_value_grows(s: Seq<char>, a: nat, j: nat, e: nat)
    requires
        a <= j <= e,
        e <= digits_end(s, a),
    ensures
        digits_value(s, a, j) <= digits_value(s, a, e),
    decreases e - j,
{
    if j < e {
        lemma_run_digits(s, a, j);
        lemma_digits_value_grows(s, a, j + 1, e);
    }
}

/// The run of digits at `i` ends at or after `i`.
proof fn lemma_digits_end_from(s: Seq<char>, i: nat)
    ensures
        digits_end(s, i) >= i,
    decreases s.len() - i,
{
    if i < s.len() && is_digit(s[i as int]) {
        lemma_digits_end_from(s, i + 1);
    }
}

} // verus!
