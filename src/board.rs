use crate::bits::{
    bit_at, bits_of, char_is_whitespace, chars_of, extra_character_message, invalid_symbol_message,
    is_white_space, set_bit, string_of_chars, zeroed_bits, CellBits, CELL_BITS_LEN,
};
use crate::player::{PlaceStoneError, Player};
use crate::pos::{cell_count, lemma_num_cells_bound, num_cells, BoardSize, Pos};
use std::marker::PhantomData;
use vstd::prelude::*;

verus! {

/// The value a cell holds, decoded from its "occupied" and "is black" bits.
pub open spec fn decode_cell(occupied: bool, black: bool) -> Option<Player> {
    if !occupied {
        None
    } else if black {
        Some(Player::Black)
    } else {
        Some(Player::White)
    }
}

/// A board with every cell empty.
pub open spec fn empty_cells<BS: BoardSize>() -> Seq<Option<Player>> {
    Seq::new(num_cells::<BS>(), |i: int| None)
}

/// The symbol that stands for a cell value in the text format.
pub open spec fn symbol_of(v: Option<Player>) -> char {
    match v {
        None => '_',
        Some(Player::Black) => '○',
        Some(Player::White) => '●',
    }
}

/// The cell value a symbol stands for, if it is one.
pub open spec fn value_of_symbol(c: char) -> Option<Option<Player>> {
    if c == '_' {
        Some(None)
    } else if c == '○' {
        Some(Some(Player::Black))
    } else if c == '●' {
        Some(Some(Player::White))
    } else {
        None
    }
}

/// The characters of `s` that are not whitespace, in order.
pub open spec fn tokens(s: Seq<char>) -> Seq<char> {
    s.filter(|c: char| !is_white_space(c))
}

/// The board that a text describes: exactly `N·N` non-whitespace characters,
/// each a cell symbol, read in row-major order.
pub open spec fn parse_cells<BS: BoardSize>(s: Seq<char>) -> Option<Seq<Option<Player>>> {
    let t = tokens(s);
    if t.len() == num_cells::<BS>() && forall|i: int|
        0 <= i < t.len() ==> (#[trigger] value_of_symbol(t[i])) is Some {
        Some(Seq::new(t.len(), |i: int| value_of_symbol(t[i]).unwrap()))
    } else {
        None
    }
}

/// The text of a board: one symbol per cell, a space after each cell but the
/// last of a row, and a newline after that one.
pub open spec fn text_of<BS: BoardSize>(cells: Seq<Option<Player>>) -> Seq<char> {
    Seq::new(
        2 * cells.len(),
        |k: int|
            if k % 2 == 0 {
                symbol_of(cells[k / 2])
            } else if (k / 2 + 1) % (BS::spec_size() as int) == 0 {
                '\n'
            } else {
                ' '
            },
    )
}

/// Appending one character adds it to the tokens exactly when it is not whitespace.
pub proof fn lemma_tokens_push(s: Seq<char>, c: char)
    ensures
        tokens(s.push(c)) == if is_white_space(c) {
            tokens(s)
        } else {
            tokens(s).push(c)
        },
{
    reveal(Seq::filter);
    assert(s.push(c).drop_last() =~= s);
}

/// The tokens of a concatenation are the concatenated tokens.
pub proof fn lemma_tokens_add(a: Seq<char>, b: Seq<char>)
    ensures
        tokens(a + b) == tokens(a) + tokens(b),
{
    Seq::filter_distributes_over_add(a, b, |c: char| !is_white_space(c));
}

/// The tokens of the first `m` cells' text are their symbols.
proof fn lemma_text_tokens_prefix<BS: BoardSize>(cells: Seq<Option<Player>>, m: nat)
    requires
        m <= cells.len(),
    ensures
        tokens(text_of::<BS>(cells).subrange(0, 2 * m as int)) == Seq::new(
            m,
            |k: int| symbol_of(cells[k]),
        ),
    decreases m,
{
    let t = text_of::<BS>(cells);
    if m == 0 {
        reveal(Seq::filter);
        assert(t.subrange(0, 0) =~= Seq::<char>::empty());
        assert(Seq::new(m, |k: int| symbol_of(cells[k])) =~= Seq::<char>::empty());
    } else {
        let j = (m - 1) as nat;
        lemma_text_tokens_prefix::<BS>(cells, j);
        let p = t.subrange(0, 2 * j as int);
        let sym = t[2 * j as int];
        let sep = t[2 * j as int + 1];
        assert((2 * j) as int % 2 == 0 && (2 * j) as int / 2 == j);
        assert((2 * j + 1) as int % 2 == 1 && (2 * j + 1) as int / 2 == j);
        assert(sym == symbol_of(cells[j as int]));
        assert(sep == '\n' || sep == ' ');
        assert(!is_white_space(sym));
        assert(is_white_space(sep));
        assert(t.subrange(0, 2 * m as int) =~= p.push(sym).push(sep));
        lemma_tokens_push(p, sym);
        lemma_tokens_push(p.push(sym), sep);
        assert(Seq::new(m, |k: int| symbol_of(cells[k])) =~= Seq::new(
            j,
            |k: int| symbol_of(cells[k]),
        ).push(sym));
    }
}

/// Reading the text of a board gives back the same board.
pub proof fn lemma_text_round_trip<BS: BoardSize>(cells: Seq<Option<Player>>)
    requires
        cells.len() == num_cells::<BS>(),
    ensures
        parse_cells::<BS>(text_of::<BS>(cells)) == Some(cells),
{
    let t = text_of::<BS>(cells);
    lemma_text_tokens_prefix::<BS>(cells, cells.len());
    assert(t.subrange(0, 2 * cells.len() as int) =~= t);
    let toks = tokens(t);
    assert forall|i: int| 0 <= i < toks.len() implies (#[trigger] value_of_symbol(toks[i])) is Some
        && value_of_symbol(toks[i]).unwrap() == cells[i] by {
        assert(toks[i] == symbol_of(cells[i]));
    }
    assert(Seq::new(toks.len(), |i: int| value_of_symbol(toks[i]).unwrap()) =~= cells);
}

/// A Go board of size `BS`: two bits per cell, packed into a fixed buffer.
#[derive(Debug, PartialEq, Eq)]
pub struct Board<BS: BoardSize> {
    /// Bit `2i` is set when cell `i` is occupied; bit `2i + 1` is set when
    /// cell `i` holds a black stone, and only then.
    cells: CellBits,
    size: PhantomData<BS>,
}

impl<BS: BoardSize> Clone for Board<BS> {
    fn clone(&self) -> Self {
        *self
    }
}

impl<BS: BoardSize> Copy for Board<BS> {

}

impl<BS: BoardSize> View for Board<BS> {
    type V = Seq<Option<Player>>;

    /// The value of each cell, in row-major order.
    closed spec fn view(&self) -> Seq<Option<Player>> {
        Seq::new(
            num_cells::<BS>(),
            |i: int| decode_cell(bits_of(self.cells)[2 * i], bits_of(self.cells)[2 * i + 1]),
        )
    }
}

impl<BS: BoardSize> Board<BS> {
    #[verifier::type_invariant]
    closed spec fn well_formed(self) -> bool {
        &&& bits_of(self.cells).len() == CELL_BITS_LEN
        &&& forall|i: int|
            0 <= i < CELL_BITS_LEN / 2 ==> !(#[trigger] bits_of(self.cells)[2 * i]) ==> !bits_of(
                self.cells,
            )[2 * i + 1]
    }

    /// Every board has one value per cell.
    pub proof fn lemma_len(&self)
        ensures
            self@.len() == num_cells::<BS>(),
    {
    }

    /// An empty board.
    pub fn new() -> (r: Self)
        ensures
            r@ == empty_cells::<BS>(),
    {
        let r = Board { cells: zeroed_bits(), size: PhantomData };
        proof {
            lemma_num_cells_bound::<BS>();
            assert(r@ =~= empty_cells::<BS>());
        }
        r
    }

    /// The value of the cell at `pos`.
    pub fn get(&self, pos: Pos<BS>) -> (r: Option<Player>)
        ensures
            r == self@[pos@ as int],
    {
        let i = pos.index();
        self.get_index(i)
    }

    fn get_index(&self, i: usize) -> (r: Option<Player>)
        requires
            i < num_cells::<BS>(),
        ensures
            r == self@[i as int],
    {
        proof {
            use_type_invariant(self);
            lemma_num_cells_bound::<BS>();
        }
        if bit_at(&self.cells, 2 * i) {
            if bit_at(&self.cells, 2 * i + 1) {
                Some(Player::Black)
            } else {
                Some(Player::White)
            }
        } else {
            None
        }
    }

    /// Overwrites the cell at `pos`.
    pub fn set(&mut self, pos: Pos<BS>, value: Option<Player>)
        ensures
            final(self)@ == old(self)@.update(pos@ as int, value),
    {
        let i = pos.index();
        self.set_index(i, value);
    }

    fn set_index(&mut self, i: usize, value: Option<Player>)
        requires
            i < num_cells::<BS>(),
        ensures
            final(self)@ == old(self)@.update(i as int, value),
    {
        proof {
            use_type_invariant(&*self);
            lemma_num_cells_bound::<BS>();
        }
        let mut cells = self.cells;
        set_bit(&mut cells, 2 * i, value.is_some());
        let black = match value {
            Some(Player::Black) => true,
            _ => false,
        };
        set_bit(&mut cells, 2 * i + 1, black);
        proof {
            let old_bits = bits_of(self.cells);
            let new_bits = bits_of(cells);
            assert forall|k: int|
                0 <= k < CELL_BITS_LEN / 2 && !(#[trigger] new_bits[2 * k]) implies !new_bits[2 * k
                + 1] by {
                if k != i {
                    assert(new_bits[2 * k] == old_bits[2 * k]);
                    assert(new_bits[2 * k + 1] == old_bits[2 * k + 1]);
                }
            }
        }
        self.cells = cells;
        proof {
            assert(self@ =~= old(self)@.update(i as int, value));
        }
    }

    /// Whether the cell at `pos` holds a stone.
    pub fn is_occupied(&self, pos: Pos<BS>) -> (r: bool)
        ensures
            r == (self@[pos@ as int] is Some),
            pos@ < self@.len(),
    {
        let i = pos.index();
        proof {
            use_type_invariant(self);
            lemma_num_cells_bound::<BS>();
        }
        bit_at(&self.cells, 2 * i)
    }

    /// Puts a stone of `player` at `pos` when that cell is empty.
    pub fn set_if_empty(&mut self, pos: Pos<BS>, player: Player) -> (r: Result<(), PlaceStoneError>)
        ensures
            pos@ < old(self)@.len(),
            old(self)@[pos@ as int] is Some ==> r == Err::<(), PlaceStoneError>(
                PlaceStoneError::CellOccupied,
            ) && final(self)@ == old(self)@,
            old(self)@[pos@ as int] is None ==> r is Ok && final(self)@ == old(self)@.update(
                pos@ as int,
                Some(player),
            ),
    {
        if self.is_occupied(pos) {
            return Err(PlaceStoneError::CellOccupied);
        }
        self.set(pos, Some(player));
        Ok(())
    }

    /// Reads a board from text: `N·N` cell symbols (`_` empty, `○` black,
    /// `●` white) in row-major order, with any whitespace around them.
    pub fn from_str(input: &str) -> (r: Result<Self, String>)
        ensures
            r is Ok <==> parse_cells::<BS>(input@) is Some,
            r matches Ok(b) ==> Some(b@) == parse_cells::<BS>(input@),
    {
        let cs = chars_of(input);
        let total = cell_count::<BS>();
        let mut board = Board::<BS>::new();
        let mut count: usize = 0;
        let mut i: usize = 0;
        while i < cs.len()
            invariant
                cs@ == input@,
                total == num_cells::<BS>(),
                i <= cs@.len(),
                count == tokens(cs@.subrange(0, i as int)).len(),
                count <= total,
                forall|k: int|
                    0 <= k < count ==> (#[trigger] value_of_symbol(
                        tokens(cs@.subrange(0, i as int))[k],
                    )) is Some,
                board@ == Seq::new(
                    total as nat,
                    |k: int|
                        if k < count {
                            value_of_symbol(tokens(cs@.subrange(0, i as int))[k]).unwrap()
                        } else {
                            None
                        },
                ),
            decreases cs@.len() - i,
        {
            let c = cs[i];
            let ghost prefix = cs@.subrange(0, i as int);
            let ghost rest = cs@.subrange(i + 1, cs@.len() as int);
            proof {
                assert(cs@.subrange(0, i + 1) =~= prefix.push(c));
                lemma_tokens_push(prefix, c);
                assert(cs@ =~= prefix.push(c) + rest);
                lemma_tokens_add(prefix.push(c), rest);
            }
            if !char_is_whitespace(c) {
                if count == total {
                    return Err(extra_character_message(c));
                }
                let value = if c == '_' {
                    None
                } else if c == '○' {
                    Some(Player::Black)
                } else if c == '●' {
                    Some(Player::White)
                } else {
                    proof {
                        assert(tokens(cs@)[count as int] == c);
                        assert(value_of_symbol(tokens(input@)[count as int]) is None);
                    }
                    return Err(invalid_symbol_message(Some(c)));
                };
                board.set_index(count, value);
                count = count + 1;
            }
            i = i + 1;
            proof {
                assert(board@ =~= Seq::new(
                    total as nat,
                    |k: int|
                        if k < count {
                            value_of_symbol(tokens(cs@.subrange(0, i as int))[k]).unwrap()
                        } else {
                            None
                        },
                ));
            }
        }
        proof {
            assert(cs@.subrange(0, i as int) =~= cs@);
        }
        if count < total {
            return Err(invalid_symbol_message(None));
        }
        proof {
            assert(board@ =~= parse_cells::<BS>(input@).unwrap());
        }
        Ok(board)
    }

    /// The board as text, in the format that `from_str` reads.
    pub fn to_text(&self) -> (r: String)
        ensures
            r@ == text_of::<BS>(self@),
    {
        let n = BS::size();
        let total = cell_count::<BS>();
        let mut out: Vec<char> = Vec::new();
        let mut i: usize = 0;
        while i < total
            invariant
                n == BS::spec_size(),
                total == num_cells::<BS>(),
                self@.len() == total,
                i <= total,
                total <= 361,
                out@ == text_of::<BS>(self@).subrange(0, 2 * i),
            decreases total - i,
        {
            let v = self.get_index(i);
            let symbol = match v {
                None => '_',
                Some(Player::Black) => '○',
                Some(Player::White) => '●',
            };
            out.push(symbol);
            if (i + 1) % n == 0 {
                out.push('\n');
            } else {
                out.push(' ');
            }
            proof {
                let t = text_of::<BS>(self@);
                assert((2 * i) as int % 2 == 0 && (2 * i) as int / 2 == i);
                assert((2 * i + 1) as int % 2 == 1 && (2 * i + 1) as int / 2 == i);
                assert(out@ =~= t.subrange(0, 2 * (i + 1)));
            }
            i = i + 1;
        }
        proof {
            assert(out@ =~= text_of::<BS>(self@));
        }
        string_of_chars(&out)
    }
}

} // verus!
