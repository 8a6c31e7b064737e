//! Boards as text: decimal values in row-major order, separated by commas,
//! with `0` for an empty cell; or, without commas, one character per cell.

use vstd::prelude::*;
use vstd::string::StringExecFns;
use crate::board::{Board, SquareType, max_value_for};
use crate::geometry::{floor_sqrt, lemma_floor_sqrt_of_square};

verus! {

/// `c` is white space: a character with the Unicode property `White_Space`.
pub open spec fn is_space(c: char) -> bool {
    let code = c as int;
    ||| 0x09 <= code <= 0x0d
    ||| code == 0x20
    ||| code == 0x85
    ||| code == 0xa0
    ||| code == 0x1680
    ||| 0x2000 <= code <= 0x200a
    ||| code == 0x2028
    ||| code == 0x2029
    ||| code == 0x202f
    ||| code == 0x205f
    ||| code == 0x3000
}

/// The test that a character is no white space.
pub open spec fn is_ink() -> spec_fn(char) -> bool {
    |c: char| !is_space(c)
}

/// `c` is one of the digits `0` to `9`.
pub open spec fn is_digit(c: char) -> bool {
    0x30 <= c as int <= 0x39
}

/// The number that a string of digits writes in base ten; 0 for no digit.
pub open spec fn digits_value(digits: Seq<char>) -> int
    decreases digits.len(),
{
    if digits.len() == 0 {
        0
    } else {
        10 * digits_value(digits.drop_last()) + (digits.last() as int - 0x30)
    }
}

/// The token without its sign, if it has one.
pub open spec fn unsigned_part(token: Seq<char>) -> Seq<char> {
    if token.len() > 0 && (token[0] == '+' || token[0] == '-') {
        token.subrange(1, token.len() as int)
    } else {
        token
    }
}

/// The number that `token` writes: an optional sign and then one or more
/// digits, nothing else. `None` for any other token.
pub open spec fn number_of(token: Seq<char>) -> Option<int> {
    let digits = unsigned_part(token);
    if digits.len() > 0 && (forall|k: int| 0 <= k < digits.len() ==> is_digit(#[trigger] digits[k])) {
        if token[0] == '-' {
            Some(-digits_value(digits))
        } else {
            Some(digits_value(digits))
        }
    } else {
        None
    }
}

/// The cell that `token` stands for on a board whose largest value is
/// `max_value`: the number it writes, if that lies between 1 and `max_value`;
/// an empty cell for zero, for a number out of range and for a token that
/// writes no number.
pub open spec fn cell_of(token: Seq<char>, max_value: int) -> Option<i32> {
    match number_of(token) {
        Some(n) => if 1 <= n <= max_value && n <= i32::MAX {
            Some(n as i32)
        } else {
            None
        },
        None => None,
    }
}

/// The pieces of `s` between its commas, in order, the empty ones left out.
pub open spec fn fields(s: Seq<char>) -> Seq<Seq<char>>
    decreases s.len(),
{
    if s.len() == 0 {
        Seq::empty()
    } else if s.last() == ',' {
        fields(s.drop_last())
    } else if s.len() >= 2 && s[s.len() - 2] != ',' {
        let before = fields(s.drop_last());
        before.drop_last().push(before.last().push(s.last()))
    } else {
        fields(s.drop_last()).push(seq![s.last()])
    }
}

/// The tokens of a board's text: white space is dropped; what is left is cut
/// at its commas, or, where it has none, into its single characters.
pub open spec fn tokens_of(text: Seq<char>) -> Seq<Seq<char>> {
    let ink = text.filter(is_ink());
    if ink.contains(',') {
        fields(ink)
    } else {
        Seq::new(ink.len(), |k: int| seq![ink[k]])
    }
}

/// The cells that a text stands for: one per token.
pub open spec fn cells_of_text(text: Seq<char>) -> Seq<Option<i32>> {
    let tokens = tokens_of(text);
    Seq::new(tokens.len(), |k: int| cell_of(tokens[k], max_value_for(tokens.len() as int)))
}

/// The digit that writes `d`, for `d` from 0 to 9.
pub open spec fn digit_char(d: int) -> char {
    (0x30 + d) as char
}

/// `n` written in base ten, without leading zeros.
pub open spec fn decimal(n: nat) -> Seq<char>
    decreases n,
{
    if n < 10 {
        seq![digit_char(n as int)]
    } else {
        decimal(n / 10).push(digit_char(n as int % 10))
    }
}

/// What a cell is written as: its value in base ten, `0` when it is empty.
pub open spec fn cell_text(cell: Option<i32>) -> Seq<char> {
    match cell {
        Some(v) => if v < 0 {
            seq!['-'] + decimal((-v) as nat)
        } else {
            decimal(v as nat)
        },
        None => seq!['0'],
    }
}

/// The texts of `cells`, in order, with a comma between each two.
pub open spec fn text_of(cells: Seq<Option<i32>>) -> Seq<char>
    decreases cells.len(),
{
    if cells.len() == 0 {
        Seq::empty()
    } else if cells.len() == 1 {
        cell_text(cells[0])
    } else {
        text_of(cells.drop_last()) + seq![','] + cell_text(cells.last())
    }
}

/// Whether `c` is white space.
pub fn is_whitespace(c: char) -> (yes: bool)
    ensures
        yes == is_space(c),
{
    let code = c as u32;
    (0x09 <= code && code <= 0x0d) || code == 0x20 || code == 0x85 || code == 0xa0 || code
        == 0x1680 || (0x2000 <= code && code <= 0x200a) || code == 0x2028 || code == 0x2029
        || code == 0x202f || code == 0x205f || code == 0x3000
}

/// The characters of `s` that are no white space, in order.
pub fn ink_of(s: &str) -> (ink: Vec<char>)
    ensures
        ink@ == s@.filter(is_ink()),
{
    let mut ink: Vec<char> = Vec::new();
    proof {
        reveal(Seq::filter);
        assert(s@.take(0) =~= Seq::<char>::empty());
    }
    for c in it: s.chars()
        invariant
            it.seq() == s@,
            ink@ == it.seq().take(it.index() as int).filter(is_ink()),
    {
        proof {
            reveal(Seq::filter);
            assert(s@.take(it.index() + 1).drop_last() =~= s@.take(it.index() as int));
        }
        if !is_whitespace(c) {
            ink.push(c);
        }
    }
    assert(s@.take(s@.len() as int) =~= s@);
    ink
}

/// Whether `c` occurs in `chars`.
pub fn has_char(chars: &Vec<char>, c: char) -> (found: bool)
    ensures
        found == chars@.contains(c),
{
    let mut k: usize = 0;
    while k < chars.len()
        invariant
            k <= chars@.len(),
            forall|j: int| 0 <= j < k ==> chars@[j] != c,
        decreases chars@.len() - k,
    {
        if chars[k] == c {
            return true;
        }
        k += 1;
    }
    false
}

/// The views of a list of tokens.
pub open spec fn token_views(tokens: Seq<Vec<char>>) -> Seq<Seq<char>> {
    tokens.map_values(|t: Vec<char>| t@)
}

/// The tokens of `ink`, which holds no white space.
pub fn split_tokens(ink: &Vec<char>) -> (tokens: Vec<Vec<char>>)
    ensures
        token_views(tokens@) == if ink@.contains(',') {
            fields(ink@)
        } else {
            Seq::new(ink@.len(), |k: int| seq![ink@[k]])
        },
{
    let mut tokens: Vec<Vec<char>> = Vec::new();
    if has_char(ink, ',') {
        let mut current: Vec<char> = Vec::new();
        let mut k: usize = 0;
        assert(ink@.take(0) =~= Seq::<char>::empty());
        assert(token_views(tokens@) =~= Seq::<Seq<char>>::empty());
        while k < ink.len()
            invariant
                k <= ink@.len(),
                current@.len() > 0 <==> k > 0 && ink@[k - 1] != ',',
                fields(ink@.take(k as int)) == if current@.len() > 0 {
                    token_views(tokens@).push(current@)
                } else {
                    token_views(tokens@)
                },
            decreases ink@.len() - k,
        {
            let c = ink[k];
            let ghost seen = ink@.take(k + 1);
            let ghost old_views = token_views(tokens@);
            let ghost old_current = current@;
            proof {
                assert(seen.drop_last() =~= ink@.take(k as int));
                assert(seen.last() == c);
                if k > 0 {
                    assert(seen[seen.len() - 2] == ink@[k - 1]);
                }
            }
            if c == ',' {
                if current.len() > 0 {
                    tokens.push(current);
                    current = Vec::new();
                    assert(token_views(tokens@) =~= old_views.push(old_current));
                }
            } else {
                current.push(c);
                proof {
                    if old_current.len() > 0 {
                        assert(old_views.push(old_current).drop_last() =~= old_views);
                    } else {
                        assert(current@ =~= seq![c]);
                    }
                }
            }
            k += 1;
        }
        assert(ink@.take(ink@.len() as int) =~= ink@);
        if current.len() > 0 {
            let ghost old_views = token_views(tokens@);
            let ghost old_current = current@;
            tokens.push(current);
            assert(token_views(tokens@) =~= old_views.push(old_current));
        }
    } else {
        let mut k: usize = 0;
        while k < ink.len()
            invariant
                k <= ink@.len(),
                token_views(tokens@) =~= Seq::new(k as nat, |j: int| seq![ink@[j]]),
            decreases ink@.len() - k,
        {
            let ghost old_views = token_views(tokens@);
            let mut single: Vec<char> = Vec::new();
            single.push(ink[k]);
            assert(single@ =~= seq![ink@[k as int]]);
            tokens.push(single);
            assert(token_views(tokens@) =~= old_views.push(seq![ink@[k as int]]));
            k += 1;
        }
    }
    tokens
}

/// A string of digits writes no smaller a number than any of its beginnings.
pub proof fn lemma_digits_value_grows(digits: Seq<char>, k: int)
    requires
        forall|j: int| 0 <= j < digits.len() ==> is_digit(#[trigger] digits[j]),
        0 <= k <= digits.len(),
    ensures
        0 <= digits_value(digits.take(k)) <= digits_value(digits),
    decreases digits.len() - k,
{
    if k == digits.len() {
        assert(digits.take(k) =~= digits);
        lemma_digits_value_grows_from_zero(digits);
    } else {
        lemma_digits_value_grows(digits, k + 1);
        let longer = digits.take(k + 1);
        assert(longer.drop_last() =~= digits.take(k));
        assert(longer.last() == digits[k]);
        assert forall|j: int| 0 <= j < digits.take(k).len() implies is_digit(
            #[trigger] digits.take(k)[j],
        ) by {
            assert(digits.take(k)[j] == digits[j]);
        }
        lemma_digits_value_grows_from_zero(digits.take(k));
    }
}

/// A string of digits writes no negative number.
pub proof fn lemma_digits_value_grows_from_zero(digits: Seq<char>)
    requires
        forall|j: int| 0 <= j < digits.len() ==> is_digit(#[trigger] digits[j]),
    ensures
        0 <= digits_value(digits),
    decreases digits.len(),
{
    if digits.len() > 0 {
        assert forall|j: int| 0 <= j < digits.drop_last().len() implies is_digit(
            #[trigger] digits.drop_last()[j],
        ) by {
            assert(digits.drop_last()[j] == digits[j]);
        }
        lemma_digits_value_grows_from_zero(digits.drop_last());
        assert(is_digit(digits[digits.len() - 1]));
    }
}

/// The number that the digit `c` writes; `None` where `c` is no digit.
pub fn digit_value(c: char) -> (d: Option<SquareType>)
    ensures
        d.is_some() == is_digit(c),
        d.is_some() ==> d.unwrap() == c as int - 0x30,
{
    let code = c as u32;
    if code < 0x30 || code > 0x39 {
        None
    } else {
        Some((code - 0x30) as SquareType)
    }
}

/// The cell that `token` stands for on a board whose largest value is `max_value`.
pub fn parse_token(token: &Vec<char>, max_value: SquareType) -> (cell: Option<SquareType>)
    ensures
        cell == cell_of(token@, max_value as int),
{
    if token.len() == 0 {
        return None;
    }
    if token[0] == '-' {
        proof {
            let digits = unsigned_part(token@);
            if number_of(token@).is_some() {
                lemma_digits_value_grows_from_zero(digits);
            }
        }
        return None;
    }
    let start: usize = if token[0] == '+' {
        1
    } else {
        0
    };
    let ghost digits = unsigned_part(token@);
    assert(digits =~= token@.subrange(start as int, token@.len() as int));
    if start == token.len() {
        return None;
    }
    let mut value: SquareType = 0;
    let mut k: usize = start;
    assert(digits.take(0) =~= Seq::<char>::empty());
    while k < token.len()
        invariant
            start <= k <= token@.len(),
            start < token@.len(),
            token@[0] != '-',
            digits == unsigned_part(token@),
            digits == token@.subrange(start as int, token@.len() as int),
            forall|j: int| 0 <= j < k - start ==> is_digit(#[trigger] digits[j]),
            value == digits_value(digits.take(k - start)),
            0 <= value,
            value <= max_value || k == start,
        decreases token@.len() - k,
    {
        let c = token[k];
        assert(digits[k - start] == c);
        let digit = match digit_value(c) {
            Some(d) => d,
            None => {
                assert(!is_digit(digits[k - start]));
                return None;
            },
        };
        proof {
            let longer = digits.take(k - start + 1);
            assert(longer.drop_last() =~= digits.take(k - start));
            assert(longer.last() == digits[k - start]);
        }
        if max_value < digit || value > (max_value - digit) / 10 {
            proof {
                let reached = 10 * value + digit;
                assert(reached > max_value) by {
                    if max_value >= digit {
                        assert(10 * ((max_value - digit) / 10) + 10 > max_value - digit) by {
                            vstd::arithmetic::div_mod::lemma_fundamental_div_mod(
                                (max_value - digit) as int,
                                10,
                            );
                        }
                    }
                }
                if number_of(token@).is_some() {
                    lemma_digits_value_grows(digits, k - start + 1);
                }
            }
            return None;
        }
        proof {
            vstd::arithmetic::div_mod::lemma_fundamental_div_mod((max_value - digit) as int, 10);
        }
        value = value * 10 + digit;
        k += 1;
    }
    assert(digits.take(digits.len() as int) =~= digits);
    if value >= 1 {
        Some(value)
    } else {
        None
    }
}


/// The text of the digit that writes `d`.
pub fn digit_str(d: u64) -> (text: &'static str)
    requires
        d < 10,
    ensures
        text@ == seq![digit_char(d as int)],
{
    proof {
        reveal_strlit("0");
        reveal_strlit("1");
        reveal_strlit("2");
        reveal_strlit("3");
        reveal_strlit("4");
        reveal_strlit("5");
        reveal_strlit("6");
        reveal_strlit("7");
        reveal_strlit("8");
        reveal_strlit("9");
    }
    let text = match d {
        0 => "0",
        1 => "1",
        2 => "2",
        3 => "3",
        4 => "4",
        5 => "5",
        6 => "6",
        7 => "7",
        8 => "8",
        _ => "9",
    };
    assert(text@ =~= seq![digit_char(d as int)]);
    text
}

/// Appends to `text` the number `n` in base ten.
pub fn push_decimal(text: &mut String, n: u64)
    ensures
        final(text)@ == old(text)@ + decimal(n as nat),
    decreases n,
{
    if n >= 10 {
        push_decimal(text, n / 10);
    }
    text.append(digit_str(n % 10));
    proof {
        if n >= 10 {
            assert(final(text)@ =~= old(text)@ + decimal(n as nat));
        } else {
            assert(final(text)@ =~= old(text)@ + decimal(n as nat));
        }
    }
}

/// Appends to `text` what `cell` is written as.
pub fn push_cell(text: &mut String, cell: Option<SquareType>)
    ensures
        final(text)@ == old(text)@ + cell_text(cell),
{
    match cell {
        Some(v) => {
            if v < 0 {
                proof {
                    reveal_strlit("-");
                }
                text.append("-");
                push_decimal(text, (-(v as i64)) as u64);
                assert(final(text)@ =~= old(text)@ + cell_text(cell));
            } else {
                push_decimal(text, v as u64);
            }
        },
        None => {
            proof {
                reveal_strlit("0");
            }
            text.append("0");
            assert(final(text)@ =~= old(text)@ + cell_text(cell));
        },
    }
}

impl Board {
    /// The board that `s` stands for: one cell per token, on an otherwise
    /// empty board of as many cells as there are tokens. A token that is
    /// zero, that writes no number or whose number is out of the board's
    /// range gives an empty cell.
    pub fn from_string(s: &str) -> (board: Board)
        ensures
            board.shaped_for(tokens_of(s@).len() as int),
            board.squares@ == cells_of_text(s@),
            board.squared_up() ==> board.wf(),
    {
        let ink = ink_of(s);
        let tokens = split_tokens(&ink);
        let ghost views = tokens_of(s@);
        assert(token_views(tokens@) == views);
        assert(tokens@.len() == views.len());
        let mut game_board = Board::from_size(tokens.len());
        let max_value = game_board.max_value;

        let mut i: usize = 0;
        while i < tokens.len()
            invariant
                i <= tokens@.len(),
                token_views(tokens@) == views,
                game_board.shaped_for(tokens@.len() as int),
                max_value == game_board.max_value,
                game_board.squares@.len() == tokens@.len(),
                forall|k: int|
                    0 <= k < i ==> #[trigger] game_board.squares@[k] == cell_of(
                        views[k],
                        max_value as int,
                    ),
            decreases tokens@.len() - i,
        {
            assert(views[i as int] == tokens@[i as int]@);
            let cell = parse_token(&tokens[i], max_value);
            game_board.squares.set(i, cell);
            i += 1;
        }
        assert(game_board.squares@ =~= cells_of_text(s@));
        game_board
    }

    /// The board as text: the cells in row-major order, each as its value in
    /// base ten or as `0` when it is empty, with a comma between each two.
    pub fn to_string(&self) -> (text: String)
        ensures
            text@ == text_of(self.squares@),
    {
        let mut text = String::new();
        let mut i: usize = 0;
        assert(self.squares@.take(0) =~= Seq::<Option<i32>>::empty());
        while i < self.squares.len()
            invariant
                i <= self.squares@.len(),
                text@ == text_of(self.squares@.take(i as int)),
            decreases self.squares@.len() - i,
        {
            let ghost so_far = text@;
            if i > 0 {
                proof {
                    reveal_strlit(",");
                }
                text.append(",");
                assert(text@ =~= so_far + seq![',']);
            }
            push_cell(&mut text, self.squares[i]);
            proof {
                let longer = self.squares@.take(i + 1);
                assert(longer.drop_last() =~= self.squares@.take(i as int));
                assert(longer.last() == self.squares@[i as int]);
                if i == 0 {
                    assert(text@ =~= cell_text(self.squares@[0]));
                }
            }
            i += 1;
        }
        assert(self.squares@.take(self.squares@.len() as int) =~= self.squares@);
        text
    }
}


/// A number in base ten is one digit or more and nothing else, and its
/// digits write the number.
pub proof fn lemma_decimal(n: nat)
    ensures
        decimal(n).len() > 0,
        forall|k: int| 0 <= k < decimal(n).len() ==> is_digit(#[trigger] decimal(n)[k]),
        digits_value(decimal(n)) == n,
    decreases n,
{
    if n < 10 {
        assert(decimal(n).drop_last() =~= Seq::<char>::empty());
        assert(digits_value(decimal(n).drop_last()) == 0);
    } else {
        lemma_decimal(n / 10);
        let front = decimal(n / 10);
        let all = decimal(n);
        assert(all.drop_last() =~= front);
        assert forall|k: int| 0 <= k < all.len() implies is_digit(#[trigger] all[k]) by {
            if k < front.len() {
                assert(all[k] == front[k]);
            }
        }
    }
}

/// The text of a cell that is empty or holds a positive value is made of
/// digits, and stands for that cell on every board with that value in its
/// range.
pub proof fn lemma_cell_text(cell: Option<i32>, max_value: int)
    requires
        cell.is_some() ==> 1 <= cell.unwrap() <= max_value,
    ensures
        cell_text(cell).len() > 0,
        forall|k: int| 0 <= k < cell_text(cell).len() ==> is_digit(#[trigger] cell_text(cell)[k]),
        cell_of(cell_text(cell), max_value) == cell,
{
    let text = cell_text(cell);
    match cell {
        Some(v) => {
            lemma_decimal(v as nat);
        },
        None => {
            assert(text.drop_last() =~= Seq::<char>::empty());
            assert(digits_value(text.drop_last()) == 0);
            assert(digits_value(text) == 0);
        },
    }
    assert(is_digit(text[0]));
    assert(unsigned_part(text) == text);
}

/// A piece without a comma, put behind a text that is empty or ends in a
/// comma, is one more field.
pub proof fn lemma_fields_push(before: Seq<char>, piece: Seq<char>)
    requires
        before.len() == 0 || before.last() == ',',
        piece.len() > 0,
        forall|k: int| 0 <= k < piece.len() ==> #[trigger] piece[k] != ',',
    ensures
        fields(before + piece) == fields(before).push(piece),
    decreases piece.len(),
{
    let all = before + piece;
    let front = piece.drop_last();
    assert(all.drop_last() =~= before + front);
    assert(all.last() == piece.last());
    if front.len() == 0 {
        assert(before + front =~= before);
        assert(piece =~= seq![piece.last()]);
        if all.len() >= 2 {
            assert(all[all.len() - 2] == before.last());
        }
    } else {
        lemma_fields_push(before, front);
        assert(all[all.len() - 2] == front.last());
        let earlier = fields(before).push(front);
        assert(earlier.drop_last() =~= fields(before));
        assert(earlier.last().push(piece.last()) =~= piece);
    }
}

/// The text of a list of cells that are empty or hold positive values
/// holds digits and commas only, has a comma exactly when the list has two
/// cells or more, and its fields are the texts of the cells.
pub proof fn lemma_text_fields(cells: Seq<Option<i32>>)
    requires
        forall|k: int| 0 <= k < cells.len() && (#[trigger] cells[k]).is_some() ==> 1 <= cells[k].unwrap(),
    ensures
        forall|k: int|
            0 <= k < text_of(cells).len() ==> is_digit(#[trigger] text_of(cells)[k]) || text_of(
                cells,
            )[k] == ',',
        text_of(cells).contains(',') <==> cells.len() >= 2,
        cells.len() >= 1 ==> text_of(cells).len() > 0 && text_of(cells).last() != ',',
        fields(text_of(cells)) == cells.map_values(|c: Option<i32>| cell_text(c)),
    decreases cells.len(),
{
    let text = text_of(cells);
    let texts = cells.map_values(|c: Option<i32>| cell_text(c));
    if cells.len() == 0 {
        assert(fields(text) =~= texts);
    } else {
        let last = cell_text(cells.last());
        lemma_cell_text(cells.last(), i32::MAX as int);
        assert forall|k: int| 0 <= k < last.len() implies #[trigger] last[k] != ',' by {
            assert(is_digit(last[k]));
        }
        if cells.len() == 1 {
            assert(text == last);
            assert(Seq::<char>::empty() + last =~= last);
            lemma_fields_push(Seq::<char>::empty(), last);
            assert(fields(text) =~= texts);
            if text.contains(',') {
                let k = choose|k: int| 0 <= k < text.len() && text[k] == ',';
                assert(is_digit(last[k]));
            }
        } else {
            let front = cells.drop_last();
            assert forall|k: int| 0 <= k < front.len() && (#[trigger] front[k]).is_some() implies 1
                <= front[k].unwrap() by {
                assert(front[k] == cells[k]);
            }
            lemma_text_fields(front);
            let head = text_of(front) + seq![','];
            assert(text == head + last);
            assert(head.last() == ',');
            assert(head.drop_last() =~= text_of(front));
            lemma_fields_push(head, last);
            assert(fields(head) == fields(text_of(front)));
            assert(fields(text) =~= texts) by {
                let front_texts = front.map_values(|c: Option<i32>| cell_text(c));
                assert(fields(text) == front_texts.push(last));
                assert(front_texts.push(last) =~= texts);
            }
            assert(text[text_of(front).len() as int] == ',');
            assert(text.last() == last.last());
            assert forall|k: int| 0 <= k < text.len() implies is_digit(#[trigger] text[k])
                || text[k] == ',' by {
                if k < text_of(front).len() {
                    assert(text[k] == text_of(front)[k]);
                } else if k > text_of(front).len() {
                    assert(text[k] == last[k - text_of(front).len() - 1]);
                }
            }
        }
    }
}

/// A text without white space is left whole when white space is dropped.
pub proof fn lemma_all_ink(text: Seq<char>)
    requires
        forall|k: int| 0 <= k < text.len() ==> !is_space(#[trigger] text[k]),
    ensures
        text.filter(is_ink()) == text,
    decreases text.len(),
{
    reveal(Seq::filter);
    if text.len() > 0 {
        let front = text.drop_last();
        assert forall|k: int| 0 <= k < front.len() implies !is_space(#[trigger] front[k]) by {
            assert(front[k] == text[k]);
        }
        lemma_all_ink(front);
        assert(text.filter(is_ink()) =~= text);
    }
}

impl Board {
    /// The board is one that a text can stand for: its fields other than
    /// the cells are those of a board made for as many cells as it has, and
    /// its values lie in its range. Every well-formed board is.
    pub open spec fn legible(&self) -> bool {
        &&& self.shaped_for(self.squares@.len() as int)
        &&& forall|k: int|
            0 <= k < self.squares@.len() && (#[trigger] self.squares@[k]).is_some() ==> 1
                <= self.squares@[k].unwrap() <= self.max_value
    }

    /// A well-formed board is legible.
    pub proof fn lemma_legible(&self)
        requires
            self.wf(),
        ensures
            self.legible(),
    {
        lemma_floor_sqrt_of_square(self.side_length as int);
        lemma_floor_sqrt_of_square(self.base_num as int);
        assert forall|k: int|
            0 <= k < self.squares@.len() && (#[trigger] self.squares@[k]).is_some() implies 1
            <= self.squares@[k].unwrap() <= self.max_value by {
            assert(self@.value_ok(self@.cells[k]));
        }
    }
}

/// The cells that the text of a legible board stands for are the cells of
/// the board.
pub proof fn lemma_cells_round_trip(board: Board)
    requires
        board.legible(),
    ensures
        tokens_of(text_of(board.squares@)).len() == board.squares@.len(),
        cells_of_text(text_of(board.squares@)) == board.squares@,
{
    let cells = board.squares@;
    let text = text_of(cells);
    let max_value = board.max_value as int;
    assert forall|k: int| 0 <= k < cells.len() && (#[trigger] cells[k]).is_some() implies 1
        <= cells[k].unwrap() by {
        assert(board.squares@[k].is_some());
    }
    lemma_text_fields(cells);
    assert forall|k: int| 0 <= k < text.len() implies !is_space(#[trigger] text[k]) by {
        assert(is_digit(text[k]) || text[k] == ',');
    }
    lemma_all_ink(text);
    let texts = cells.map_values(|c: Option<i32>| cell_text(c));
    let tokens = tokens_of(text);
    if cells.len() == 1 {
        lemma_floor_sqrt_of_square(1);
        assert(floor_sqrt(1) == 1);
        assert(max_value == 1);
        assert(text == cell_text(cells[0]));
        match cells[0] {
            Some(v) => {
                assert(board.squares@[0].is_some());
                assert(v == 1);
                assert(decimal(1) =~= seq![digit_char(1)]);
            },
            None => {},
        }
        assert(text.len() == 1);
        assert(!text.contains(','));
        assert(tokens =~= texts);
    } else if cells.len() == 0 {
        assert(tokens =~= texts);
    } else {
        assert(tokens == fields(text));
    }
    assert(tokens == texts);
    assert(max_value_for(cells.len() as int) == max_value);
    assert forall|k: int| 0 <= k < cells.len() implies cell_of(tokens[k], max_value)
        == cells[k] by {
        if cells[k].is_some() {
            assert(board.squares@[k].is_some());
        }
        lemma_cell_text(cells[k], max_value);
    }
    assert(cells_of_text(text) =~= cells);
}

/// Writing a board as text and reading the text gives the board back:
/// `parsed`, which is to the text of `board` what `from_string` makes of a
/// text, has every field of `board`. This holds of every well-formed board,
/// and of every other board that `from_string` can give.
pub proof fn lemma_text_round_trip(board: Board, parsed: Board)
    requires
        board.wf() || board.legible(),
        parsed.shaped_for(tokens_of(text_of(board.squares@)).len() as int),
        parsed.squares@ == cells_of_text(text_of(board.squares@)),
    ensures
        parsed.same_as(&board),
{
    if board.wf() {
        board.lemma_legible();
    }
    lemma_cells_round_trip(board);
}

} // verus!
