use vstd::prelude::*;
use crate::grid::{Position, KeyboardLayout, valid_position, grid_find, find_position, lemma_grid_find_some};
use crate::instruction::join_tokens;
use crate::keyboard::Keyboard;
use crate::text::{chars_of, string_of};

verus! {

/// The decimal digit for `d < 10`.
pub open spec fn digit_char(d: nat) -> char {
    if d == 0 {
        '0'
    } else if d == 1 {
        '1'
    } else if d == 2 {
        '2'
    } else if d == 3 {
        '3'
    } else if d == 4 {
        '4'
    } else if d == 5 {
        '5'
    } else if d == 6 {
        '6'
    } else if d == 7 {
        '7'
    } else if d == 8 {
        '8'
    } else {
        '9'
    }
}

/// `n` written in decimal, without leading zeros.
pub open spec fn decimal(n: nat) -> Seq<char>
    decreases n,
{
    if n < 10 {
        seq![digit_char(n)]
    } else {
        decimal(n / 10).push(digit_char(n % 10))
    }
}

/// A move token `CODE:n`.
pub open spec fn move_token(code: char, n: nat) -> Seq<char> {
    seq![code, ':'] + decimal(n)
}

/// The token, if any, that moves the cursor from column `from` to column `to`.
pub open spec fn horizontal_tokens(from: int, to: int) -> Seq<Seq<char>> {
    if to > from {
        seq![move_token('R', (to - from) as nat)]
    } else if to < from {
        seq![move_token('L', (from - to) as nat)]
    } else {
        Seq::empty()
    }
}

/// The token, if any, that moves the cursor from row `from` to row `to`.
pub open spec fn vertical_tokens(from: int, to: int) -> Seq<Seq<char>> {
    if to > from {
        seq![move_token('D', (to - from) as nat)]
    } else if to < from {
        seq![move_token('U', (from - to) as nat)]
    } else {
        Seq::empty()
    }
}

/// The tokens that produce `c` from cursor position `p`, and the position after them.
/// A character that is neither a space, a newline nor on the grid yields no token.
pub open spec fn char_tokens(layout: KeyboardLayout, c: char, p: Position) -> (Seq<Seq<char>>, Position) {
    if c == ' ' {
        (seq![seq!['_']], p)
    } else if c == '\n' {
        (seq![seq!['N']], p)
    } else {
        match grid_find(layout, c) {
            Some(t) => (
                horizontal_tokens(p.0 as int, t.0 as int) + vertical_tokens(p.1 as int, t.1 as int)
                    + seq![seq!['S']],
                t,
            ),
            None => (Seq::empty(), p),
        }
    }
}

/// The tokens that produce `text` from cursor position `p`, and the final position.
pub open spec fn synthesize(layout: KeyboardLayout, text: Seq<char>, p: Position) -> (Seq<Seq<char>>, Position)
    decreases text.len(),
{
    if text.len() == 0 {
        (Seq::empty(), p)
    } else {
        let prev = synthesize(layout, text.drop_last(), p);
        let next = char_tokens(layout, text.last(), prev.1);
        (prev.0 + next.0, next.1)
    }
}

fn digit(d: usize) -> (c: char)
    requires
        d < 10,
    ensures
        c == digit_char(d as nat),
{
    if d == 0 {
        '0'
    } else if d == 1 {
        '1'
    } else if d == 2 {
        '2'
    } else if d == 3 {
        '3'
    } else if d == 4 {
        '4'
    } else if d == 5 {
        '5'
    } else if d == 6 {
        '6'
    } else if d == 7 {
        '7'
    } else if d == 8 {
        '8'
    } else {
        '9'
    }
}

fn push_decimal(out: &mut Vec<char>, n: usize)
    ensures
        final(out)@ == old(out)@ + decimal(n as nat),
    decreases n,
{
    if n >= 10 {
        push_decimal(out, n / 10);
    }
    out.push(digit(n % 10));
    proof {
        if n < 10 {
            assert(n % 10 == n);
        }
    }
    assert(final(out)@ =~= old(out)@ + decimal(n as nat));
}

/// Appends `tok`, preceded by a comma unless it is the first token.
fn push_token(out: &mut Vec<char>, tok: &Vec<char>, first: bool, Ghost(tokens): Ghost<Seq<Seq<char>>>)
    requires
        old(out)@ == join_tokens(tokens),
        first == (tokens.len() == 0),
    ensures
        final(out)@ == join_tokens(tokens.push(tok@)),
{
    if !first {
        out.push(',');
    }
    let mut i: usize = 0;
    let ghost base = out@;
    while i < tok.len()
        invariant
            i <= tok.len(),
            out@ == base + tok@.take(i as int),
        decreases tok.len() - i,
    {
        out.push(tok[i]);
        assert(tok@.take(i + 1) =~= tok@.take(i as int).push(tok@[i as int]));
        i = i + 1;
    }
    assert(tok@.take(i as int) =~= tok@);
    assert(tokens.push(tok@).drop_last() =~= tokens);
    assert(join_tokens(tokens.push(tok@)) =~= out@);
}

fn move_token_vec(code: char, n: usize) -> (r: Vec<char>)
    ensures
        r@ == move_token(code, n as nat),
{
    let mut r: Vec<char> = Vec::new();
    r.push(code);
    r.push(':');
    assert(r@ =~= seq![code, ':']);
    push_decimal(&mut r, n);
    r
}

/// What the pre-scan has learnt so far: each entry is a character with its
/// first position on the grid.
pub open spec fn memo_sound(layout: KeyboardLayout, memo: Seq<(char, Position)>) -> bool {
    forall|k: int| 0 <= k < memo.len() ==> grid_find(layout, (#[trigger] memo[k]).0) == Some(memo[k].1)
}

/// Every character of `seen` that is on the grid has an entry.
pub open spec fn memo_covers(layout: KeyboardLayout, memo: Seq<(char, Position)>, seen: Seq<char>) -> bool {
    forall|j: int| 0 <= j < seen.len() && (grid_find(layout, #[trigger] seen[j]) is Some)
        ==> exists|k: int| 0 <= k < memo.len() && (#[trigger] memo[k]).0 == seen[j]
}

/// The memoized position of `c`, if it has an entry.
fn memo_lookup(memo: &Vec<(char, Position)>, c: char) -> (r: Option<Position>)
    ensures
        match r {
            Some(p) => exists|k: int| 0 <= k < memo.len() && memo@[k] == (c, p),
            None => forall|k: int| 0 <= k < memo.len() ==> (#[trigger] memo@[k]).0 != c,
        },
{
    let mut k: usize = 0;
    while k < memo.len()
        invariant
            k <= memo.len(),
            forall|j: int| 0 <= j < k ==> (#[trigger] memo@[j]).0 != c,
        decreases memo.len() - k,
    {
        let entry = memo[k];
        if entry.0 == c {
            assert(memo@[k as int] == (c, entry.1));
            return Some(entry.1);
        }
        k = k + 1;
    }
    None
}

impl Keyboard {
    /// An instruction string that types `text` when run from the current
    /// cursor position: for each character, the horizontal and
    /// vertical moves, without wrapping, to its first position on the grid,
    /// then a selection;
    /// `_` for a space, `N` for a newline; characters that are not on the
    /// grid are left out.
    pub fn generate_instructions(&self, text: &str) -> (r: String)
        requires
            self.wf(),
        ensures
            r@ == join_tokens(synthesize(self.keyboard_layout, text@, self.position).0),
    {
        let chars = chars_of(text);
        let layout = &self.keyboard_layout;
        let mut memo: Vec<(char, Position)> = Vec::new();
        let mut i: usize = 0;
        while i < chars.len()
            invariant
                i <= chars.len(),
                memo_sound(*layout, memo@),
                memo_covers(*layout, memo@, chars@.take(i as int)),
            decreases chars.len() - i,
        {
            let c = chars[i];
            let ghost old_memo = memo@;
            if memo_lookup(&memo, c).is_none() {
                if let Some(p) = find_position(layout, c) {
                    memo.push((c, p));
                    assert(memo@[old_memo.len() as int] == (c, p));
                }
            }
            assert forall|j: int| 0 <= j < i + 1 && (grid_find(*layout, #[trigger] chars@.take(i + 1)[j]) is Some)
                implies exists|k: int| 0 <= k < memo@.len() && (#[trigger] memo@[k]).0 == chars@.take(i + 1)[j] by {
                if j < i {
                    assert(chars@.take(i + 1)[j] == chars@.take(i as int)[j]);
                    let k = choose|k: int| 0 <= k < old_memo.len() && (#[trigger] old_memo[k]).0 == chars@.take(i as int)[j];
                    assert(memo@[k] == old_memo[k]);
                }
            }
            i = i + 1;
        }
        assert(chars@.take(chars.len() as int) =~= chars@);

        let mut out: Vec<char> = Vec::new();
        let mut position: Position = self.position;
        let mut first = true;
        let ghost mut tokens: Seq<Seq<char>> = Seq::empty();
        let mut i: usize = 0;
        while i < chars.len()
            invariant
                i <= chars.len(),
                chars@ == text@,
                memo_sound(*layout, memo@),
                memo_covers(*layout, memo@, chars@),
                valid_position(position),
                (tokens, position) == synthesize(*layout, chars@.take(i as int), self.position),
                out@ == join_tokens(tokens),
                first == (tokens.len() == 0),
            decreases chars.len() - i,
        {
            let c = chars[i];
            let ghost before = tokens;
            let ghost from = position;
            assert(chars@.take(i + 1).drop_last() =~= chars@.take(i as int));
            assert(chars@.take(i + 1).last() == c);
            if c == ' ' {
                let tok = vec!['_'];
                assert(tok@ =~= seq!['_']);
                push_token(&mut out, &tok, first, Ghost(tokens));
                proof { tokens = tokens.push(tok@); }
                first = false;
                assert(tokens =~= before + seq![seq!['_']]);
            } else if c == '\n' {
                let tok = vec!['N'];
                assert(tok@ =~= seq!['N']);
                push_token(&mut out, &tok, first, Ghost(tokens));
                proof { tokens = tokens.push(tok@); }
                first = false;
                assert(tokens =~= before + seq![seq!['N']]);
            } else {
                match memo_lookup(&memo, c) {
                    Some(target) => {
                        proof {
                            let k = choose|k: int| 0 <= k < memo.len() && memo@[k] == (c, target);
                            assert(memo_sound(*layout, memo@));
                            assert(grid_find(*layout, memo@[k].0) == Some(memo@[k].1));
                            lemma_grid_find_some(*layout, c);
                        }
                        if target.0 > position.0 {
                            let tok = move_token_vec('R', target.0 - position.0);
                            push_token(&mut out, &tok, first, Ghost(tokens));
                            proof { tokens = tokens.push(tok@); }
                            first = false;
                        } else if target.0 < position.0 {
                            let tok = move_token_vec('L', position.0 - target.0);
                            push_token(&mut out, &tok, first, Ghost(tokens));
                            proof { tokens = tokens.push(tok@); }
                            first = false;
                        }
                        assert(tokens =~= before + horizontal_tokens(from.0 as int, target.0 as int));
                        let ghost mid = tokens;
                        if target.1 > position.1 {
                            let tok = move_token_vec('D', target.1 - position.1);
                            push_token(&mut out, &tok, first, Ghost(tokens));
                            proof { tokens = tokens.push(tok@); }
                            first = false;
                        } else if target.1 < position.1 {
                            let tok = move_token_vec('U', position.1 - target.1);
                            push_token(&mut out, &tok, first, Ghost(tokens));
                            proof { tokens = tokens.push(tok@); }
                            first = false;
                        }
                        assert(tokens =~= mid + vertical_tokens(from.1 as int, target.1 as int));
                        let tok = vec!['S'];
                        assert(tok@ =~= seq!['S']);
                        push_token(&mut out, &tok, first, Ghost(tokens));
                        proof { tokens = tokens.push(tok@); }
                        first = false;
                        position = target;
                        assert(tokens =~= before + (horizontal_tokens(from.0 as int, target.0 as int)
                            + vertical_tokens(from.1 as int, target.1 as int) + seq![seq!['S']]));
                    },
                    None => {
                        assert(grid_find(*layout, c) is None) by {
                            if grid_find(*layout, c) is Some {
                                assert(chars@[i as int] == c);
                                let k = choose|k: int| 0 <= k < memo@.len() && (#[trigger] memo@[k]).0 == chars@[i as int];
                            }
                        }
                        assert(tokens =~= before + Seq::<Seq<char>>::empty());
                    },
                }
            }
            i = i + 1;
        }
        assert(chars@.take(i as int) =~= text@);
        string_of(&out)
    }
}

} // verus!
