use vstd::prelude::*;
use crate::grid::{
    Position, KeyboardLayout, WIDTH, HEIGHT, valid_position, wrap, key_at, first_occurrence,
    on_grid, grid_find, lemma_grid_find_some,
};
use crate::instruction::{
    Instruction, token_instruction, all_digits, digits_value, count_of, split_tokens, join_tokens,
    lemma_split_extend, lemma_split_nonempty,
};
use crate::keyboard::{SessionState, apply, run_tokens, interpret, cleared, repositioned, rendered};
use crate::synthesis::{
    digit_char, decimal, move_token, horizontal_tokens, vertical_tokens, char_tokens, synthesize,
};

verus! {

/// Shifting a valid position by whole turns around the grid, then wrapping,
/// gives the position back.
pub proof fn lemma_wrap_periodic(x: usize, y: usize, k: int)
    requires
        valid_position((x, y)),
    ensures
        wrap(x + WIDTH * k, y + HEIGHT * k) == (x, y),
{
    vstd::arithmetic::div_mod::lemma_mod_multiples_vanish(k, x as int, WIDTH as int);
    vstd::arithmetic::div_mod::lemma_mod_multiples_vanish(k, y as int, HEIGHT as int);
    assert(WIDTH * k == k * WIDTH) by (nonlinear_arith);
    assert(HEIGHT * k == k * HEIGHT) by (nonlinear_arith);
}

/// Clearing leaves nothing to render, whatever the state was; moving the
/// cursor leaves the output as it was.
pub proof fn lemma_clear_and_reposition(st: SessionState, p: Position)
    ensures
        rendered(cleared(st)) == Seq::<char>::empty(),
        rendered(repositioned(st, p)) == rendered(st),
{
}

/// Every character of `text` is a space, a newline or a key of the layout.
pub open spec fn typeable(layout: KeyboardLayout, text: Seq<char>) -> bool {
    forall|i: int| 0 <= i < text.len() ==> {
        let c = #[trigger] text[i];
        c == ' ' || c == '\n' || on_grid(layout, c)
    }
}

proof fn lemma_first_occurrence_from(layout: KeyboardLayout, c: char, x: usize, y: usize)
    requires
        on_grid(layout, c),
        y < HEIGHT,
        x <= WIDTH,
        forall|q: Position| valid_position(q) && (q.1 < y || (q.1 == y && q.0 < x))
            ==> key_at(layout, q) != c,
    ensures
        exists|p: Position| first_occurrence(layout, c, p),
    decreases HEIGHT - y, WIDTH - x,
{
    if x == WIDTH {
        if y + 1 < HEIGHT {
            lemma_first_occurrence_from(layout, c, 0, (y + 1) as usize);
        }
    } else if key_at(layout, (x, y)) == c {
        assert(first_occurrence(layout, c, (x, y)));
    } else {
        lemma_first_occurrence_from(layout, c, (x + 1) as usize, y);
    }
}

/// A key of the layout has a first position.
pub proof fn lemma_on_grid_found(layout: KeyboardLayout, c: char)
    requires
        on_grid(layout, c),
    ensures
        grid_find(layout, c) is Some,
{
    lemma_first_occurrence_from(layout, c, 0, 0);
}

/// Running `a` then `b` is running their concatenation.
pub proof fn lemma_run_concat(layout: KeyboardLayout, st: SessionState, a: Seq<Seq<char>>, b: Seq<Seq<char>>)
    ensures
        run_tokens(layout, st, a + b) == run_tokens(layout, run_tokens(layout, st, a), b),
    decreases b.len(),
{
    if b.len() == 0 {
        assert(a + b =~= a);
    } else {
        lemma_run_concat(layout, st, a, b.drop_last());
        assert((a + b).drop_last() =~= a + b.drop_last());
        assert((a + b).last() == b.last());
    }
}

proof fn lemma_run_single(layout: KeyboardLayout, st: SessionState, t: Seq<char>)
    ensures
        run_tokens(layout, st, seq![t]) == apply(layout, st, token_instruction(t)),
{
    assert(seq![t].drop_last() =~= Seq::<Seq<char>>::empty());
    reveal_with_fuel(run_tokens, 2);
}

proof fn lemma_move_token(code: char, n: nat)
    requires
        1 <= n < 10,
    ensures
        move_token(code, n) =~= seq![code, ':', digit_char(n)],
        all_digits(move_token(code, n).subrange(2, 3)),
        count_of(move_token(code, n).subrange(2, 3)) == n,
{
    let d = seq![digit_char(n)];
    assert(decimal(n) == d);
    assert(move_token(code, n).subrange(2, 3) =~= d);
    assert(d.drop_last() =~= Seq::<char>::empty());
    assert((digit_char(n) as u32 - '0' as u32) as nat == n);
    reveal_with_fuel(digits_value, 2);
    assert(digits_value(d) == n);
}

proof fn lemma_horizontal(layout: KeyboardLayout, st: SessionState, to: usize)
    requires
        valid_position(st.0),
        to < WIDTH,
    ensures
        run_tokens(layout, st, horizontal_tokens(st.0.0 as int, to as int)) == ((to, st.0.1), st.1),
{
    let p = st.0;
    if to > p.0 {
        let n = (to - p.0) as nat;
        lemma_move_token('R', n);
        lemma_run_single(layout, st, move_token('R', n));
        assert(token_instruction(move_token('R', n)) == Instruction::Right(n as usize));
    } else if to < p.0 {
        let n = (p.0 - to) as nat;
        lemma_move_token('L', n);
        lemma_run_single(layout, st, move_token('L', n));
        assert(token_instruction(move_token('L', n)) == Instruction::Left(n as usize));
    } else {
        assert((p.1 as int) % (HEIGHT as int) == p.1);
    }
}

proof fn lemma_vertical(layout: KeyboardLayout, st: SessionState, to: usize)
    requires
        valid_position(st.0),
        to < HEIGHT,
    ensures
        run_tokens(layout, st, vertical_tokens(st.0.1 as int, to as int)) == ((st.0.0, to), st.1),
{
    let p = st.0;
    if to > p.1 {
        let n = (to - p.1) as nat;
        lemma_move_token('D', n);
        lemma_run_single(layout, st, move_token('D', n));
        assert(token_instruction(move_token('D', n)) == Instruction::Down(n as usize));
    } else if to < p.1 {
        let n = (p.1 - to) as nat;
        lemma_move_token('U', n);
        lemma_run_single(layout, st, move_token('U', n));
        assert(token_instruction(move_token('U', n)) == Instruction::Up(n as usize));
    }
}

proof fn lemma_char_step(layout: KeyboardLayout, p: Position, out: Seq<char>, c: char)
    requires
        valid_position(p),
        c == ' ' || c == '\n' || on_grid(layout, c),
    ensures
        run_tokens(layout, (p, out), char_tokens(layout, c, p).0) == (char_tokens(layout, c, p).1, out.push(c)),
        valid_position(char_tokens(layout, c, p).1),
{
    if c == ' ' {
        lemma_run_single(layout, (p, out), seq!['_']);
        assert(token_instruction(seq!['_']) == Instruction::Space);
    } else if c == '\n' {
        lemma_run_single(layout, (p, out), seq!['N']);
        assert(token_instruction(seq!['N']) == Instruction::NewLine);
    } else {
        lemma_on_grid_found(layout, c);
        lemma_grid_find_some(layout, c);
        let t = grid_find(layout, c)->0;
        let h = horizontal_tokens(p.0 as int, t.0 as int);
        let v = vertical_tokens(p.1 as int, t.1 as int);
        let s = seq![seq!['S']];
        lemma_horizontal(layout, (p, out), t.0);
        lemma_vertical(layout, ((t.0, p.1), out), t.1);
        lemma_run_concat(layout, (p, out), h + v, s);
        lemma_run_concat(layout, (p, out), h, v);
        lemma_run_single(layout, (t, out), seq!['S']);
        assert(token_instruction(seq!['S']) == Instruction::Select);
    }
}

proof fn lemma_synthesize_runs(layout: KeyboardLayout, text: Seq<char>, p: Position)
    requires
        valid_position(p),
        typeable(layout, text),
    ensures
        run_tokens(layout, (p, Seq::empty()), synthesize(layout, text, p).0)
            == (synthesize(layout, text, p).1, text),
        valid_position(synthesize(layout, text, p).1),
    decreases text.len(),
{
    if text.len() == 0 {
    } else {
        let init = text.drop_last();
        assert forall|i: int| 0 <= i < init.len() implies {
            let c = #[trigger] init[i];
            c == ' ' || c == '\n' || on_grid(layout, c)
        } by {
            assert(init[i] == text[i]);
        }
        lemma_synthesize_runs(layout, init, p);
        let prev = synthesize(layout, init, p);
        let c = text.last();
        assert(c == text[text.len() - 1]);
        lemma_char_step(layout, prev.1, init, c);
        lemma_run_concat(layout, (p, Seq::empty()), prev.0, char_tokens(layout, c, prev.1).0);
        assert(init.push(c) =~= text);
    }
}

/// A token with at least one character and no comma.
pub open spec fn plain_token(t: Seq<char>) -> bool {
    t.len() >= 1 && forall|j: int| 0 <= j < t.len() ==> t[j] != ','
}

proof fn lemma_decimal_plain(n: nat)
    ensures
        plain_token(decimal(n)),
    decreases n,
{
    if n >= 10 {
        lemma_decimal_plain(n / 10);
        let d = decimal(n / 10);
        let e = d.push(digit_char(n % 10));
        assert forall|j: int| 0 <= j < e.len() implies #[trigger] e[j] != ',' by {
            if j < d.len() {
                assert(e[j] == d[j]);
            }
        }
    }
}

proof fn lemma_move_plain(code: char, n: nat)
    requires
        code != ',',
    ensures
        plain_token(move_token(code, n)),
{
    lemma_decimal_plain(n);
    let t = move_token(code, n);
    assert forall|j: int| 0 <= j < t.len() implies t[j] != ',' by {
        if j >= 2 {
            assert(t[j] == decimal(n)[j - 2]);
        }
    }
}

proof fn lemma_synthesize_plain(layout: KeyboardLayout, text: Seq<char>, p: Position)
    ensures
        forall|i: int| 0 <= i < synthesize(layout, text, p).0.len()
            ==> plain_token(#[trigger] synthesize(layout, text, p).0[i]),
    decreases text.len(),
{
    if text.len() > 0 {
        lemma_synthesize_plain(layout, text.drop_last(), p);
        let prev = synthesize(layout, text.drop_last(), p);
        let next = char_tokens(layout, text.last(), prev.1);
        let q = prev.1;
        if let Some(t) = grid_find(layout, text.last()) {
            if t.0 > q.0 {
                lemma_move_plain('R', (t.0 - q.0) as nat);
            } else if t.0 < q.0 {
                lemma_move_plain('L', (q.0 - t.0) as nat);
            }
            if t.1 > q.1 {
                lemma_move_plain('D', (t.1 - q.1) as nat);
            } else if t.1 < q.1 {
                lemma_move_plain('U', (q.1 - t.1) as nat);
            }
        }
        assert(plain_token(seq!['S']));
        assert(plain_token(seq!['_']));
        assert(plain_token(seq!['N']));
        assert forall|i: int| 0 <= i < (prev.0 + next.0).len()
            implies plain_token(#[trigger] (prev.0 + next.0)[i]) by {
            if i < prev.0.len() {
                assert((prev.0 + next.0)[i] == prev.0[i]);
            } else {
                assert((prev.0 + next.0)[i] == next.0[i - prev.0.len()]);
            }
        }
    }
}

/// Splitting joined plain tokens gives them back.
pub proof fn lemma_split_join(tokens: Seq<Seq<char>>)
    requires
        tokens.len() >= 1,
        forall|i: int| 0 <= i < tokens.len() ==> plain_token(#[trigger] tokens[i]),
    ensures
        split_tokens(join_tokens(tokens)) == tokens,
    decreases tokens.len(),
{
    let last = tokens.last();
    assert(plain_token(tokens[tokens.len() - 1]));
    if tokens.len() == 1 {
        lemma_split_extend(last, 0, last.len() as int);
        assert(last.take(last.len() as int) =~= last);
        assert(last.take(0) =~= Seq::<char>::empty());
        assert(split_tokens(Seq::<char>::empty()).drop_last().push(last.subrange(0, last.len() as int))
            =~= tokens);
    } else {
        let init = tokens.drop_last();
        assert forall|i: int| 0 <= i < init.len() implies plain_token(#[trigger] init[i]) by {
            assert(init[i] == tokens[i]);
        }
        lemma_split_join(init);
        let j = join_tokens(init);
        let s = join_tokens(tokens);
        assert(s == j + seq![','] + last);
        let start: int = j.len() as int + 1;
        assert forall|k: int| start <= k < s.len() implies s[k] != ',' by {
            assert(s[k] == last[k - start]);
        }
        lemma_split_extend(s, start, s.len() as int);
        assert(s.take(s.len() as int) =~= s);
        assert(s.take(start).drop_last() =~= j);
        assert(s.take(start).last() == ',');
        lemma_split_nonempty(j);
        assert(split_tokens(j).push(Seq::<char>::empty()).drop_last() =~= split_tokens(j));
        assert(s.subrange(start, s.len() as int) =~= last);
        assert(init.push(last) =~= tokens);
    }
}

/// Running the instructions synthesized for a text made of keys, spaces and
/// newlines, from the same start and with an empty output, types the text.
pub proof fn lemma_round_trip(layout: KeyboardLayout, text: Seq<char>, p: Position)
    requires
        valid_position(p),
        typeable(layout, text),
    ensures
        interpret(layout, (p, Seq::empty()), join_tokens(synthesize(layout, text, p).0)).1 == text,
{
    let tokens = synthesize(layout, text, p).0;
    lemma_synthesize_runs(layout, text, p);
    if tokens.len() == 0 {
        let e = Seq::<char>::empty();
        assert(split_tokens(e) == seq![e]);
        lemma_run_single(layout, (p, e), e);
        assert(run_tokens(layout, (p, e), tokens) == (p, e));
    } else {
        lemma_synthesize_plain(layout, text, p);
        lemma_split_join(tokens);
    }
}

} // verus!
