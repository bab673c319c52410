use vstd::prelude::*;
use crate::grid::{Position, KeyboardLayout, WIDTH, HEIGHT, valid_position, wrap, key_at, key_under};
use crate::instruction::{Instruction, token_instruction, split_tokens, parse_token, lemma_split_nonempty, lemma_split_extend};
use crate::text::{chars_of, string_of};

verus! {

/// A cursor over a keyboard layout, with the keys selected so far.
pub struct Keyboard {
    pub keyboard_layout: KeyboardLayout,
    pub position: Position,
    pub selected_keys: Vec<char>,
}

/// The cursor position and the output of a session.
pub type SessionState = (Position, Seq<char>);

/// The state after one operation.
pub open spec fn apply(layout: KeyboardLayout, st: SessionState, ins: Instruction) -> SessionState {
    let p = st.0;
    let out = st.1;
    match ins {
        Instruction::Left(n) => (wrap(p.0 - n, p.1 as int), out),
        Instruction::Right(n) => (wrap(p.0 + n, p.1 as int), out),
        Instruction::Up(n) => (wrap(p.0 as int, p.1 - n), out),
        Instruction::Down(n) => (wrap(p.0 as int, p.1 + n), out),
        Instruction::Space => (p, out.push(' ')),
        Instruction::NewLine => (p, out.push('\n')),
        Instruction::Select => (p, out.push(key_at(layout, p))),
        Instruction::Unknown => st,
    }
}

/// The state after the tokens, applied in order.
pub open spec fn run_tokens(layout: KeyboardLayout, st: SessionState, tokens: Seq<Seq<char>>) -> SessionState
    decreases tokens.len(),
{
    if tokens.len() == 0 {
        st
    } else {
        apply(layout, run_tokens(layout, st, tokens.drop_last()), token_instruction(tokens.last()))
    }
}

/// The state after an instruction string.
pub open spec fn interpret(layout: KeyboardLayout, st: SessionState, instructions: Seq<char>) -> SessionState {
    run_tokens(layout, st, split_tokens(instructions))
}

/// The state after the output is emptied: the cursor stays.
pub open spec fn cleared(st: SessionState) -> SessionState {
    (st.0, Seq::empty())
}

/// The state after the cursor is moved to `p` (wrapped): the output stays.
pub open spec fn repositioned(st: SessionState, p: Position) -> SessionState {
    (wrap(p.0 as int, p.1 as int), st.1)
}

/// What a session shows: its output.
pub open spec fn rendered(st: SessionState) -> Seq<char> {
    st.1
}

impl Keyboard {
    /// The session state: cursor position and output.
    pub open spec fn state(&self) -> SessionState {
        (self.position, self.selected_keys@)
    }

    /// The cursor is on the grid.
    pub open spec fn wf(&self) -> bool {
        valid_position(self.position)
    }

    /// A keyboard over `layout` with its cursor at `position` (wrapped) and no output.
    pub fn new(keyboard_layout: KeyboardLayout, position: Position) -> (k: Keyboard)
        ensures
            k.wf(),
            k.keyboard_layout == keyboard_layout,
            k.state() == (wrap(position.0 as int, position.1 as int), Seq::<char>::empty()),
    {
        Keyboard {
            keyboard_layout,
            position: (position.0 % WIDTH, position.1 % HEIGHT),
            selected_keys: Vec::new(),
        }
    }

    /// Moves the cursor to `position`, wrapped around the edges; the output is kept.
    pub fn update_position(&mut self, position: Position)
        ensures
            final(self).wf(),
            final(self).keyboard_layout == old(self).keyboard_layout,
            final(self).state() == repositioned(old(self).state(), position),
    {
        self.position = (position.0 % WIDTH, position.1 % HEIGHT);
    }

    fn selected_key(&mut self, key: char)
        ensures
            final(self).position == old(self).position,
            final(self).keyboard_layout == old(self).keyboard_layout,
            final(self).selected_keys@ == old(self).selected_keys@.push(key),
    {
        self.selected_keys.push(key);
    }

    /// Applies one operation.
    pub fn execute(&mut self, instruction: Instruction)
        requires
            old(self).wf(),
        ensures
            final(self).wf(),
            final(self).keyboard_layout == old(self).keyboard_layout,
            final(self).state() == apply(old(self).keyboard_layout, old(self).state(), instruction),
    {
        let (x, y) = self.position;
        match instruction {
            Instruction::Left(count) => {
                self.update_position((x + (WIDTH - count % WIDTH), y));
                assert((x + (WIDTH - count % WIDTH) as int) % (WIDTH as int) == (x - count) % (WIDTH as int)) by (nonlinear_arith)
                    requires x < WIDTH, WIDTH == 10;
            },
            Instruction::Up(count) => {
                self.update_position((x, y + (HEIGHT - count % HEIGHT)));
                assert((y + (HEIGHT - count % HEIGHT) as int) % (HEIGHT as int) == (y - count) % (HEIGHT as int)) by (nonlinear_arith)
                    requires y < HEIGHT, HEIGHT == 4;
            },
            Instruction::Right(count) => {
                self.update_position((x + count % WIDTH, y));
                assert((x + count % WIDTH) as int % (WIDTH as int) == (x + count) % (WIDTH as int)) by (nonlinear_arith)
                    requires x < WIDTH, WIDTH == 10;
            },
            Instruction::Down(count) => {
                self.update_position((x, y + count % HEIGHT));
                assert((y + count % HEIGHT) as int % (HEIGHT as int) == (y + count) % (HEIGHT as int)) by (nonlinear_arith)
                    requires y < HEIGHT, HEIGHT == 4;
            },
            Instruction::Space => self.selected_key(' '),
            Instruction::NewLine => self.selected_key('\n'),
            Instruction::Select => {
                let key = key_under(&self.keyboard_layout, self.position);
                self.selected_key(key);
            },
            Instruction::Unknown => {},
        }
    }

    /// Runs a comma-separated instruction string, token by token.
    pub fn run(&mut self, instructions: &str)
        requires
            old(self).wf(),
        ensures
            final(self).wf(),
            final(self).keyboard_layout == old(self).keyboard_layout,
            final(self).state() == interpret(old(self).keyboard_layout, old(self).state(), instructions@),
    {
        let chars = chars_of(instructions);
        let ghost s = chars@;
        let ghost layout = self.keyboard_layout;
        let ghost st0 = self.state();
        let mut start: usize = 0;
        let mut i: usize = 0;
        proof {
            lemma_split_nonempty(s.take(0));
            assert(s.take(0) =~= Seq::<char>::empty());
            assert(split_tokens(s.take(0)).drop_last() =~= Seq::<Seq<char>>::empty());
        }
        while i < chars.len()
            invariant
                s == chars@,
                s == instructions@,
                start <= i <= chars.len(),
                start == 0 || s[start - 1] == ',',
                forall|j: int| start <= j < i ==> s[j] != ',',
                self.wf(),
                self.keyboard_layout == layout,
                self.state() == run_tokens(layout, st0, split_tokens(s.take(start as int)).drop_last()),
            decreases chars.len() - i,
        {
            if chars[i] == ',' {
                let ins = parse_token(&chars, start, i);
                self.execute(ins);
                proof {
                    lemma_split_extend(s, start as int, i as int);
                    let done = split_tokens(s.take(start as int)).drop_last();
                    let tok = s.subrange(start as int, i as int);
                    assert(s.take(i + 1).drop_last() =~= s.take(i as int));
                    assert(split_tokens(s.take(i + 1)) == done.push(tok).push(Seq::empty()));
                    assert(done.push(tok).push(Seq::<char>::empty()).drop_last() =~= done.push(tok));
                    assert(done.push(tok).drop_last() =~= done);
                }
                start = i + 1;
            }
            i = i + 1;
        }
        let ins = parse_token(&chars, start, i);
        self.execute(ins);
        proof {
            lemma_split_extend(s, start as int, i as int);
            let done = split_tokens(s.take(start as int)).drop_last();
            assert(done.push(s.subrange(start as int, i as int)).drop_last() =~= done);
            assert(s.take(i as int) =~= s);
        }
    }

    /// Empties the output; the cursor stays.
    pub fn clear(&mut self)
        ensures
            final(self).wf() == old(self).wf(),
            final(self).keyboard_layout == old(self).keyboard_layout,
            final(self).state() == cleared(old(self).state()),
    {
        self.selected_keys.truncate(0);
        assert(self.selected_keys@ =~= Seq::<char>::empty());
    }

    /// The output so far, as a string.
    pub fn render(&self) -> (r: String)
        ensures
            r@ == rendered(self.state()),
    {
        string_of(&self.selected_keys)
    }
}

} // verus!
