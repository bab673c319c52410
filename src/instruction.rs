use vstd::prelude::*;
use crate::text::chars_of;

verus! {

/// One operation of the instruction language.
#[derive(Clone, Copy, Debug, PartialEq, Eq, Structural)]
pub enum Instruction {
    Left(usize),
    Up(usize),
    Right(usize),
    Down(usize),
    Space,
    NewLine,
    Select,
    Unknown,
}

/// An ASCII decimal digit.
pub open spec fn is_digit(c: char) -> bool {
    '0' <= c && c <= '9'
}

/// Every character of `s` is a decimal digit.
pub open spec fn all_digits(s: Seq<char>) -> bool {
    forall|i: int| 0 <= i < s.len() ==> is_digit(#[trigger] s[i])
}

/// The number that a string of decimal digits spells.
pub open spec fn digits_value(s: Seq<char>) -> nat
    decreases s.len(),
{
    if s.len() == 0 {
        0
    } else {
        digits_value(s.drop_last()) * 10 + ((s.last() as u32 - '0' as u32) as nat)
    }
}

/// The step count given by the digits after `:`; it falls back to one when
/// there are no digits or their value does not fit in a `usize`.
pub open spec fn count_of(digits: Seq<char>) -> usize {
    if digits.len() > 0 && digits_value(digits) <= usize::MAX {
        digits_value(digits) as usize
    } else {
        1
    }
}

/// One of the codes `L R U D S N _`.
pub open spec fn is_code(c: char) -> bool {
    c == 'L' || c == 'R' || c == 'U' || c == 'D' || c == 'S' || c == 'N' || c == '_'
}

/// The token is a code, optionally followed by `:` and decimal digits.
pub open spec fn well_formed_token(t: Seq<char>) -> bool {
    &&& t.len() >= 1
    &&& is_code(t[0])
    &&& t.len() >= 2 ==> t[1] == ':' && all_digits(t.subrange(2, t.len() as int))
}

/// The operation that a token stands for.
pub open spec fn token_instruction(t: Seq<char>) -> Instruction {
    if !well_formed_token(t) {
        Instruction::Unknown
    } else {
        let n: usize = if t.len() == 1 {
            1
        } else {
            count_of(t.subrange(2, t.len() as int))
        };
        if t[0] == 'L' {
            Instruction::Left(n)
        } else if t[0] == 'R' {
            Instruction::Right(n)
        } else if t[0] == 'U' {
            Instruction::Up(n)
        } else if t[0] == 'D' {
            Instruction::Down(n)
        } else if t[0] == 'S' {
            Instruction::Select
        } else if t[0] == 'N' {
            Instruction::NewLine
        } else {
            Instruction::Space
        }
    }
}

/// The comma-separated pieces of `s`, in order, empty ones included; a
/// string without a comma is a single piece.
pub open spec fn split_tokens(s: Seq<char>) -> Seq<Seq<char>>
    decreases s.len(),
{
    if s.len() == 0 {
        seq![Seq::empty()]
    } else {
        let pieces = split_tokens(s.drop_last());
        if s.last() == ',' {
            pieces.push(Seq::empty())
        } else {
            pieces.update(pieces.len() - 1, pieces.last().push(s.last()))
        }
    }
}

/// The tokens joined by commas, without a trailing comma.
pub open spec fn join_tokens(tokens: Seq<Seq<char>>) -> Seq<char>
    decreases tokens.len(),
{
    if tokens.len() == 0 {
        Seq::empty()
    } else if tokens.len() == 1 {
        tokens[0]
    } else {
        join_tokens(tokens.drop_last()) + seq![','] + tokens.last()
    }
}

/// `split_tokens` never yields an empty list.
pub proof fn lemma_split_nonempty(s: Seq<char>)
    ensures
        split_tokens(s).len() >= 1,
    decreases s.len(),
{
    if s.len() > 0 {
        lemma_split_nonempty(s.drop_last());
    }
}

/// Splitting a prefix that ends inside a comma-free stretch.
pub proof fn lemma_split_extend(s: Seq<char>, start: int, i: int)
    requires
        0 <= start <= i <= s.len(),
        start == 0 || s[start - 1] == ',',
        forall|j: int| start <= j < i ==> s[j] != ',',
    ensures
        split_tokens(s.take(i)) == split_tokens(s.take(start)).drop_last().push(s.subrange(start, i)),
    decreases i - start,
{
    lemma_split_nonempty(s.take(start));
    if i == start {
        if start == 0 {
            assert(s.take(0) =~= Seq::<char>::empty());
            assert(split_tokens(s.take(0)) =~= seq![Seq::<char>::empty()]);
            assert(split_tokens(s.take(start)).drop_last().push(s.subrange(start, i))
                =~= seq![Seq::<char>::empty()]);
        } else {
            assert(s.take(start).drop_last() =~= s.take(start - 1));
            let p = split_tokens(s.take(start - 1));
            assert(split_tokens(s.take(start)) == p.push(Seq::empty()));
            assert(p.push(Seq::<char>::empty()).drop_last() =~= p);
            assert(s.subrange(start, i) =~= Seq::<char>::empty());
        }
    } else {
        lemma_split_extend(s, start, i - 1);
        assert(s.take(i).drop_last() =~= s.take(i - 1));
        assert(s.take(i).last() == s[i - 1]);
        let q = split_tokens(s.take(start)).drop_last();
        assert(s.subrange(start, i - 1).push(s[i - 1]) =~= s.subrange(start, i));
        assert(q.push(s.subrange(start, i - 1)).update(q.len() as int, s.subrange(start, i - 1).push(s[i - 1]))
            =~= q.push(s.subrange(start, i)));
    }
}

impl Instruction {
    /// The operation that one token stands for.
    pub fn from_token(token: &str) -> (r: Instruction)
        ensures
            r == token_instruction(token@),
    {
        let chars = chars_of(token);
        let r = parse_token(&chars, 0, chars.len());
        assert(chars@.subrange(0, chars.len() as int) =~= token@);
        r
    }
}

/// Parses the token `chars[start..end]`.
pub fn parse_token(chars: &Vec<char>, start: usize, end: usize) -> (r: Instruction)
    requires
        start <= end <= chars.len(),
    ensures
        r == token_instruction(chars@.subrange(start as int, end as int)),
{
    let ghost t = chars@.subrange(start as int, end as int);
    if start == end {
        return Instruction::Unknown;
    }
    let code = chars[start];
    if !(code == 'L' || code == 'R' || code == 'U' || code == 'D' || code == 'S' || code == 'N'
        || code == '_') {
        return Instruction::Unknown;
    }
    let mut n: usize = 1;
    if end - start >= 2 {
        if chars[start + 1] != ':' {
            return Instruction::Unknown;
        }
        let mut value: usize = 0;
        let mut overflow = false;
        let mut i: usize = start + 2;
        while i < end
            invariant
                start + 2 <= i <= end <= chars.len(),
                t == chars@.subrange(start as int, end as int),
                all_digits(chars@.subrange(start + 2, i as int)),
                !overflow ==> value == digits_value(chars@.subrange(start + 2, i as int)),
                overflow ==> digits_value(chars@.subrange(start + 2, i as int)) > usize::MAX,
            decreases end - i,
        {
            let c = chars[i];
            let ghost before = chars@.subrange(start + 2, i as int);
            let ghost after = chars@.subrange(start + 2, i + 1);
            assert(after.drop_last() =~= before);
            if !('0' <= c && c <= '9') {
                assert(!all_digits(t.subrange(2, t.len() as int))) by {
                    assert(t.subrange(2, t.len() as int)[i - start - 2] == c);
                }
                return Instruction::Unknown;
            }
            let d: usize = (c as u32 - '0' as u32) as usize;
            if !overflow {
                match value.checked_mul(10) {
                    Some(m) => match m.checked_add(d) {
                        Some(v) => {
                            value = v;
                        },
                        None => {
                            overflow = true;
                        },
                    },
                    None => {
                        overflow = true;
                    },
                }
            }
            assert(all_digits(after)) by {
                assert forall|j: int| 0 <= j < after.len() implies is_digit(#[trigger] after[j]) by {
                    if j < before.len() {
                        assert(after[j] == before[j]);
                    }
                }
            }
            i = i + 1;
        }
        assert(chars@.subrange(start + 2, end as int) =~= t.subrange(2, t.len() as int));
        if end - start > 2 && !overflow {
            n = value;
        }
    }
    if code == 'L' {
        Instruction::Left(n)
    } else if code == 'R' {
        Instruction::Right(n)
    } else if code == 'U' {
        Instruction::Up(n)
    } else if code == 'D' {
        Instruction::Down(n)
    } else if code == 'S' {
        Instruction::Select
    } else if code == 'N' {
        Instruction::NewLine
    } else {
        Instruction::Space
    }
}

} // verus!
