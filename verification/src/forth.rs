//! A small Forth: a bounded stack of 32-bit integers and the words that act on it.

use vstd::prelude::*;
use vstd::string::StrSliceExecFns;
use crate::text::{is_whitespace, is_ws, lemma_word_end_bounds, str_eq, word_end};

verus! {

/// Most values the stack can hold.
pub const STACK_SIZE: usize = 64;

/// What a word does, once its spelling has been recognised.
#[derive(Clone, Copy, PartialEq, Eq, Debug, Structural)]
pub enum Word {
    Add,
    Sub,
    Mul,
    Div,
    Mod,
    Dup,
    Drop,
    Swap,
    Over,
    Rot,
    Equal,
    Less,
    Greater,
    And,
    Or,
    Xor,
    Invert,
    Negate,
    True,
    False,
    Empty,
    Number(i32),
    Unknown,
}

/// The interpreter: its stack, bottom first.
pub struct Forth {
    stack: Vec<i32>,
}

/// A stack after a step, and the step's error message if it failed.
pub type Effect = (Seq<i32>, Option<Seq<char>>);

/// Whether a character is a decimal digit.
pub open spec fn is_digit(c: char) -> bool {
    0x30 <= c as u32 <= 0x39
}

/// The value of a decimal digit.
pub open spec fn digit_val(c: char) -> nat {
    (c as u32 - 0x30) as nat
}

/// Whether every character is a decimal digit.
pub open spec fn all_digits(s: Seq<char>) -> bool {
    forall|i: int| 0 <= i < s.len() ==> is_digit(#[trigger] s[i])
}

/// The number that a run of decimal digits writes.
pub open spec fn decimal(s: Seq<char>) -> nat
    decreases s.len(),
{
    if s.len() == 0 {
        0
    } else {
        decimal(s.drop_last()) * 10 + digit_val(s.last())
    }
}

/// The integer that a token writes: an optional minus sign, then at least one
/// decimal digit, with a magnitude of at most `i32::MAX`; the one token
/// `-2147483648` is read as `i32::MIN`.
pub open spec fn parse_number_spec(s: Seq<char>) -> Option<i32> {
    if s == "-2147483648"@ {
        Some(i32::MIN)
    } else if s.len() == 0 {
        None
    } else {
        let neg = s[0] == '-';
        let digits = if neg {
            s.skip(1)
        } else {
            s
        };
        if digits.len() == 0 || !all_digits(digits) || decimal(digits) > i32::MAX {
            None
        } else if neg {
            Some((-(decimal(digits) as int)) as i32)
        } else {
            Some(decimal(digits) as i32)
        }
    }
}

/// The word that a token spells.
pub open spec fn classify_spec(w: Seq<char>) -> Word {
    if w == "+"@ {
        Word::Add
    } else if w == "-"@ {
        Word::Sub
    } else if w == "*"@ {
        Word::Mul
    } else if w == "/"@ {
        Word::Div
    } else if w == "mod"@ {
        Word::Mod
    } else if w == "dup"@ {
        Word::Dup
    } else if w == "drop"@ {
        Word::Drop
    } else if w == "swap"@ {
        Word::Swap
    } else if w == "over"@ {
        Word::Over
    } else if w == "rot"@ {
        Word::Rot
    } else if w == "="@ {
        Word::Equal
    } else if w == "<"@ {
        Word::Less
    } else if w == ">"@ {
        Word::Greater
    } else if w == "and"@ {
        Word::And
    } else if w == "or"@ {
        Word::Or
    } else if w == "xor"@ {
        Word::Xor
    } else if w == "invert"@ {
        Word::Invert
    } else if w == "negate"@ {
        Word::Negate
    } else if w == "true"@ {
        Word::True
    } else if w == "false"@ {
        Word::False
    } else if w == ""@ {
        Word::Empty
    } else {
        match parse_number_spec(w) {
            Some(n) => Word::Number(n),
            None => Word::Unknown,
        }
    }
}

/// The result of a two-operand word on its operands, `None` where it overflows.
pub open spec fn binary_value(w: Word, a: i32, b: i32) -> Option<i32> {
    match w {
        Word::Add => a.checked_add(b),
        Word::Sub => a.checked_sub(b),
        Word::Mul => a.checked_mul(b),
        Word::Div => a.checked_div(b),
        Word::Mod => a.checked_rem(b),
        Word::Equal => Some(
            if a == b {
                -1i32
            } else {
                0i32
            },
        ),
        Word::Less => Some(
            if a < b {
                -1i32
            } else {
                0i32
            },
        ),
        Word::Greater => Some(
            if a > b {
                -1i32
            } else {
                0i32
            },
        ),
        Word::And => Some(a & b),
        Word::Or => Some(a | b),
        _ => Some(a ^ b),
    }
}

/// The result of a one-operand word; negating `i32::MIN` wraps to itself.
pub open spec fn unary_value(w: Word, a: i32) -> i32 {
    if w == Word::Invert {
        !a
    } else if a == i32::MIN {
        i32::MIN
    } else {
        (-a) as i32
    }
}

/// Pushing a value: refused on a full stack, which stays as it is.
pub open spec fn push_effect(s: Seq<i32>, v: i32) -> Effect {
    if s.len() >= STACK_SIZE {
        (s, Some("Stack overflow"@))
    } else {
        (s.push(v), None)
    }
}

/// Takes two operands, the upper one first, and leaves the value; an operand
/// that was taken before the failure stays taken.
pub open spec fn binary_effect(s: Seq<i32>, w: Word) -> Effect {
    if s.len() == 0 {
        (s, Some("Stack underflow"@))
    } else if (w == Word::Div || w == Word::Mod) && s.last() == 0 {
        (s.drop_last(), Some("Division by zero"@))
    } else if s.len() == 1 {
        (s.drop_last(), Some("Stack underflow"@))
    } else {
        let b = s[s.len() - 1];
        let a = s[s.len() - 2];
        let rest = s.take(s.len() - 2);
        match binary_value(w, a, b) {
            Some(v) => (rest.push(v), None),
            None => (rest, Some("Arithmetic overflow"@)),
        }
    }
}

/// What a recognised word does to the stack.
pub open spec fn op_effect(s: Seq<i32>, w: Word) -> Effect {
    match w {
        Word::Dup => if s.len() == 0 {
            (s, Some("Stack empty"@))
        } else {
            push_effect(s, s.last())
        },
        Word::Drop => if s.len() == 0 {
            (s, Some("Stack underflow"@))
        } else {
            (s.drop_last(), None)
        },
        Word::Swap => if s.len() == 0 {
            (s, Some("Stack underflow"@))
        } else if s.len() == 1 {
            (s.drop_last(), Some("Stack underflow"@))
        } else {
            (s.take(s.len() - 2).push(s[s.len() - 1]).push(s[s.len() - 2]), None)
        },
        Word::Over => if s.len() < 2 {
            (s, Some("Stack underflow"@))
        } else {
            push_effect(s, s[s.len() - 2])
        },
        Word::Rot => if s.len() < 3 {
            (s, Some("Stack underflow"@))
        } else {
            (
                s.take(s.len() - 3).push(s[s.len() - 2]).push(s[s.len() - 1]).push(s[s.len() - 3]),
                None,
            )
        },
        Word::Invert | Word::Negate => if s.len() == 0 {
            (s, Some("Stack underflow"@))
        } else {
            (s.drop_last().push(unary_value(w, s.last())), None)
        },
        Word::True => push_effect(s, -1i32),
        Word::False => push_effect(s, 0i32),
        Word::Empty => (s, None),
        Word::Number(n) => push_effect(s, n),
        Word::Unknown => (s, Some("Unknown word"@)),
        _ => binary_effect(s, w),
    }
}

/// What a token does to the stack.
pub open spec fn word_effect(s: Seq<i32>, w: Seq<char>) -> Effect {
    op_effect(s, classify_spec(w))
}

/// What the rest of a line does, read from position `i`: its words run in
/// order, and the first failure ends the line.
pub open spec fn eval_from(s: Seq<i32>, line: Seq<char>, i: int) -> Effect
    decreases line.len() - i,
{
    if i < 0 || i >= line.len() {
        (s, None)
    } else if is_ws(line[i]) {
        eval_from(s, line, i + 1)
    } else {
        let e = word_end(line, i + 1);
        let j = if i < e <= line.len() {
            e
        } else {
            i + 1
        };
        let step = word_effect(s, line.subrange(i, j));
        if step.1 is Some {
            step
        } else {
            eval_from(step.0, line, j)
        }
    }
}

/// Whether a returned result reports the given failure, or success for `None`.
pub open spec fn reports(r: Result<(), &'static str>, e: Option<Seq<char>>) -> bool {
    match e {
        None => r is Ok,
        Some(m) => r matches Err(t) && t@ == m,
    }
}

/// No word makes a stack of at most `STACK_SIZE` values deeper than that.
pub proof fn lemma_word_keeps_bound(s: Seq<i32>, w: Seq<char>)
    requires
        s.len() <= STACK_SIZE,
    ensures
        word_effect(s, w).0.len() <= STACK_SIZE,
{
}

/// No line makes a stack of at most `STACK_SIZE` values deeper than that.
pub proof fn lemma_eval_keeps_bound(s: Seq<i32>, line: Seq<char>, i: int)
    requires
        s.len() <= STACK_SIZE,
    ensures
        eval_from(s, line, i).0.len() <= STACK_SIZE,
    decreases line.len() - i,
{
    if i < 0 || i >= line.len() {
    } else if is_ws(line[i]) {
        lemma_eval_keeps_bound(s, line, i + 1);
    } else {
        let e = word_end(line, i + 1);
        let j = if i < e <= line.len() {
            e
        } else {
            i + 1
        };
        let step = word_effect(s, line.subrange(i, j));
        lemma_word_keeps_bound(s, line.subrange(i, j));
        if step.1 is None {
            lemma_eval_keeps_bound(step.0, line, j);
        }
    }
}

proof fn lemma_decimal_prefix(s: Seq<char>, k: int)
    requires
        0 <= k <= s.len(),
    ensures
        decimal(s.take(k)) <= decimal(s),
    decreases s.len() - k,
{
    if k < s.len() {
        lemma_decimal_prefix(s, k + 1);
        assert(s.take(k + 1).drop_last() =~= s.take(k));
    } else {
        assert(s.take(k) =~= s);
    }
}

/// Reads a token as a decimal integer.
pub fn parse_number(s: &str) -> (r: Option<i32>)
    ensures
        r == parse_number_spec(s@),
{
    if str_eq(s, "-2147483648") {
        return Some(i32::MIN);
    }
    let n = s.unicode_len();
    if n == 0 {
        return None;
    }
    let first = s.get_char(0);
    let neg = first == '-';
    let start: usize = if neg {
        1
    } else {
        0
    };
    if start == n {
        return None;
    }
    let ghost digits = if neg {
        s@.skip(1)
    } else {
        s@
    };
    let mut acc: i32 = 0;
    let mut i: usize = start;
    while i < n
        invariant
            start <= i <= n,
            n == s@.len(),
            n > 0,
            s@ != "-2147483648"@,
            neg == (s@[0] == '-'),
            start == (if neg {
                1usize
            } else {
                0usize
            }),
            digits == (if neg {
                s@.skip(1)
            } else {
                s@
            }),
            all_digits(digits.take(i - start)),
            acc == decimal(digits.take(i - start)),
            0 <= acc,
        decreases n - i,
    {
        let c = s.get_char(i);
        let u: u32 = c as u32;
        proof {
            lemma_decimal_prefix(digits, i - start + 1);
            assert(digits.take(i - start + 1).drop_last() =~= digits.take(i - start));
            assert(digits.take(i - start + 1).last() == c);
        }
        if u < 0x30 || u > 0x39 {
            assert(!is_digit(digits[i - start]));
            return None;
        }
        let d: i32 = (u - 0x30) as i32;
        let m = match acc.checked_mul(10) {
            Some(m) => m,
            None => {
                return None;
            },
        };
        acc = match m.checked_add(d) {
            Some(v) => v,
            None => {
                return None;
            },
        };
        i += 1;
    }
    proof {
        assert(digits.take(n - start) =~= digits);
    }
    if neg {
        Some(-acc)
    } else {
        Some(acc)
    }
}

/// Recognises a token.
fn classify(w: &str) -> (r: Word)
    ensures
        r == classify_spec(w@),
{
    if str_eq(w, "+") {
        Word::Add
    } else if str_eq(w, "-") {
        Word::Sub
    } else if str_eq(w, "*") {
        Word::Mul
    } else if str_eq(w, "/") {
        Word::Div
    } else if str_eq(w, "mod") {
        Word::Mod
    } else if str_eq(w, "dup") {
        Word::Dup
    } else if str_eq(w, "drop") {
        Word::Drop
    } else if str_eq(w, "swap") {
        Word::Swap
    } else if str_eq(w, "over") {
        Word::Over
    } else if str_eq(w, "rot") {
        Word::Rot
    } else if str_eq(w, "=") {
        Word::Equal
    } else if str_eq(w, "<") {
        Word::Less
    } else if str_eq(w, ">") {
        Word::Greater
    } else if str_eq(w, "and") {
        Word::And
    } else if str_eq(w, "or") {
        Word::Or
    } else if str_eq(w, "xor") {
        Word::Xor
    } else if str_eq(w, "invert") {
        Word::Invert
    } else if str_eq(w, "negate") {
        Word::Negate
    } else if str_eq(w, "true") {
        Word::True
    } else if str_eq(w, "false") {
        Word::False
    } else if str_eq(w, "") {
        Word::Empty
    } else {
        match parse_number(w) {
            Some(n) => Word::Number(n),
            None => Word::Unknown,
        }
    }
}

fn binary_result(w: Word, a: i32, b: i32) -> (r: Option<i32>)
    requires
        (w == Word::Div || w == Word::Mod) ==> b != 0,
    ensures
        r == binary_value(w, a, b),
{
    match w {
        Word::Add => a.checked_add(b),
        Word::Sub => a.checked_sub(b),
        Word::Mul => a.checked_mul(b),
        Word::Div => a.checked_div(b),
        Word::Mod => a.checked_rem(b),
        Word::Equal => Some(
            if a == b {
                -1
            } else {
                0
            },
        ),
        Word::Less => Some(
            if a < b {
                -1
            } else {
                0
            },
        ),
        Word::Greater => Some(
            if a > b {
                -1
            } else {
                0
            },
        ),
        Word::And => Some(a & b),
        Word::Or => Some(a | b),
        _ => Some(a ^ b),
    }
}

impl View for Forth {
    type V = Seq<i32>;

    closed spec fn view(&self) -> Seq<i32> {
        self.stack@
    }
}

impl Forth {
    /// An interpreter with an empty stack.
    pub fn new() -> (r: Self)
        ensures
            r@ == Seq::<i32>::empty(),
    {
        Forth { stack: Vec::new() }
    }

    /// Pushes a value; fails on a full stack.
    pub fn push(&mut self, val: i32) -> (r: Result<(), &'static str>)
        ensures
            final(self)@ == push_effect(old(self)@, val).0,
            reports(r, push_effect(old(self)@, val).1),
    {
        if self.stack.len() >= STACK_SIZE {
            Err("Stack overflow")
        } else {
            self.stack.push(val);
            Ok(())
        }
    }

    /// Takes the top value; fails on an empty stack.
    pub fn pop(&mut self) -> (r: Result<i32, &'static str>)
        ensures
            old(self)@.len() == 0 ==> final(self)@ == old(self)@ && (r matches Err(t) && t@
                == "Stack underflow"@),
            old(self)@.len() > 0 ==> final(self)@ == old(self)@.drop_last() && r == Ok::<
                i32,
                &'static str,
            >(old(self)@.last()),
    {
        match self.stack.pop() {
            Some(v) => Ok(v),
            None => Err("Stack underflow"),
        }
    }

    /// The top value; fails on an empty stack.
    pub fn peek(&self) -> (r: Result<i32, &'static str>)
        ensures
            self@.len() == 0 ==> (r matches Err(t) && t@ == "Stack empty"@),
            self@.len() > 0 ==> r == Ok::<i32, &'static str>(self@.last()),
    {
        let n = self.stack.len();
        if n == 0 {
            Err("Stack empty")
        } else {
            Ok(self.stack[n - 1])
        }
    }

    /// Number of values on the stack.
    pub fn depth(&self) -> (r: usize)
        ensures
            r == self@.len(),
    {
        self.stack.len()
    }

    /// The values on the stack, bottom first.
    pub fn stack_contents(&self) -> (r: &[i32])
        ensures
            r@ == self@,
    {
        self.stack.as_slice()
    }

    /// Runs a recognised word.
    fn run(&mut self, w: Word) -> (r: Result<(), &'static str>)
        ensures
            final(self)@ == op_effect(old(self)@, w).0,
            reports(r, op_effect(old(self)@, w).1),
    {
        let n = self.stack.len();
        match w {
            Word::Dup => {
                if n == 0 {
                    return Err("Stack empty");
                }
                let a = self.stack[n - 1];
                self.push(a)
            },
            Word::Drop => {
                if n == 0 {
                    return Err("Stack underflow");
                }
                self.stack.pop();
                Ok(())
            },
            Word::Swap => {
                if n == 0 {
                    return Err("Stack underflow");
                }
                let b = self.stack[n - 1];
                self.stack.pop();
                if n == 1 {
                    return Err("Stack underflow");
                }
                let a = self.stack[n - 2];
                self.stack.pop();
                self.stack.push(b);
                self.stack.push(a);
                assert(self.stack@ =~= old(self)@.take(n - 2).push(b).push(a));
                Ok(())
            },
            Word::Over => {
                if n < 2 {
                    return Err("Stack underflow");
                }
                let a = self.stack[n - 2];
                self.push(a)
            },
            Word::Rot => {
                if n < 3 {
                    return Err("Stack underflow");
                }
                let c = self.stack[n - 1];
                let b = self.stack[n - 2];
                let a = self.stack[n - 3];
                self.stack.pop();
                self.stack.pop();
                self.stack.pop();
                self.stack.push(b);
                self.stack.push(c);
                self.stack.push(a);
                assert(self.stack@ =~= old(self)@.take(n - 3).push(b).push(c).push(a));
                Ok(())
            },
            Word::Invert | Word::Negate => {
                if n == 0 {
                    return Err("Stack underflow");
                }
                let a = self.stack[n - 1];
                self.stack.pop();
                let v = if w == Word::Invert {
                    !a
                } else if a == i32::MIN {
                    i32::MIN
                } else {
                    -a
                };
                self.stack.push(v);
                Ok(())
            },
            Word::True => self.push(-1),
            Word::False => self.push(0),
            Word::Empty => Ok(()),
            Word::Number(v) => self.push(v),
            Word::Unknown => Err("Unknown word"),
            _ => {
                if n == 0 {
                    return Err("Stack underflow");
                }
                let b = self.stack[n - 1];
                self.stack.pop();
                if (w == Word::Div || w == Word::Mod) && b == 0 {
                    return Err("Division by zero");
                }
                if n == 1 {
                    return Err("Stack underflow");
                }
                let a = self.stack[n - 2];
                self.stack.pop();
                assert(self.stack@ =~= old(self)@.take(n - 2));
                match binary_result(w, a, b) {
                    Some(v) => {
                        self.stack.push(v);
                        Ok(())
                    },
                    None => Err("Arithmetic overflow"),
                }
            },
        }
    }

    /// Runs one token: a word of the language or a number to push.
    pub fn execute_word(&mut self, word: &str) -> (r: Result<(), &'static str>)
        ensures
            final(self)@ == word_effect(old(self)@, word@).0,
            reports(r, word_effect(old(self)@, word@).1),
    {
        let w = classify(word);
        self.run(w)
    }

    /// Runs the words of a line, separated by white space, until one fails.
    pub fn eval(&mut self, line: &str) -> (r: Result<(), &'static str>)
        ensures
            final(self)@ == eval_from(old(self)@, line@, 0).0,
            reports(r, eval_from(old(self)@, line@, 0).1),
    {
        let n = line.unicode_len();
        let mut i: usize = 0;
        while i < n
            invariant
                i <= n,
                n == line@.len(),
                eval_from(self@, line@, i as int) == eval_from(old(self)@, line@, 0),
            decreases n - i,
        {
            let c = line.get_char(i);
            if is_whitespace(c) {
                i += 1;
            } else {
                let mut j: usize = i + 1;
                while j < n && !is_whitespace(line.get_char(j))
                    invariant
                        i < j <= n,
                        n == line@.len(),
                        word_end(line@, j as int) == word_end(line@, i + 1),
                    decreases n - j,
                {
                    j += 1;
                }
                proof {
                    lemma_word_end_bounds(line@, i + 1);
                }
                let word = line.substring_char(i, j);
                match self.execute_word(word) {
                    Ok(()) => {},
                    Err(e) => {
                        return Err(e);
                    },
                }
                i = j;
            }
        }
        Ok(())
    }
}

} // verus!
