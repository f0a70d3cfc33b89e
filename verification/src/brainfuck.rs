//! The tape-machine language: program texts, loop matching, compilation and the
//! enumerator of all well-formed texts.
use crate::arith::{
    digit, lemma_power_div, lemma_power_increases, lemma_power_positive, power, power_fits,
};
use crate::bounded::{
    alphabet_items, alphabet_new, alphabet_push, alphabet_slice, code_items, code_new, code_push,
    code_set, source_clear, source_clone, source_items, source_new, source_push, source_reverse,
    source_slice, stack_items, stack_new, stack_pop, stack_push,
};
use crate::def::{Generator, Sized};
use crate::loops::{
    balanced, close_of, depth, depth_change, lemma_balanced_has_close, lemma_close_of_is_partner,
    lemma_depth_bound, lemma_depth_reverse, lemma_find_close_exists, lemma_find_close_first,
    lemma_find_close_is, lemma_find_open_is, lemma_open_of_is_partner, open_of,
};
use crate::text::push_char;
use arrayvec::ArrayVec;
use vstd::prelude::*;

verus! {

/// The longest program text that a `BfSource` can hold.
pub const BF_MAX_LEN: usize = 28;

/// One instruction of a program text.
#[derive(Clone, Copy, Debug, PartialEq, Eq, Structural)]
pub enum BfRawInstruction {
    Plus,
    Minus,
    Print,
    Left,
    Right,
    StartLoop,
    EndLoop,
}

/// One instruction of a compiled program: a loop instruction carries the position
/// at which execution goes on when it jumps.
#[derive(Clone, Copy, Debug, PartialEq, Eq, Structural)]
pub enum Instruction {
    Plus,
    Minus,
    Print,
    Left,
    Right,
    StartLoop(usize),
    EndLoop(usize),
}

/// A program text of at most `BF_MAX_LEN` instructions.
#[derive(Debug)]
pub struct BfSource(pub ArrayVec<BfRawInstruction, 28>);

impl View for BfSource {
    type V = Seq<BfRawInstruction>;

    open spec fn view(&self) -> Seq<BfRawInstruction> {
        source_items(self.0)
    }
}

/// The compiled form of the instruction at `i`: a loop-open jumps behind its
/// loop-close, a loop-close jumps back to its loop-open.
pub open spec fn compiled_at(s: Seq<BfRawInstruction>, i: int) -> Instruction {
    match s[i] {
        BfRawInstruction::Plus => Instruction::Plus,
        BfRawInstruction::Minus => Instruction::Minus,
        BfRawInstruction::Print => Instruction::Print,
        BfRawInstruction::Left => Instruction::Left,
        BfRawInstruction::Right => Instruction::Right,
        BfRawInstruction::StartLoop => Instruction::StartLoop((close_of(s, i) + 1) as usize),
        BfRawInstruction::EndLoop => Instruction::EndLoop(open_of(s, i) as usize),
    }
}

/// The compiled form of a program text.
pub open spec fn compiled(s: Seq<BfRawInstruction>) -> Seq<Instruction> {
    Seq::new(s.len(), |i: int| compiled_at(s, i))
}

/// The loop opened at `o` has not been closed by any of the instructions before `i`.
pub open spec fn still_open(s: Seq<BfRawInstruction>, o: int, i: int) -> bool {
    &&& 0 <= o < i
    &&& s[o] == BfRawInstruction::StartLoop
    &&& forall|m: int| o < m <= i ==> depth(s, m) > depth(s, o)
}

/// The character that stands for an instruction in a program text.
pub open spec fn glyph(inst: BfRawInstruction) -> char {
    match inst {
        BfRawInstruction::Print => '.',
        BfRawInstruction::Plus => '+',
        BfRawInstruction::Minus => '-',
        BfRawInstruction::Left => '<',
        BfRawInstruction::Right => '>',
        BfRawInstruction::StartLoop => '[',
        BfRawInstruction::EndLoop => ']',
    }
}

/// A program written out: one character for each instruction.
pub open spec fn source_text(s: Seq<BfRawInstruction>) -> Seq<char> {
    Seq::new(s.len(), |i: int| glyph(s[i]))
}

/// The text form loses nothing: two programs that are written out the same
/// are the same program.
pub proof fn lemma_source_text_is_lossless(x: Seq<BfRawInstruction>, y: Seq<BfRawInstruction>)
    requires
        source_text(x) == source_text(y),
    ensures
        x == y,
{
    assert(x.len() == source_text(x).len());
    assert(y.len() == source_text(y).len());
    assert forall|i: int| 0 <= i < x.len() implies x[i] == y[i] by {
        assert(source_text(x)[i] == glyph(x[i]));
        assert(source_text(y)[i] == glyph(y[i]));
    }
    assert(x =~= y);
}

impl BfSource {
    /// The program text with the given instructions, or `None` where they
    /// are more than a program text holds.
    pub fn from_slice(items: &[BfRawInstruction]) -> (r: Option<Self>)
        ensures
            r is Some == (items@.len() <= BF_MAX_LEN),
            r matches Some(source) ==> source@ == items@,
    {
        if items.len() > BF_MAX_LEN {
            return None;
        }
        let mut held = source_new();
        let mut i: usize = 0;
        while i < items.len()
            invariant
                i <= items@.len() <= 28,
                source_items(held) == items@.take(i as int),
            decreases items@.len() - i,
        {
            source_push(&mut held, items[i]);
            i += 1;
            assert(items@.take(i as int) =~= items@.take(i - 1).push(items@[i - 1]));
        }
        assert(items@.take(i as int) =~= items@);
        Some(BfSource(held))
    }

    /// The program written out, one character for each instruction.
    pub fn to_text(&self) -> (text: String)
        ensures
            text@ == source_text(self@),
    {
        let src = source_slice(&self.0);
        let mut text = String::new();
        let mut i: usize = 0;
        while i < src.len()
            invariant
                src@ == self@,
                i <= src@.len(),
                text@ == source_text(self@.subrange(0, i as int)),
            decreases src@.len() - i,
        {
            let c = match src[i] {
                BfRawInstruction::Print => '.',
                BfRawInstruction::Plus => '+',
                BfRawInstruction::Minus => '-',
                BfRawInstruction::Left => '<',
                BfRawInstruction::Right => '>',
                BfRawInstruction::StartLoop => '[',
                BfRawInstruction::EndLoop => ']',
            };
            push_char(&mut text, c);
            i += 1;
            assert(text@ =~= source_text(self@.subrange(0, i as int)));
        }
        assert(self@.subrange(0, i as int) =~= self@);
        text
    }

    /// Whether the text holds the instruction `inst`.
    pub fn has(&self, inst: BfRawInstruction) -> (b: bool)
        ensures
            b == self@.contains(inst),
    {
        let src = source_slice(&self.0);
        let mut i: usize = 0;
        while i < src.len()
            invariant
                src@ == self@,
                i <= src@.len(),
                forall|j: int| 0 <= j < i ==> src@[j] != inst,
            decreases src@.len() - i,
        {
            if src[i] == inst {
                return true;
            }
            i += 1;
        }
        false
    }

    /// Whether the loops of this text are paired.
    pub fn is_balanced(&self) -> (b: bool)
        ensures
            b == balanced(self@),
    {
        let src = source_slice(&self.0);
        let mut open: usize = 0;
        let mut i: usize = 0;
        while i < src.len()
            invariant
                src@ == self@,
                i <= src@.len() <= 28,
                open <= i,
                open == depth(src@, i as int),
                forall|j: int| 0 <= j <= i ==> depth(src@, j) >= 0,
            decreases src@.len() - i,
        {
            match src[i] {
                BfRawInstruction::StartLoop => {
                    open += 1;
                },
                BfRawInstruction::EndLoop => {
                    if open == 0 {
                        assert(depth(src@, i + 1) < 0);
                        return false;
                    }
                    open -= 1;
                },
                _ => {},
            }
            i += 1;
        }
        open == 0
    }
}

impl Clone for BfSource {
    fn clone(&self) -> (c: Self)
        ensures
            c@ == self@,
    {
        BfSource(source_clone(&self.0))
    }
}

impl Sized for BfSource {
    open spec fn spec_size(&self) -> nat {
        self@.len()
    }

    fn size(&self) -> (n: usize) {
        source_slice(&self.0).len()
    }
}

/// Resolves the jumps of a program text whose loops are paired.
pub fn compile(source: &BfSource) -> (program: ArrayVec<Instruction, 28>)
    requires
        balanced(source@),
    ensures
        code_items(program) == compiled(source@),
{
    let src = source_slice(&source.0);
    let ghost s = source@;
    let mut open_loops = stack_new();
    let mut program = code_new();
    let mut i: usize = 0;
    while i < src.len()
        invariant
            src@ == s,
            s.len() <= 28,
            balanced(s),
            i <= s.len(),
            code_items(program).len() == i,
            stack_items(open_loops).len() == depth(s, i as int),
            forall|j: int|
                0 <= j < stack_items(open_loops).len() ==> {
                    &&& still_open(s, #[trigger] stack_items(open_loops)[j] as int, i as int)
                    &&& depth(s, stack_items(open_loops)[j] as int) == j
                },
            forall|t: int|
                0 <= t < i && (s[t] != BfRawInstruction::StartLoop || close_of(s, t) < i)
                    ==> #[trigger] code_items(program)[t] == compiled_at(s, t),
        decreases s.len() - i,
    {
        let ghost k = stack_items(open_loops).len() as int;
        let ghost code_before = code_items(program);
        let ghost stack_before = stack_items(open_loops);
        let ghost mut patched: int = -1;
        assert(depth(s, i + 1) == depth(s, i as int) + depth_change(s[i as int]));
        let inst = match src[i] {
            BfRawInstruction::Plus => Instruction::Plus,
            BfRawInstruction::Minus => Instruction::Minus,
            BfRawInstruction::Print => Instruction::Print,
            BfRawInstruction::Left => Instruction::Left,
            BfRawInstruction::Right => Instruction::Right,
            BfRawInstruction::StartLoop => {
                proof {
                    lemma_depth_bound(s, i as int);
                    lemma_find_close_first(s, i + 1, depth(s, i as int));
                }
                stack_push(&mut open_loops, i);
                Instruction::StartLoop(0)
            },
            BfRawInstruction::EndLoop => {
                match stack_pop(&mut open_loops) {
                    Some(open) => {
                        proof {
                            assert(still_open(s, stack_before[k - 1] as int, i as int));
                            lemma_find_close_is(s, open + 1, k - 1, i as int);
                            lemma_find_open_is(s, i - 1, k - 1, open as int);
                            patched = open as int;
                        }
                        code_set(&mut program, open, Instruction::StartLoop(i + 1));
                        Instruction::EndLoop(open)
                    },
                    None => {
                        proof {
                            assert(depth(s, i + 1) >= 0);
                        }
                        vstd::pervasive::unreached()
                    },
                }
            },
        };
        let ghost code_patched = code_items(program);
        code_push(&mut program, inst);
        proof {
            assert forall|t: int|
                0 <= t < i + 1 && (s[t] != BfRawInstruction::StartLoop || close_of(s, t) < i + 1)
                implies #[trigger] code_items(program)[t] == compiled_at(s, t) by {
                if t < i {
                    assert(code_items(program)[t] == code_patched[t]);
                    if s[t] == BfRawInstruction::StartLoop && close_of(s, t) == i {
                        lemma_close_of_is_partner(s, t);
                        assert(t == patched);
                    } else {
                        assert(code_patched[t] == code_before[t]);
                    }
                }
            }
        }
        i += 1;
    }
    proof {
        assert forall|t: int| 0 <= t < s.len() implies code_items(program)[t] == compiled_at(
            s,
            t,
        ) by {
            if s[t] == BfRawInstruction::StartLoop {
                assert(depth(s, t + 1) == depth(s, t) + 1);
                lemma_find_close_exists(s, t + 1, depth(s, t));
            }
        }
        assert(code_items(program) =~= compiled(s));
    }
    program
}

/// The instructions of a machine, in the order in which the enumerator tries them.
pub open spec fn alphabet(has_minus: bool, has_print: bool) -> Seq<BfRawInstruction> {
    seq![BfRawInstruction::Plus] + (if has_minus {
        seq![BfRawInstruction::Minus]
    } else {
        Seq::<BfRawInstruction>::empty()
    }) + (if has_print {
        seq![BfRawInstruction::Print]
    } else {
        Seq::<BfRawInstruction>::empty()
    }) + seq![
        BfRawInstruction::Left,
        BfRawInstruction::Right,
        BfRawInstruction::StartLoop,
        BfRawInstruction::EndLoop,
    ]
}

/// The text of length `len` with the number `idx` among the texts over the
/// alphabet `a`: its instructions are the digits of `idx` to the base of the
/// alphabet's size, the most significant first.
pub open spec fn candidate(a: Seq<BfRawInstruction>, len: nat, idx: nat) -> Seq<BfRawInstruction> {
    Seq::new(len, |i: int| a[digit(idx, a.len(), (len - 1 - i) as nat)])
}

/// The texts with paired loops over the alphabet `a`, each with the weight 1: those
/// of length `len` from number `idx` on, then all those of the greater lengths
/// up to `max_len`, each length in the order of the numbers.
pub open spec fn programs_from(a: Seq<BfRawInstruction>, max_len: nat, len: nat, idx: nat) -> Seq<
    (Seq<BfRawInstruction>, usize),
>
    decreases max_len + 1 - len, power(a.len(), len) - idx,
{
    if len > max_len {
        Seq::empty()
    } else if idx >= power(a.len(), len) {
        programs_from(a, max_len, len + 1, 0)
    } else if balanced(candidate(a, len, idx)) {
        seq![(candidate(a, len, idx), 1usize)] + programs_from(a, max_len, len, idx + 1)
    } else {
        programs_from(a, max_len, len, idx + 1)
    }
}

/// Texts of up to eleven instructions can be numbered on every machine,
/// whatever the alphabet.
pub proof fn lemma_short_texts_fit(has_minus: bool, has_print: bool, max_len: usize)
    requires
        max_len <= 11,
    ensures
        BfNaiveGenerator::fits(alphabet(has_minus, has_print).len(), max_len),
{
    let k = alphabet(has_minus, has_print).len();
    crate::arith::lemma_power_base_increases(k, 7, max_len as nat);
    lemma_power_increases(7, max_len as nat, 11);
    assert(power(7, 11) == 1977326743) by {
        reveal_with_fuel(power, 12);
    }
}

/// Enumerates the texts with paired loops by trying every text in turn.
pub struct BfNaiveGenerator {
    instructions: ArrayVec<BfRawInstruction, 7>,
    max_len: usize,
    len: usize,
    idx: usize,
    total_for_len: usize,
}

impl BfNaiveGenerator {
    /// The alphabet that the texts are written in.
    pub closed spec fn letters(&self) -> Seq<BfRawInstruction> {
        alphabet_items(self.instructions)
    }

    /// The greatest length of a text that is handed out.
    pub closed spec fn limit(&self) -> nat {
        self.max_len as nat
    }

    /// Whether texts up to `max_len` over an alphabet of `k` instructions can be
    /// numbered and held on this machine.
    pub open spec fn fits(k: nat, max_len: usize) -> bool {
        &&& max_len <= BF_MAX_LEN
        &&& power(k, max_len as nat) <= usize::MAX
    }

    /// Whether texts up to `max_len` over the alphabet with or without the
    /// decrement and the output instruction can be numbered and held on this machine.
    pub fn admits(max_len: usize, has_minus: bool, has_print: bool) -> (b: bool)
        ensures
            b == Self::fits(alphabet(has_minus, has_print).len(), max_len),
    {
        let mut k: usize = 5;
        if has_minus {
            k += 1;
        }
        if has_print {
            k += 1;
        }
        max_len <= BF_MAX_LEN && power_fits(k, max_len)
    }

    /// A generator of the texts of lengths 1 to `max_len`.
    pub fn new(max_len: usize, has_minus: bool, has_print: bool) -> (g: Self)
        requires
            Self::fits(alphabet(has_minus, has_print).len(), max_len),
        ensures
            g.wf(),
            g.letters() == alphabet(has_minus, has_print),
            g.limit() == max_len,
            g.remaining() == programs_from(alphabet(has_minus, has_print), max_len as nat, 1, 0),
    {
        let mut instructions = alphabet_new();
        alphabet_push(&mut instructions, BfRawInstruction::Plus);
        if has_minus {
            alphabet_push(&mut instructions, BfRawInstruction::Minus);
        }
        if has_print {
            alphabet_push(&mut instructions, BfRawInstruction::Print);
        }
        alphabet_push(&mut instructions, BfRawInstruction::Left);
        alphabet_push(&mut instructions, BfRawInstruction::Right);
        alphabet_push(&mut instructions, BfRawInstruction::StartLoop);
        alphabet_push(&mut instructions, BfRawInstruction::EndLoop);
        assert(alphabet_items(instructions) =~= alphabet(has_minus, has_print));
        BfNaiveGenerator { instructions, max_len, len: 0, idx: 0, total_for_len: 0 }
    }

    /// Moves on to the texts of the next length.
    fn inc_len(&mut self)
        requires
            old(self).wf(),
            old(self).len < old(self).max_len,
        ensures
            final(self).wf(),
            final(self).letters() == old(self).letters(),
            final(self).max_len == old(self).max_len,
            final(self).len == old(self).len + 1,
            final(self).idx == 0,
    {
        let k = alphabet_slice(&self.instructions).len();
        self.len += 1;
        self.total_for_len = 1;
        let mut j: usize = 0;
        while j < self.len
            invariant
                self.instructions == old(self).instructions,
                self.max_len == old(self).max_len,
                self.len == old(self).len + 1,
                k == alphabet_items(self.instructions).len(),
                self.max_len <= 28,
                j <= self.len <= self.max_len,
                1 <= k,
                self.total_for_len == power(k as nat, j as nat),
                power(k as nat, self.max_len as nat) <= usize::MAX,
            decreases self.len - j,
        {
            proof {
                lemma_power_increases(k as nat, (j + 1) as nat, self.max_len as nat);
                assert(power(k as nat, (j + 1) as nat) == k * power(k as nat, j as nat));
                assert(self.total_for_len * k == k * self.total_for_len) by (nonlinear_arith);
            }
            self.total_for_len *= k;
            j += 1;
        }
        self.idx = 0;
    }

    /// Writes the text with the number `index` into `program` and says whether
    /// its loops are paired.
    fn fill(&self, index: usize, program: &mut ArrayVec<BfRawInstruction, 28>) -> (paired: bool)
        requires
            self.wf(),
            1 <= self.len,
            index < self.total_for_len,
            source_items(*old(program)).len() == 0,
        ensures
            paired == balanced(candidate(self.letters(), self.len as nat, index as nat)),
            paired ==> source_items(*final(program)) == candidate(
                self.letters(),
                self.len as nat,
                index as nat,
            ),
    {
        let letters = alphabet_slice(&self.instructions);
        let k = letters.len();
        let ghost a = self.letters();
        let ghost n = self.len as nat;
        let ghost w = Seq::new(n, |t: int| a[digit(index as nat, k as nat, t as nat)]);
        assert(w.reverse() =~= candidate(a, n, index as nat));
        let mut rest = index;
        let mut open_loops: usize = 0;
        let mut j: usize = 0;
        while j < self.len
            invariant
                letters@ == a,
                a == self.letters(),
                w.reverse() == candidate(a, n, index as nat),
                k == a.len(),
                1 <= k,
                n == self.len,
                n <= 28,
                w == Seq::new(n, |t: int| a[digit(index as nat, k as nat, t as nat)]),
                j <= n,
                rest == index as int / power(k as nat, j as nat) as int,
                source_items(*program).len() == j,
                forall|t: int| 0 <= t < j ==> source_items(*program)[t] == w[t],
                open_loops <= j,
                open_loops == -depth(w, j as int),
                forall|t: int| 0 <= t <= j ==> depth(w, t) <= 0,
            decreases n - j,
        {
            proof {
                lemma_power_positive(k as nat, j as nat);
                lemma_power_div(index as nat, k as nat, j as nat);
                assert(depth(w, j + 1) == depth(w, j as int) + depth_change(w[j as int]));
            }
            let instruction = letters[rest % k];
            rest = rest / k;
            assert(instruction == w[j as int]);
            match instruction {
                BfRawInstruction::EndLoop => {
                    open_loops += 1;
                },
                BfRawInstruction::StartLoop => {
                    if open_loops == 0 {
                        proof {
                            let c = w.reverse();
                            lemma_depth_reverse(w, n as int);
                            lemma_depth_reverse(w, n - (j + 1));
                            assert(depth(w, j + 1) == 1);
                            assert(depth(c, c.len() as int) != 0 || depth(c, n - (j + 1)) < 0);
                        }
                        return false;
                    }
                    open_loops -= 1;
                },
                _ => {},
            }
            source_push(program, instruction);
            j += 1;
        }
        assert(source_items(*program) =~= w);
        proof {
            lemma_depth_reverse(w, n as int);
            if open_loops == 0 {
                assert forall|i: int| 0 <= i <= n implies depth(w.reverse(), i) >= 0 by {
                    lemma_depth_reverse(w, i);
                }
            }
        }
        if open_loops == 0 {
            source_reverse(program);
            true
        } else {
            false
        }
    }
}

impl Generator<BfSource> for BfNaiveGenerator {
    closed spec fn wf(&self) -> bool {
        let k = alphabet_items(self.instructions).len();
        &&& 1 <= k
        &&& self.max_len <= 28
        &&& power(k, self.max_len as nat) <= usize::MAX
        &&& self.len <= self.max_len
        &&& if self.len == 0 {
            self.total_for_len == 0 && self.idx == 0
        } else {
            self.total_for_len == power(k, self.len as nat) && self.idx <= self.total_for_len
        }
    }

    closed spec fn remaining(&self) -> Seq<(Seq<BfRawInstruction>, usize)> {
        programs_from(
            alphabet_items(self.instructions),
            self.max_len as nat,
            if self.len == 0 {
                1
            } else {
                self.len as nat
            },
            self.idx as nat,
        )
    }

    fn next(&mut self) -> (r: Option<(BfSource, usize)>) {
        let mut program = BfSource(source_new());
        loop
            invariant
                self.wf(),
                self.remaining() == old(self).remaining(),
            decreases self.max_len - self.len, self.total_for_len - self.idx,
        {
            source_clear(&mut program.0);
            let ghost a = self.letters();
            let ghost m = self.max_len as nat;
            if self.idx >= self.total_for_len {
                if self.len >= self.max_len {
                    proof {
                        if self.len > 0 {
                            assert(programs_from(a, m, self.len as nat, self.idx as nat)
                                == programs_from(a, m, (self.len + 1) as nat, 0));
                        }
                    }
                    return None;
                }
                proof {
                    if self.len > 0 {
                        assert(programs_from(a, m, self.len as nat, self.idx as nat)
                            == programs_from(a, m, (self.len + 1) as nat, 0));
                    }
                }
                self.inc_len();
                proof {
                    lemma_power_positive(a.len(), self.len as nat);
                }
            }
            let index = self.idx;
            self.idx += 1;
            let paired = self.fill(index, &mut program.0);
            proof {
                let c = candidate(a, self.len as nat, index as nat);
                let rest = programs_from(a, m, self.len as nat, (index + 1) as nat);
                if paired {
                    assert(programs_from(a, m, self.len as nat, index as nat) == seq![(c, 1usize)]
                        + rest);
                    assert((seq![(c, 1usize)] + rest).skip(1) =~= rest);
                } else {
                    assert(programs_from(a, m, self.len as nat, index as nat) == rest);
                }
            }
            if paired {
                return Some((program, 1));
            }
        }
    }
}

/// The jumps of a compiled text lead to the right places. A loop-open at `p`
/// jumps to the position behind the loop-close that the scan with a counter of
/// the open loops reaches first, and that loop-close jumps back to `p`.
pub proof fn lemma_jump_of_open(s: Seq<BfRawInstruction>, p: int)
    requires
        balanced(s),
        0 <= p < s.len(),
        s[p] == BfRawInstruction::StartLoop,
    ensures
        p < close_of(s, p) < s.len(),
        compiled(s)[p] == Instruction::StartLoop((close_of(s, p) + 1) as usize),
        compiled(s)[close_of(s, p)] == Instruction::EndLoop(p as usize),
        depth(s, close_of(s, p) + 1) == depth(s, p),
        forall|m: int| p < m <= close_of(s, p) ==> depth(s, m) > depth(s, p),
{
    lemma_balanced_has_close(s, p);
    lemma_close_of_is_partner(s, p);
}

/// A loop-close at `q` of a compiled text jumps back to a loop-open, and that
/// loop-open jumps to the position behind `q`.
pub proof fn lemma_jump_of_close(s: Seq<BfRawInstruction>, q: int)
    requires
        balanced(s),
        0 <= q < s.len(),
        s[q] == BfRawInstruction::EndLoop,
    ensures
        0 <= open_of(s, q) < q,
        compiled(s)[q] == Instruction::EndLoop(open_of(s, q) as usize),
        compiled(s)[open_of(s, q)] == Instruction::StartLoop((q + 1) as usize),
{
    lemma_open_of_is_partner(s, q);
}

/// Every text that the enumeration holds has paired loops, a length from `len`
/// to `max_len`, and the weight 1.
pub proof fn lemma_programs_from_members(
    a: Seq<BfRawInstruction>,
    max_len: nat,
    len: nat,
    idx: nat,
    i: int,
)
    requires
        0 <= i < programs_from(a, max_len, len, idx).len(),
    ensures
        balanced(programs_from(a, max_len, len, idx)[i].0),
        len <= programs_from(a, max_len, len, idx)[i].0.len() <= max_len,
        programs_from(a, max_len, len, idx)[i].1 == 1,
        exists|n: nat|
            programs_from(a, max_len, len, idx)[i].0 == candidate(
                a,
                programs_from(a, max_len, len, idx)[i].0.len(),
                n,
            ),
    decreases max_len + 1 - len, power(a.len(), len) - idx,
{
    if len > max_len {
    } else if idx >= power(a.len(), len) {
        lemma_programs_from_members(a, max_len, len + 1, 0, i);
    } else if balanced(candidate(a, len, idx)) {
        if i == 0 {
            assert(programs_from(a, max_len, len, idx)[0].0 == candidate(a, len, idx));
        } else {
            lemma_programs_from_members(a, max_len, len, idx + 1, i - 1);
        }
    } else {
        lemma_programs_from_members(a, max_len, len, idx + 1, i);
    }
}

/// The enumeration is in the order of the lengths: no text comes before a shorter one.
pub proof fn lemma_programs_from_ordered(
    a: Seq<BfRawInstruction>,
    max_len: nat,
    len: nat,
    idx: nat,
    i: int,
    j: int,
)
    requires
        0 <= i <= j < programs_from(a, max_len, len, idx).len(),
    ensures
        programs_from(a, max_len, len, idx)[i].0.len() <= programs_from(
            a,
            max_len,
            len,
            idx,
        )[j].0.len(),
    decreases max_len + 1 - len, power(a.len(), len) - idx,
{
    if len > max_len {
    } else if idx >= power(a.len(), len) {
        lemma_programs_from_ordered(a, max_len, len + 1, 0, i, j);
    } else if balanced(candidate(a, len, idx)) {
        if i == 0 {
            if j > 0 {
                lemma_programs_from_members(a, max_len, len, idx + 1, j - 1);
            }
        } else {
            lemma_programs_from_ordered(a, max_len, len, idx + 1, i - 1, j - 1);
        }
    } else {
        lemma_programs_from_ordered(a, max_len, len, idx + 1, i, j);
    }
}

} // verus!
